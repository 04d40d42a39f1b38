use vstd::prelude::*;

verus! {

/// Candidate `a` ranks before candidate `b`: a lower key, or an equal key and
/// an earlier place in the input.
pub open spec fn ranks_before(keys: Seq<u64>, a: int, b: int) -> bool {
    keys[a] < keys[b] || (keys[a] == keys[b] && a < b)
}

/// Index `x` stands somewhere in `order`.
pub open spec fn listed(order: Seq<usize>, x: int) -> bool {
    exists|a: int| 0 <= a < order.len() && #[trigger] order[a] == x
}

/// `order` lists every index of `keys` once, by ascending key, equal keys in
/// input order.
pub open spec fn is_ranking(keys: Seq<u64>, order: Seq<usize>) -> bool {
    &&& order.len() == keys.len()
    &&& forall|a: int| 0 <= a < order.len() ==> #[trigger] order[a] < keys.len()
    &&& forall|x: int| 0 <= x < keys.len() ==> #[trigger] listed(order, x)
    &&& forall|a: int, b: int|
        0 <= a < b < order.len() ==> ranks_before(keys, #[trigger] order[a] as int, #[trigger] order[b] as int)
}

/// The indices of `keys` sorted by ascending key; equal keys keep their input
/// order.
pub fn rank(keys: &Vec<u64>) -> (r: Vec<usize>)
    ensures
        is_ranking(keys@, r@),
{
    let n = keys.len();
    let mut r: Vec<usize> = Vec::new();
    let mut i: usize = 0;
    while i < n
        invariant
            n == keys@.len(),
            i <= n,
            r@.len() == i,
            forall|a: int| 0 <= a < r@.len() ==> #[trigger] r@[a] < i,
            forall|x: int| 0 <= x < i ==> #[trigger] listed(r@, x),
            forall|a: int, b: int|
                0 <= a < b < r@.len() ==> ranks_before(keys@, #[trigger] r@[a] as int, #[trigger] r@[b] as int),
        decreases n - i,
    {
        let k = keys[i];
        let mut p: usize = 0;
        while p < r.len() && keys[r[p]] <= k
            invariant
                n == keys@.len(),
                r@.len() == i,
                i < n,
                p <= r@.len(),
                forall|a: int| 0 <= a < r@.len() ==> #[trigger] r@[a] < i,
                forall|a: int| 0 <= a < p ==> keys@[#[trigger] r@[a] as int] <= k,
            decreases r@.len() - p,
        {
            p = p + 1;
        }
        let ghost old_r = r@;
        r.insert(p, i);
        proof {
            assert(r@ == old_r.insert(p as int, i));
            assert forall|a: int| 0 <= a < r@.len() implies #[trigger] r@[a] < i + 1 by {
                if a < p {
                    assert(r@[a] == old_r[a]);
                } else if a > p {
                    assert(r@[a] == old_r[a - 1]);
                }
            }
            assert forall|x: int| 0 <= x < i + 1 implies #[trigger] listed(r@, x) by {
                if x == i {
                    assert(r@[p as int] == x);
                } else {
                    assert(listed(old_r, x));
                    let a = choose|a: int| 0 <= a < old_r.len() && #[trigger] old_r[a] == x;
                    if a < p {
                        assert(r@[a] == x);
                    } else {
                        assert(r@[a + 1] == x);
                    }
                }
            }
            assert forall|a: int, b: int| 0 <= a < b < r@.len() implies ranks_before(
                keys@,
                #[trigger] r@[a] as int,
                #[trigger] r@[b] as int,
            ) by {
                if b < p {
                    assert(r@[a] == old_r[a] && r@[b] == old_r[b]);
                } else if b == p {
                    assert(r@[a] == old_r[a]);
                    assert(keys@[old_r[a] as int] <= k);
                } else if a == p {
                    assert(r@[b] == old_r[b - 1]);
                    assert(keys@[old_r[p as int] as int] > k);
                    if b - 1 > p {
                        assert(ranks_before(keys@, old_r[p as int] as int, old_r[b - 1] as int));
                    }
                } else if a < p {
                    assert(r@[a] == old_r[a] && r@[b] == old_r[b - 1]);
                } else {
                    assert(r@[a] == old_r[a - 1] && r@[b] == old_r[b - 1]);
                }
            }
        }
        i = i + 1;
    }
    r
}

/// The first `top` indices of the ranking of `keys` (all of them where there
/// are fewer).
pub fn top_ranked(keys: &Vec<u64>, top: usize) -> (r: Vec<usize>)
    ensures
        exists|full: Seq<usize>|
            is_ranking(keys@, full) && r@ == full.subrange(
                0,
                if top < keys@.len() {
                    top as int
                } else {
                    keys@.len() as int
                },
            ),
{
    let full = rank(keys);
    let m = if top < full.len() {
        top
    } else {
        full.len()
    };
    let mut r: Vec<usize> = Vec::new();
    let mut i: usize = 0;
    while i < m
        invariant
            m <= full@.len(),
            i <= m,
            r@ =~= full@.subrange(0, i as int),
        decreases m - i,
    {
        r.push(full[i]);
        i = i + 1;
    }
    assert(is_ranking(keys@, full@));
    r
}

/// Each prefix of two rankings of the same keys agrees.
proof fn lemma_rankings_agree_below(keys: Seq<u64>, r1: Seq<usize>, r2: Seq<usize>, n: int)
    requires
        is_ranking(keys, r1),
        is_ranking(keys, r2),
        0 <= n <= r1.len(),
    ensures
        forall|b: int| 0 <= b < n ==> r1[b] == r2[b],
    decreases n,
{
    if n > 0 {
        lemma_rankings_agree_below(keys, r1, r2, n - 1);
        let a = n - 1;
        if r1[a] != r2[a] {
            let x1 = r1[a] as int;
            let x2 = r2[a] as int;
            assert(listed(r2, x1) && listed(r1, x2));
            let b1 = choose|b: int| 0 <= b < r2.len() && #[trigger] r2[b] == x1;
            let b2 = choose|b: int| 0 <= b < r1.len() && #[trigger] r1[b] == x2;
            if b1 < a {
                assert(r1[b1] == r2[b1]);
                assert(ranks_before(keys, r1[b1] as int, r1[a] as int));
            } else if b2 < a {
                assert(r2[b2] == r1[b2]);
                assert(ranks_before(keys, r2[b2] as int, r2[a] as int));
            } else {
                assert(ranks_before(keys, r2[a] as int, r2[b1] as int));
                assert(ranks_before(keys, r1[a] as int, r1[b2] as int));
            }
        }
    }
}

/// A ranking is determined by the keys alone: any two rankings of the same
/// keys are the same sequence, so ranking a fixed collection twice gives the
/// same order, ties included.
pub proof fn lemma_ranking_deterministic(keys: Seq<u64>, r1: Seq<usize>, r2: Seq<usize>)
    requires
        is_ranking(keys, r1),
        is_ranking(keys, r2),
    ensures
        r1 == r2,
{
    lemma_rankings_agree_below(keys, r1, r2, r1.len() as int);
    assert(r1 =~= r2);
}

} // verus!
