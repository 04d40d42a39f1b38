use vstd::prelude::*;

verus! {

/// Whether byte value `b` occurs somewhere in `s`.
pub open spec fn occurs(s: Seq<u8>, b: int) -> bool {
    exists|i: int| 0 <= i < s.len() && s[i] == b
}

/// How many of the byte values `0..n` occur in `s`.
pub open spec fn present_below(s: Seq<u8>, n: nat) -> nat
    decreases n,
{
    if n == 0 {
        0
    } else {
        present_below(s, (n - 1) as nat) + if occurs(s, n - 1) { 1nat } else { 0nat }
    }
}

/// Size of the alphabet of `s`: the number of distinct byte values in it.
pub open spec fn alphabet_len(s: Seq<u8>) -> nat {
    present_below(s, 256)
}

/// Number of distinct symbols occurring in `text`.
pub fn alphabet_size(text: &[u8]) -> (r: usize)
    ensures
        r == alphabet_len(text@),
        r <= 256,
{
    let mut seen: Vec<bool> = Vec::new();
    let mut j: usize = 0;
    while j < 256
        invariant
            j <= 256,
            seen@.len() == j,
            forall|b: int| 0 <= b < j ==> !seen@[b],
        decreases 256 - j,
    {
        seen.push(false);
        j = j + 1;
    }
    let mut i: usize = 0;
    while i < text.len()
        invariant
            i <= text@.len(),
            seen@.len() == 256,
            forall|b: int| 0 <= b < 256 ==> seen@[b] == occurs(text@.subrange(0, i as int), b),
        decreases text@.len() - i,
    {
        let c = text[i];
        seen.set(c as usize, true);
        i = i + 1;
        proof {
            let pre = text@.subrange(0, i - 1);
            let cur = text@.subrange(0, i as int);
            assert forall|b: int| 0 <= b < 256 implies seen@[b] == occurs(cur, b) by {
                if occurs(pre, b) {
                    let w = choose|w: int| 0 <= w < pre.len() && pre[w] == b;
                    assert(cur[w] == b);
                }
                if occurs(cur, b) && b != c {
                    let w = choose|w: int| 0 <= w < cur.len() && cur[w] == b;
                    assert(w < i - 1);
                    assert(pre[w] == b);
                }
                if b == c {
                    assert(cur[i - 1] == b);
                }
            }
        }
    }
    assert(text@.subrange(0, text@.len() as int) =~= text@);
    let mut n: usize = 0;
    let mut v: usize = 0;
    while v < 256
        invariant
            v <= 256,
            seen@.len() == 256,
            forall|b: int| 0 <= b < 256 ==> seen@[b] == occurs(text@, b),
            n == present_below(text@, v as nat),
            n <= v,
        decreases 256 - v,
    {
        if seen[v] {
            n = n + 1;
        }
        v = v + 1;
    }
    n
}

} // verus!
