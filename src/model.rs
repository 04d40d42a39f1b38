use vstd::prelude::*;

use crate::alphabet::{alphabet_len, alphabet_size};

verus! {

/// Number of positions at which a window of `k` symbols is followed by one more symbol.
pub open spec fn num_positions(len: nat, k: nat) -> nat {
    if len > k {
        (len - k) as nat
    } else {
        0
    }
}

/// The `k` symbols of `t` that start at index `i`.
pub open spec fn window(t: Seq<u8>, i: int, k: nat) -> Seq<u8> {
    t.subrange(i, i + k)
}

/// Among the first `n` positions of `t`, how many have context `ctx` followed by symbol `b`.
pub open spec fn pair_count(t: Seq<u8>, k: nat, ctx: Seq<u8>, b: int, n: nat) -> nat
    decreases n,
{
    if n == 0 {
        0
    } else {
        pair_count(t, k, ctx, b, (n - 1) as nat) + if window(t, n - 1, k) == ctx && t[n - 1 + k]
            == b {
            1nat
        } else {
            0nat
        }
    }
}

/// Among the first `n` positions of `t`, how many have context `ctx`.
pub open spec fn context_total(t: Seq<u8>, k: nat, ctx: Seq<u8>, n: nat) -> nat
    decreases n,
{
    if n == 0 {
        0
    } else {
        context_total(t, k, ctx, (n - 1) as nat) + if window(t, n - 1, k) == ctx {
            1nat
        } else {
            0nat
        }
    }
}

/// How often `b` follows context `ctx` in the training text `t`, for order `k`.
pub open spec fn trained_count(t: Seq<u8>, k: nat, ctx: Seq<u8>, b: int) -> nat {
    pair_count(t, k, ctx, b, num_positions(t.len(), k))
}

/// How often context `ctx` is followed by some symbol in the training text `t`.
pub open spec fn trained_total(t: Seq<u8>, k: nat, ctx: Seq<u8>) -> nat {
    context_total(t, k, ctx, num_positions(t.len(), k))
}

/// Sum of a sequence of counts.
pub open spec fn sum_counts(s: Seq<usize>) -> int
    decreases s.len(),
{
    if s.len() == 0 {
        0
    } else {
        sum_counts(s.drop_last()) + s.last()
    }
}

/// Changing one count changes the sum by the difference.
pub proof fn lemma_sum_update(s: Seq<usize>, b: int, v: usize)
    requires
        0 <= b < s.len(),
    ensures
        sum_counts(s.update(b, v)) == sum_counts(s) - s[b] + v,
    decreases s.len(),
{
    let u = s.update(b, v);
    if b == s.len() - 1 {
        assert(u.drop_last() =~= s.drop_last());
    } else {
        assert(u.drop_last() =~= s.drop_last().update(b, v));
        lemma_sum_update(s.drop_last(), b, v);
    }
}

/// Each count is at most the sum of all counts.
pub proof fn lemma_count_le_sum(s: Seq<usize>, b: int)
    requires
        0 <= b < s.len(),
    ensures
        s[b] <= sum_counts(s),
    decreases s.len(),
{
    lemma_sum_nonneg(s.drop_last());
    if b < s.len() - 1 {
        lemma_count_le_sum(s.drop_last(), b);
    }
}

/// A sum of counts is never negative.
pub proof fn lemma_sum_nonneg(s: Seq<usize>)
    ensures
        sum_counts(s) >= 0,
    decreases s.len(),
{
    if s.len() > 0 {
        lemma_sum_nonneg(s.drop_last());
    }
}

/// A context never has more successors of one kind than successors in all.
pub proof fn lemma_pair_le_total(t: Seq<u8>, k: nat, ctx: Seq<u8>, b: int, n: nat)
    ensures
        pair_count(t, k, ctx, b, n) <= context_total(t, k, ctx, n),
    decreases n,
{
    if n > 0 {
        lemma_pair_le_total(t, k, ctx, b, (n - 1) as nat);
    }
}

/// Whether the `k` symbols of `text` starting at `start` equal `ctx`.
fn window_eq(text: &[u8], start: usize, k: usize, ctx: &Vec<u8>) -> (r: bool)
    requires
        start + k <= text@.len(),
    ensures
        r == (window(text@, start as int, k as nat) == ctx@),
{
    if ctx.len() != k {
        return false;
    }
    let n = text.len();
    let mut i: usize = 0;
    while i < k
        invariant
            start + k <= text@.len(),
            n == text@.len(),
            ctx@.len() == k,
            i <= k,
            forall|m: int| 0 <= m < i ==> text@[start + m] == ctx@[m],
        decreases k - i,
    {
        if text[start + i] != ctx[i] {
            assert(window(text@, start as int, k as nat)[i as int] != ctx@[i as int]);
            return false;
        }
        i = i + 1;
    }
    assert(window(text@, start as int, k as nat) =~= ctx@);
    true
}

/// A copy of the `k` symbols of `text` starting at `start`.
fn copy_window(text: &[u8], start: usize, k: usize) -> (r: Vec<u8>)
    requires
        start + k <= text@.len(),
    ensures
        r@ == window(text@, start as int, k as nat),
{
    let mut r: Vec<u8> = Vec::new();
    let n = text.len();
    let mut i: usize = 0;
    while i < k
        invariant
            start + k <= text@.len(),
            n == text@.len(),
            i <= k,
            r@ =~= text@.subrange(start as int, start + i),
        decreases k - i,
    {
        r.push(text[start + i]);
        i = i + 1;
    }
    r
}

/// One zero count per byte value.
fn zero_counts() -> (r: Vec<usize>)
    ensures
        r@.len() == 256,
        forall|b: int| 0 <= b < 256 ==> r@[b] == 0,
        sum_counts(r@) == 0,
{
    let mut r: Vec<usize> = Vec::new();
    let mut i: usize = 0;
    while i < 256
        invariant
            i <= 256,
            r@.len() == i,
            forall|b: int| 0 <= b < i ==> r@[b] == 0,
            sum_counts(r@) == 0,
        decreases 256 - i,
    {
        let ghost before = r@;
        r.push(0);
        assert(r@.drop_last() =~= before);
        i = i + 1;
    }
    r
}

/// The index of the entry whose context is the window of `text` at `start`, if any.
fn find_context(table: &Vec<ContextEntry>, text: &[u8], start: usize, k: usize) -> (r: Option<
    usize,
>)
    requires
        start + k <= text@.len(),
    ensures
        match r {
            Some(j) => j < table@.len() && table@[j as int].context@ == window(
                text@,
                start as int,
                k as nat,
            ),
            None => forall|j: int|
                0 <= j < table@.len() ==> (#[trigger] table@[j]).context@ != window(
                    text@,
                    start as int,
                    k as nat,
                ),
        },
{
    let mut j: usize = 0;
    while j < table.len()
        invariant
            start + k <= text@.len(),
            j <= table@.len(),
            forall|m: int|
                0 <= m < j ==> (#[trigger] table@[m]).context@ != window(
                    text@,
                    start as int,
                    k as nat,
                ),
        decreases table@.len() - j,
    {
        if window_eq(text, start, k, &table[j].context) {
            return Some(j);
        }
        j = j + 1;
    }
    None
}

/// A context occurs at most once per position.
pub proof fn lemma_total_le_positions(t: Seq<u8>, k: nat, ctx: Seq<u8>, n: nat)
    ensures
        context_total(t, k, ctx, n) <= n,
    decreases n,
{
    if n > 0 {
        lemma_total_le_positions(t, k, ctx, (n - 1) as nat);
    }
}

/// `table` holds, for the first `n` positions of `t`, one well-formed entry per
/// distinct context that occurs there and no other, with the exact counts and
/// totals.
pub open spec fn table_matches(table: Seq<ContextEntry>, t: Seq<u8>, k: nat, n: nat) -> bool {
    &&& forall|j: int|
        0 <= j < table.len() ==> (#[trigger] table[j]).wf() && table[j].context@.len() == k
            && table[j].total == context_total(t, k, table[j].context@, n)
            && table[j].total > 0
    &&& forall|j: int, b: int|
        0 <= j < table.len() && 0 <= b < 256 ==> #[trigger] table[j].counts@[b] == pair_count(
            t,
            k,
            table[j].context@,
            b,
            n,
        )
    &&& forall|j1: int, j2: int|
        0 <= j1 < table.len() && 0 <= j2 < table.len() && j1 != j2 ==> (#[trigger] table[j1]).context@
            != (#[trigger] table[j2]).context@
    &&& forall|ctx: Seq<u8>|
        #[trigger] context_total(t, k, ctx, n) > 0 ==> exists|j: int|
            0 <= j < table.len() && (#[trigger] table[j]).context@ == ctx
}

/// The successor counts of one context.
pub struct ContextEntry {
    /// The context: exactly `k` symbols.
    pub context: Vec<u8>,
    /// For each byte value, how often it follows the context.
    pub counts: Vec<usize>,
    /// How often the context occurs followed by any symbol.
    pub total: usize,
}

impl ContextEntry {
    /// One count per byte value, adding up to the total.
    pub open spec fn wf(&self) -> bool {
        self.counts@.len() == 256 && sum_counts(self.counts@) == self.total
    }
}

/// An order-k Markov context model: the training alphabet's size and the
/// successor counts of every context seen in training.
pub struct Model {
    /// The context order `k`.
    pub ko: usize,
    /// Number of distinct symbols of the training text.
    pub alphabet_size: usize,
    /// One entry per distinct context of the training text.
    pub table: Vec<ContextEntry>,
}

impl Model {
    /// Counts, for every window of `ko` symbols of `text` that is followed by
    /// one more symbol, which symbol follows it.
    pub fn build_table(text: &[u8], ko: usize) -> (r: Vec<ContextEntry>)
        ensures
            table_matches(r@, text@, ko as nat, num_positions(text@.len(), ko as nat)),
            text@.len() <= ko ==> r@.len() == 0,
    {
        let mut table: Vec<ContextEntry> = Vec::new();
        let len = text.len();
        let n: usize = if len > ko {
            len - ko
        } else {
            0
        };
        let ghost t = text@;
        let ghost k = ko as nat;
        let mut i: usize = 0;
        while i < n
            invariant
                len == t.len(),
                t == text@,
                k == ko,
                n == num_positions(t.len(), k),
                i <= n,
                table_matches(table@, t, k, i as nat),
                len <= ko ==> table@.len() == 0,
            decreases n - i,
        {
            let next = text[i + ko];
            let ghost w = window(t, i as int, k);
            let ghost old_table = table@;
            let ghost i1 = (i + 1) as nat;
            proof {
                lemma_total_le_positions(t, k, w, i as nat);
            }
            match find_context(&table, text, i, ko) {
                Some(j) => {
                    let mut e = table.remove(j);
                    proof {
                        assert(old_table[j as int] == e);
                        lemma_pair_le_total(t, k, w, next as int, i as nat);
                    }
                    let c = e.counts[next as usize];
                    e.counts.set(next as usize, c + 1);
                    e.total = e.total + 1;
                    proof {
                        lemma_sum_update(old_table[j as int].counts@, next as int, (c + 1) as usize);
                    }
                    table.insert(j, e);
                    proof {
                        assert(table@ =~= old_table.update(j as int, e));
                        assert forall|m: int, b: int|
                            0 <= m < table@.len() && 0 <= b < 256 implies #[trigger] table@[m].counts@[b]
                            == pair_count(t, k, table@[m].context@, b, i1) by {
                            if m != j {
                                assert(old_table[m].context@ != w);
                            }
                        }
                        assert forall|m: int|
                            0 <= m < table@.len() implies (#[trigger] table@[m]).wf()
                            && table@[m].context@.len() == k && table@[m].total == context_total(
                                t,
                                k,
                                table@[m].context@,
                                i1,
                            ) by {
                            if m != j {
                                assert(old_table[m].context@ != w);
                            }
                        }
                        assert forall|ctx: Seq<u8>|
                            #[trigger] context_total(t, k, ctx, i1) > 0 implies exists|m: int|
                                0 <= m < table@.len() && (#[trigger] table@[m]).context@ == ctx by {
                            if ctx == w {
                                assert(table@[j as int].context@ == ctx);
                            } else {
                                assert(context_total(t, k, ctx, i as nat) > 0);
                                let m = choose|m: int|
                                    0 <= m < old_table.len() && (#[trigger] old_table[m]).context@ == ctx;
                                assert(table@[m].context@ == ctx);
                            }
                        }
                    }
                },
                None => {
                    let mut counts = zero_counts();
                    let ghost zeros = counts@;
                    counts.set(next as usize, 1);
                    proof {
                        lemma_sum_update(zeros, next as int, 1);
                    }
                    let e = ContextEntry { context: copy_window(text, i, ko), counts, total: 1 };
                    table.push(e);
                    proof {
                        assert(context_total(t, k, w, i as nat) == 0);
                        assert forall|b: int| 0 <= b < 256 implies pair_count(t, k, w, b, i as nat) == 0 by {
                            lemma_pair_le_total(t, k, w, b, i as nat);
                        }
                        let last = old_table.len() as int;
                        assert forall|m: int, b: int|
                            0 <= m < table@.len() && 0 <= b < 256 implies #[trigger] table@[m].counts@[b]
                            == pair_count(t, k, table@[m].context@, b, i1) by {
                            if m != last {
                                assert(old_table[m].context@ != w);
                                assert(table@[m] == old_table[m]);
                            } else {
                                assert(table@[m] == e);
                                lemma_pair_le_total(t, k, w, b, i as nat);
                                assert(window(t, i1 - 1, k) == w);
                                assert(t[i1 - 1 + k] == next);
                            }
                        }
                        assert forall|m: int|
                            0 <= m < table@.len() implies (#[trigger] table@[m]).wf()
                            && table@[m].context@.len() == k && table@[m].total == context_total(
                                t,
                                k,
                                table@[m].context@,
                                i1,
                            ) by {
                            if m != last {
                                assert(old_table[m].context@ != w);
                                assert(table@[m] == old_table[m]);
                            }
                        }
                        assert forall|m1: int, m2: int|
                            0 <= m1 < table@.len() && 0 <= m2 < table@.len() && m1 != m2 implies (#[trigger] table@[m1]).context@
                            != (#[trigger] table@[m2]).context@ by {
                            if m1 != last && m2 != last {
                                assert(table@[m1] == old_table[m1]);
                                assert(table@[m2] == old_table[m2]);
                            } else if m1 == last {
                                assert(table@[m2] == old_table[m2]);
                            } else {
                                assert(table@[m1] == old_table[m1]);
                            }
                        }
                        assert forall|ctx: Seq<u8>|
                            #[trigger] context_total(t, k, ctx, i1) > 0 implies exists|m: int|
                                0 <= m < table@.len() && (#[trigger] table@[m]).context@ == ctx by {
                            if ctx == w {
                                assert(table@[last].context@ == ctx);
                            } else {
                                assert(context_total(t, k, ctx, i as nat) > 0);
                                let m = choose|m: int|
                                    0 <= m < old_table.len() && (#[trigger] old_table[m]).context@ == ctx;
                                assert(table@[m] == old_table[m]);
                            }
                        }
                    }
                },
            }
            i = i + 1;
        }
        table
    }

    /// Trains a model of order `ko` on `text`.
    pub fn new(text: &[u8], ko: usize) -> (r: Model)
        ensures
            r.wf(),
            r.ko == ko,
            r.trained_on(text@),
            table_matches(r.table@, text@, ko as nat, num_positions(text@.len(), ko as nat)),
            forall|ctx: Seq<u8>| #[trigger]
                r.has_context(ctx) <==> trained_total(text@, ko as nat, ctx) > 0,
            text@.len() <= ko ==> r.table@.len() == 0,
    {
        let alphabet_size = alphabet_size(text);
        let table = Self::build_table(text, ko);
        let r = Model { ko, alphabet_size, table };
        let ghost t = text@;
        let ghost k = ko as nat;
        let ghost n = num_positions(t.len(), k);
        proof {
            assert forall|ctx: Seq<u8>, b: int|
                0 <= b < 256 implies #[trigger] r.count_of(ctx, b) == trained_count(t, k, ctx, b) by {
                if r.has_context(ctx) {
                    let j = r.entry_of(ctx);
                    assert(0 <= j < r.table@.len() && r.table@[j].context@ == ctx);
                    assert(r.table@[j].counts@[b] == pair_count(t, k, r.table@[j].context@, b, n));
                } else {
                    if context_total(t, k, ctx, n) > 0 {
                        let j = choose|j: int|
                            0 <= j < r.table@.len() && (#[trigger] r.table@[j]).context@ == ctx;
                        assert(r.has_context(ctx));
                    }
                    lemma_pair_le_total(t, k, ctx, b, n);
                }
            }
            assert forall|ctx: Seq<u8>| #[trigger]
                r.has_context(ctx) <==> trained_total(t, k, ctx) > 0 by {
                if r.has_context(ctx) {
                    let j = r.entry_of(ctx);
                    assert(0 <= j < r.table@.len() && r.table@[j].context@ == ctx);
                    assert(r.table@[j].total > 0);
                } else if context_total(t, k, ctx, n) > 0 {
                    let j = choose|j: int|
                        0 <= j < r.table@.len() && (#[trigger] r.table@[j]).context@ == ctx;
                    assert(r.has_context(ctx));
                }
            }
            assert forall|ctx: Seq<u8>| #[trigger] r.total_of(ctx) == trained_total(t, k, ctx) by {
                if r.has_context(ctx) {
                    let j = r.entry_of(ctx);
                    assert(0 <= j < r.table@.len() && r.table@[j].context@ == ctx);
                    assert(r.table@[j].total == context_total(t, k, r.table@[j].context@, n));
                } else {
                    if context_total(t, k, ctx, n) > 0 {
                        let j = choose|j: int|
                            0 <= j < r.table@.len() && (#[trigger] r.table@[j]).context@ == ctx;
                        assert(r.has_context(ctx));
                    }
                }
            }
        }
        r
    }

    /// For every position of `x` that has a full context before it, the
    /// trained count of its symbol after that context and the context's total
    /// (both 0 for a context never seen in training).
    pub fn position_counts(&self, x: &[u8]) -> (r: Vec<(usize, usize)>)
        requires
            self.wf(),
        ensures
            r@.len() == num_positions(x@.len(), self.ko as nat),
            x@.len() <= self.ko ==> r@.len() == 0,
            forall|i: int|
                0 <= i < r@.len() ==> {
                    let w = window(x@, i, self.ko as nat);
                    &&& (#[trigger] r@[i]).0 == self.count_of(w, x@[i + self.ko] as int)
                    &&& r@[i].1 == self.total_of(w)
                    &&& r@[i].0 <= r@[i].1
                },
    {
        let len = x.len();
        let n: usize = if len > self.ko {
            len - self.ko
        } else {
            0
        };
        let mut r: Vec<(usize, usize)> = Vec::new();
        let mut i: usize = 0;
        while i < n
            invariant
                self.wf(),
                len == x@.len(),
                n == num_positions(x@.len(), self.ko as nat),
                i <= n,
                r@.len() == i,
                forall|m: int|
                    0 <= m < i ==> {
                        let w = window(x@, m, self.ko as nat);
                        &&& (#[trigger] r@[m]).0 == self.count_of(w, x@[m + self.ko] as int)
                        &&& r@[m].1 == self.total_of(w)
                        &&& r@[m].0 <= r@[m].1
                    },
            decreases n - i,
        {
            let next = x[i + self.ko];
            let ghost w = window(x@, i as int, self.ko as nat);
            match find_context(&self.table, x, i, self.ko) {
                Some(j) => {
                    let e = &self.table[j];
                    proof {
                        assert(self.has_context(w));
                        let j2 = self.entry_of(w);
                        assert(self.table@[j2].context@ == w);
                        assert(j2 == j);
                        assert(e.wf());
                        lemma_count_le_sum(e.counts@, next as int);
                    }
                    r.push((e.counts[next as usize], e.total));
                },
                None => {
                    proof {
                        assert(!self.has_context(w));
                    }
                    r.push((0, 0));
                },
            }
            i = i + 1;
        }
        r
    }

    /// Every entry has a context of length `k` and counts that add up to its
    /// total, and no context is stored twice.
    pub open spec fn wf(&self) -> bool {
        &&& forall|j: int|
            0 <= j < self.table@.len() ==> (#[trigger] self.table@[j]).wf()
                && self.table@[j].context@.len() == self.ko
        &&& forall|j1: int, j2: int|
            0 <= j1 < self.table@.len() && 0 <= j2 < self.table@.len() && j1 != j2
                ==> (#[trigger] self.table@[j1]).context@ != (#[trigger] self.table@[j2]).context@
    }

    /// Whether the table holds an entry for `ctx`.
    pub open spec fn has_context(&self, ctx: Seq<u8>) -> bool {
        exists|j: int| 0 <= j < self.table@.len() && (#[trigger] self.table@[j]).context@ == ctx
    }

    /// The index of the entry for `ctx`, where there is one.
    pub open spec fn entry_of(&self, ctx: Seq<u8>) -> int {
        choose|j: int| 0 <= j < self.table@.len() && (#[trigger] self.table@[j]).context@ == ctx
    }

    /// How often `b` follows `ctx` according to the table (0 for an unseen context).
    pub open spec fn count_of(&self, ctx: Seq<u8>, b: int) -> nat {
        if self.has_context(ctx) {
            self.table@[self.entry_of(ctx)].counts@[b] as nat
        } else {
            0
        }
    }

    /// How often `ctx` occurs with a successor according to the table (0 for an unseen context).
    pub open spec fn total_of(&self, ctx: Seq<u8>) -> nat {
        if self.has_context(ctx) {
            self.table@[self.entry_of(ctx)].total as nat
        } else {
            0
        }
    }

    /// The model is the one trained on `t`: its order, alphabet size and every
    /// count and total agree with the text.
    pub open spec fn trained_on(&self, t: Seq<u8>) -> bool {
        &&& self.alphabet_size == alphabet_len(t)
        &&& forall|ctx: Seq<u8>, b: int|
            0 <= b < 256 ==> #[trigger] self.count_of(ctx, b) == trained_count(
                t,
                self.ko as nat,
                ctx,
                b,
            )
        &&& forall|ctx: Seq<u8>| #[trigger]
            self.total_of(ctx) == trained_total(t, self.ko as nat, ctx)
    }
}

/// Position `i` is among the first `n` and so is counted for its own context
/// and successor.
proof fn lemma_position_counted(t: Seq<u8>, k: nat, i: int, n: nat)
    requires
        0 <= i < n,
    ensures
        pair_count(t, k, window(t, i, k), t[i + k] as int, n) >= 1,
    decreases n,
{
    if i < n - 1 {
        lemma_position_counted(t, k, i, (n - 1) as nat);
    }
}

/// Every symbol of the training text that follows a full context was seen
/// after that context: the model trained on `t` counts it at least once.
pub proof fn lemma_training_windows_seen(m: &Model, t: Seq<u8>, i: int)
    requires
        m.trained_on(t),
        0 <= i < num_positions(t.len(), m.ko as nat),
    ensures
        m.count_of(window(t, i, m.ko as nat), t[i + m.ko] as int) >= 1,
{
    lemma_position_counted(t, m.ko as nat, i, num_positions(t.len(), m.ko as nat));
    assert(m.count_of(window(t, i, m.ko as nat), t[i + m.ko] as int) == trained_count(
        t,
        m.ko as nat,
        window(t, i, m.ko as nat),
        t[i + m.ko] as int,
    ));
}

/// In a trained model, the successor counts stored for every context add up
/// to the total stored for it.
pub proof fn lemma_table_invariant(m: &Model)
    requires
        m.wf(),
    ensures
        forall|j: int|
            0 <= j < m.table@.len() ==> sum_counts(#[trigger] m.table@[j].counts@)
                == m.table@[j].total,
        forall|ctx: Seq<u8>|
            #[trigger] m.has_context(ctx) ==> sum_counts(m.table@[m.entry_of(ctx)].counts@)
                == m.total_of(ctx),
{
    assert forall|j: int| 0 <= j < m.table@.len() implies sum_counts(
        #[trigger] m.table@[j].counts@,
    ) == m.table@[j].total by {
        assert(m.table@[j].wf());
    }
    assert forall|ctx: Seq<u8>| #[trigger] m.has_context(ctx) implies sum_counts(
        m.table@[m.entry_of(ctx)].counts@,
    ) == m.total_of(ctx) by {
        assert(m.table@[m.entry_of(ctx)].wf());
    }
}

} // verus!
