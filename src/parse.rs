use vstd::prelude::*;

verus! {

/// The record marker `@`.
pub const MARKER: u8 = 64;

/// The line feed byte.
pub const LINE_FEED: u8 = 10;

/// The carriage return byte.
pub const CARRIAGE_RETURN: u8 = 13;

/// The indices at which `t` holds the record marker, in increasing order.
pub open spec fn marker_positions(t: Seq<u8>) -> Seq<int>
    decreases t.len(),
{
    if t.len() == 0 {
        Seq::empty()
    } else {
        let p = marker_positions(t.drop_last());
        if t.last() == MARKER {
            p.push(t.len() - 1)
        } else {
            p
        }
    }
}

/// The bytes of record `j`: from just after its marker up to the next marker
/// or the end of `t`.
pub open spec fn segment(t: Seq<u8>, j: int) -> Seq<u8> {
    let p = marker_positions(t);
    let end = if j + 1 < p.len() {
        p[j + 1]
    } else {
        t.len() as int
    };
    t.subrange(p[j] + 1, end)
}

/// Index of the first line feed of `s`, or its length where it has none.
pub open spec fn first_line_end(s: Seq<u8>) -> int
    decreases s.len(),
{
    if s.len() == 0 {
        0
    } else if s[0] == LINE_FEED {
        0
    } else {
        1 + first_line_end(s.drop_first())
    }
}

/// The first line of `s`, without its line feed.
pub open spec fn first_line(s: Seq<u8>) -> Seq<u8> {
    s.subrange(0, first_line_end(s))
}

/// What follows the first line feed of `s` (empty where it has none).
pub open spec fn after_first_line(s: Seq<u8>) -> Seq<u8> {
    if first_line_end(s) < s.len() {
        s.subrange(first_line_end(s) + 1, s.len() as int)
    } else {
        Seq::empty()
    }
}

/// `s` with every line feed and carriage return removed.
pub open spec fn strip_line_breaks(s: Seq<u8>) -> Seq<u8>
    decreases s.len(),
{
    if s.len() == 0 {
        s
    } else {
        let rest = strip_line_breaks(s.drop_last());
        if s.last() == LINE_FEED || s.last() == CARRIAGE_RETURN {
            rest
        } else {
            rest.push(s.last())
        }
    }
}

/// The text that the standard library makes of `b`, decoding it as UTF-8 and
/// replacing each invalid sequence by U+FFFD.
pub uninterp spec fn lossy_text(b: Seq<u8>) -> Seq<char>;

/// Whether every byte of `b` is ASCII.
pub open spec fn is_ascii(b: Seq<u8>) -> bool {
    forall|i: int| 0 <= i < b.len() ==> b[i] < 128
}

/// The characters of ASCII bytes, one for one.
pub open spec fn ascii_chars(b: Seq<u8>) -> Seq<char> {
    b.map(|i: int, c: u8| c as char)
}

/// Relies on `String::from_utf8_lossy`: the text depends on the bytes alone,
/// and ASCII bytes, being valid UTF-8, are kept as they are.
#[verifier::external_body]
fn decode_lossy(b: &[u8]) -> (r: String)
    ensures
        r@ == lossy_text(b@),
        is_ascii(b@) ==> r@ == ascii_chars(b@),
{
    String::from_utf8_lossy(b).to_string()
}

/// Indices of the record markers of `text`.
fn find_markers(text: &[u8]) -> (r: Vec<usize>)
    ensures
        r@.len() == marker_positions(text@).len(),
        forall|j: int| 0 <= j < r@.len() ==> r@[j] as int == marker_positions(text@)[j],
{
    let mut r: Vec<usize> = Vec::new();
    let len = text.len();
    let mut i: usize = 0;
    while i < len
        invariant
            len == text@.len(),
            i <= len,
            r@.len() == marker_positions(text@.subrange(0, i as int)).len(),
            forall|j: int|
                0 <= j < r@.len() ==> r@[j] as int == marker_positions(
                    text@.subrange(0, i as int),
                )[j],
        decreases len - i,
    {
        assert(text@.subrange(0, i + 1).drop_last() =~= text@.subrange(0, i as int));
        if text[i] == MARKER {
            r.push(i);
        }
        i = i + 1;
    }
    assert(text@.subrange(0, len as int) =~= text@);
    r
}

/// Markers stand at increasing indices inside `t`, and each holds the marker.
proof fn lemma_marker_positions(t: Seq<u8>)
    ensures
        forall|j: int|
            0 <= j < marker_positions(t).len() ==> 0 <= #[trigger] marker_positions(t)[j] < t.len()
                && t[marker_positions(t)[j]] == MARKER,
        forall|j1: int, j2: int|
            0 <= j1 < j2 < marker_positions(t).len() ==> marker_positions(t)[j1]
                < marker_positions(t)[j2],
    decreases t.len(),
{
    if t.len() > 0 {
        let d = t.drop_last();
        lemma_marker_positions(d);
        let q = marker_positions(d);
        assert forall|j: int| 0 <= j < q.len() implies t[#[trigger] q[j]] == MARKER by {
            assert(t[q[j]] == d[q[j]]);
        }
    }
}

/// Index of the first line feed in `text[from..to]`, or `to` where there is none.
fn find_line_end(text: &[u8], from: usize, to: usize) -> (r: usize)
    requires
        from <= to <= text@.len(),
    ensures
        r == from + first_line_end(text@.subrange(from as int, to as int)),
        from <= r <= to,
{
    let mut i: usize = from;
    while i < to && text[i] != LINE_FEED
        invariant
            from <= i <= to <= text@.len(),
            forall|m: int| from <= m < i ==> text@[m] != LINE_FEED,
        decreases to - i,
    {
        i = i + 1;
    }
    proof {
        lemma_first_line_end(text@.subrange(from as int, to as int), (i - from) as int);
    }
    i
}

/// `first_line_end` is the first index that holds a line feed.
proof fn lemma_first_line_end(s: Seq<u8>, e: int)
    requires
        0 <= e <= s.len(),
        forall|m: int| 0 <= m < e ==> s[m] != LINE_FEED,
        e < s.len() ==> s[e] == LINE_FEED,
    ensures
        first_line_end(s) == e,
    decreases s.len(),
{
    if s.len() > 0 && e > 0 {
        lemma_first_line_end(s.drop_first(), e - 1);
    }
}

/// A copy of `text[from..to]`.
fn copy_range(text: &[u8], from: usize, to: usize) -> (r: Vec<u8>)
    requires
        from <= to <= text@.len(),
    ensures
        r@ == text@.subrange(from as int, to as int),
{
    let mut r: Vec<u8> = Vec::new();
    let mut i: usize = from;
    while i < to
        invariant
            from <= i <= to <= text@.len(),
            r@ =~= text@.subrange(from as int, i as int),
        decreases to - i,
    {
        r.push(text[i]);
        i = i + 1;
    }
    r
}

/// `text[from..to]` without line feeds and carriage returns.
fn copy_without_line_breaks(text: &[u8], from: usize, to: usize) -> (r: Vec<u8>)
    requires
        from <= to <= text@.len(),
    ensures
        r@ == strip_line_breaks(text@.subrange(from as int, to as int)),
{
    let mut r: Vec<u8> = Vec::new();
    let mut i: usize = from;
    while i < to
        invariant
            from <= i <= to <= text@.len(),
            r@ == strip_line_breaks(text@.subrange(from as int, i as int)),
        decreases to - i,
    {
        assert(text@.subrange(from as int, i + 1).drop_last() =~= text@.subrange(
            from as int,
            i as int,
        ));
        let c = text[i];
        if c != LINE_FEED && c != CARRIAGE_RETURN {
            r.push(c);
        }
        i = i + 1;
    }
    r
}

/// Splits a database into records: each `@` starts one, whose first line is
/// its identifier and whose other bytes, without line breaks, its sequence.
/// Bytes before the first `@` belong to no record.
pub fn parse_database(text: &[u8]) -> (r: Vec<(String, Vec<u8>)>)
    ensures
        r@.len() == marker_positions(text@).len(),
        forall|j: int|
            0 <= j < r@.len() ==> {
                let s = segment(text@, j);
                &&& (#[trigger] r@[j]).0@ == lossy_text(first_line(s))
                &&& is_ascii(first_line(s)) ==> r@[j].0@ == ascii_chars(first_line(s))
                &&& r@[j].1@ == strip_line_breaks(after_first_line(s))
            },
{
    let markers = find_markers(text);
    proof {
        lemma_marker_positions(text@);
    }
    let ghost p = marker_positions(text@);
    let mut r: Vec<(String, Vec<u8>)> = Vec::new();
    let len = text.len();
    let mut j: usize = 0;
    while j < markers.len()
        invariant
            len == text@.len(),
            p == marker_positions(text@),
            markers@.len() == p.len(),
            forall|m: int| 0 <= m < markers@.len() ==> markers@[m] as int == p[m],
            forall|m: int| 0 <= m < p.len() ==> 0 <= #[trigger] p[m] < text@.len(),
            forall|m1: int, m2: int| 0 <= m1 < m2 < p.len() ==> p[m1] < p[m2],
            j <= markers@.len(),
            r@.len() == j,
            forall|m: int|
                0 <= m < j ==> {
                    let s = segment(text@, m);
                    &&& (#[trigger] r@[m]).0@ == lossy_text(first_line(s))
                    &&& is_ascii(first_line(s)) ==> r@[m].0@ == ascii_chars(first_line(s))
                    &&& r@[m].1@ == strip_line_breaks(after_first_line(s))
                },
        decreases markers@.len() - j,
    {
        assert(markers@[j as int] as int == p[j as int] && p[j as int] < len);
        let start = markers[j] + 1;
        let end = if j + 1 < markers.len() {
            markers[j + 1]
        } else {
            text.len()
        };
        let ghost s = segment(text@, j as int);
        assert(s =~= text@.subrange(start as int, end as int));
        let line_end = find_line_end(text, start, end);
        let name_bytes = copy_range(text, start, line_end);
        assert(name_bytes@ =~= first_line(s));
        let name = decode_lossy(name_bytes.as_slice());
        let sequence = if line_end < end {
            assert(text@.subrange(line_end + 1, end as int) =~= after_first_line(s));
            copy_without_line_breaks(text, line_end + 1, end)
        } else {
            assert(after_first_line(s) =~= Seq::<u8>::empty());
            Vec::new()
        };
        r.push((name, sequence));
        j = j + 1;
    }
    r
}

} // verus!
