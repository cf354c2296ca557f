//! Lines of the wire protocol: a run of bytes that ends at the first carriage return followed
//! by a line feed.

use vstd::prelude::*;

verus! {

/// Carriage return, the first byte of a line terminator.
pub const CARRIAGE_RETURN: u8 = 13;

/// Line feed, the second byte of a line terminator.
pub const LINE_FEED: u8 = 10;

/// The two bytes that end a line.
pub open spec fn crlf() -> Seq<u8> {
    seq![CARRIAGE_RETURN, LINE_FEED]
}

/// True when a line terminator starts at index `i` of `s`.
pub open spec fn crlf_at(s: Seq<u8>, i: int) -> bool {
    0 <= i && i + 1 < s.len() && s[i] == CARRIAGE_RETURN && s[i + 1] == LINE_FEED
}

/// True when no line terminator starts anywhere in `s`.
pub open spec fn no_crlf(s: Seq<u8>) -> bool {
    forall|i: int| !crlf_at(s, i)
}

/// True when the first line terminator of `s` starts at index `i`.
pub open spec fn is_line_end(s: Seq<u8>, i: int) -> bool {
    crlf_at(s, i) && forall|j: int| 0 <= j < i ==> !crlf_at(s, j)
}

/// Where the first line of `s` ends: the index of its first line terminator, if it has one.
pub open spec fn line_end(s: Seq<u8>) -> Option<int> {
    if exists|i: int| is_line_end(s, i) {
        Some(choose|i: int| is_line_end(s, i))
    } else {
        None
    }
}

/// The first line terminator is the line's end, and there is no other.
pub proof fn lemma_line_end_is(s: Seq<u8>, i: int)
    requires
        is_line_end(s, i),
    ensures
        line_end(s) == Some(i),
{
    let j = choose|j: int| is_line_end(s, j);
    assert(is_line_end(s, j));
    if j < i {
        assert(!crlf_at(s, j));
    }
    if i < j {
        assert(!crlf_at(s, i));
    }
}

/// A sequence without a line terminator has no line end.
pub proof fn lemma_line_end_none(s: Seq<u8>)
    requires
        no_crlf(s),
    ensures
        line_end(s) is None,
{
    if exists|i: int| is_line_end(s, i) {
        let i = choose|i: int| is_line_end(s, i);
        assert(crlf_at(s, i));
    }
}

/// What `line_end` returns is the index of the first line terminator, or there is none at all.
pub proof fn lemma_line_end_cases(s: Seq<u8>)
    ensures
        match line_end(s) {
            Some(i) => is_line_end(s, i),
            None => no_crlf(s),
        },
{
    if exists|i: int| is_line_end(s, i) {
    } else {
        assert forall|i: int| !crlf_at(s, i) by {
            if crlf_at(s, i) {
                lemma_first_crlf_exists(s, i);
            }
        }
    }
}

/// Where a line terminator starts, a first one starts at or before it.
proof fn lemma_first_crlf_exists(s: Seq<u8>, i: int)
    requires
        crlf_at(s, i),
    ensures
        exists|k: int| is_line_end(s, k),
    decreases i,
{
    if forall|j: int| 0 <= j < i ==> !crlf_at(s, j) {
        assert(is_line_end(s, i));
    } else {
        let j = choose|j: int| 0 <= j < i && crlf_at(s, j);
        lemma_first_crlf_exists(s, j);
    }
}

/// A line that holds no terminator itself ends where its own terminator follows it, whatever
/// comes after.
pub proof fn lemma_line_end_of_line(content: Seq<u8>, rest: Seq<u8>)
    requires
        no_crlf(content),
    ensures
        line_end(content + crlf() + rest) == Some(content.len() as int),
{
    let s = content + crlf() + rest;
    let n = content.len() as int;
    assert(crlf_at(s, n));
    assert forall|j: int| 0 <= j < n implies !crlf_at(s, j) by {
        assert(!crlf_at(content, j));
    }
    lemma_line_end_is(s, n);
}

/// A line cut short before the end of its terminator has no line end.
pub proof fn lemma_line_end_of_cut_line(content: Seq<u8>, k: int)
    requires
        no_crlf(content),
        0 <= k <= content.len() + 1,
    ensures
        line_end((content + crlf()).take(k)) is None,
{
    let s = (content + crlf()).take(k);
    assert forall|j: int| !crlf_at(s, j) by {
        assert(!crlf_at(content, j));
    }
    lemma_line_end_none(s);
}

/// The first line of a sequence is the first line of each of its prefixes that holds the
/// line's terminator.
pub proof fn lemma_line_end_of_prefix(s: Seq<u8>, k: int)
    requires
        line_end(s) matches Some(i) && i + 2 <= k <= s.len(),
    ensures
        line_end(s.take(k)) == line_end(s),
{
    lemma_line_end_cases(s);
    let i = line_end(s)->0;
    let t = s.take(k);
    assert(crlf_at(t, i));
    assert forall|j: int| 0 <= j < i implies !crlf_at(t, j) by {
        assert(!crlf_at(s, j));
    }
    lemma_line_end_is(t, i);
}

/// The first line of a sequence is also the first line of any sequence that continues it.
pub proof fn lemma_line_end_extends(s: Seq<u8>, rest: Seq<u8>)
    requires
        line_end(s) is Some,
    ensures
        line_end(s + rest) == line_end(s),
{
    lemma_line_end_cases(s);
    let i = line_end(s)->0;
    let t = s + rest;
    assert(crlf_at(t, i));
    assert forall|j: int| 0 <= j < i implies !crlf_at(t, j) by {
        assert(!crlf_at(s, j));
        assert(t[j] == s[j]);
        assert(t[j + 1] == s[j + 1]);
    }
    lemma_line_end_is(t, i);
}

/// Tells whether a line terminator starts at index `i` of `buffer`.
fn starts_crlf(buffer: &[u8], i: usize) -> (found: bool)
    ensures
        found == crlf_at(buffer@, i as int),
{
    i < buffer.len() && buffer.len() - i > 1 && buffer[i] == CARRIAGE_RETURN && buffer[i + 1]
        == LINE_FEED
}

/// Looks for the first line of `buffer`. Returns the line without its terminator and the number
/// of bytes that the line takes with it, or `None` while no terminator has arrived: on an
/// empty buffer too, and on one of a single byte.
pub fn read_until_crlf(buffer: &[u8]) -> (r: Option<(&[u8], usize)>)
    ensures
        match line_end(buffer@) {
            Some(i) => r matches Some((line, used)) && line@ == buffer@.take(i) && used == i + 2,
            None => r is None,
        },
{
    let mut i: usize = 0;
    while i < buffer.len()
        invariant
            i <= buffer@.len(),
            forall|j: int| 0 <= j < i ==> !crlf_at(buffer@, j),
        decreases buffer@.len() - i,
    {
        if starts_crlf(buffer, i) {
            proof {
                lemma_line_end_is(buffer@, i as int);
            }
            let line = vstd::slice::slice_subrange(buffer, 0, i);
            return Some((line, i + 2));
        }
        i += 1;
    }
    proof {
        lemma_line_end_none(buffer@);
    }
    None
}

} // verus!
