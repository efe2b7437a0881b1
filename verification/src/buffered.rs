//! Looking for a run of bytes inside a stream of bytes.
//!
//! File content crosses a connection without a length in front of it. The
//! magic bytes of the connection follow the content and mark its end, so the
//! receiver has to find the first place where they stand in what arrived.

use vstd::prelude::*;

verus! {

/// `pattern` stands in `data`, and its first byte is the byte of `data` at
/// index `at`.
pub open spec fn occurs_at(data: Seq<u8>, pattern: Seq<u8>, at: int) -> bool {
    &&& 0 <= at
    &&& at + pattern.len() <= data.len()
    &&& data.subrange(at, at + pattern.len()) == pattern
}

/// `pattern` stands nowhere in `data` with its first byte before index `end`.
pub open spec fn absent_before(data: Seq<u8>, pattern: Seq<u8>, end: int) -> bool {
    forall|at: int| 0 <= at < end ==> !occurs_at(data, pattern, at)
}

/// `pattern` stands nowhere in `data`.
pub open spec fn absent(data: Seq<u8>, pattern: Seq<u8>) -> bool {
    forall|at: int| !occurs_at(data, pattern, at)
}

/// `at` is the first place where `pattern` stands in `data`.
pub open spec fn first_occurrence(data: Seq<u8>, pattern: Seq<u8>, at: int) -> bool {
    &&& occurs_at(data, pattern, at)
    &&& absent_before(data, pattern, at)
}

/// The first place where `pattern` stands in `data`, or `None` where it
/// stands nowhere.
pub open spec fn find(data: Seq<u8>, pattern: Seq<u8>) -> Option<int> {
    if exists|at: int| first_occurrence(data, pattern, at) {
        Some(choose|at: int| first_occurrence(data, pattern, at))
    } else {
        None
    }
}

/// How many bytes at the front of `len` bytes in which the pattern does not
/// stand can never belong to an occurrence, whatever bytes follow: all but
/// the last `pattern_len - 1`.
pub open spec fn settled(len: int, pattern_len: int) -> int {
    if pattern_len >= 1 && len >= pattern_len - 1 {
        len - (pattern_len - 1)
    } else {
        0
    }
}

/// There is at most one first occurrence.
pub proof fn lemma_first_occurrence_unique(data: Seq<u8>, pattern: Seq<u8>, a: int, b: int)
    requires
        first_occurrence(data, pattern, a),
        first_occurrence(data, pattern, b),
    ensures
        a == b,
{
}

/// Where the pattern stands anywhere up to `bound`, it has a first occurrence.
proof fn lemma_least_occurrence(data: Seq<u8>, pattern: Seq<u8>, bound: int)
    requires
        occurs_at(data, pattern, bound),
    ensures
        exists|at: int| first_occurrence(data, pattern, at),
    decreases bound,
{
    if absent_before(data, pattern, bound) {
        assert(first_occurrence(data, pattern, bound));
    } else {
        let earlier = choose|at: int| 0 <= at < bound && occurs_at(data, pattern, at);
        lemma_least_occurrence(data, pattern, earlier);
    }
}

/// `find` gives the first occurrence and nothing else.
pub proof fn lemma_find_first(data: Seq<u8>, pattern: Seq<u8>, at: int)
    ensures
        find(data, pattern) == Some(at) <==> first_occurrence(data, pattern, at),
{
    if first_occurrence(data, pattern, at) {
        let found = choose|i: int| first_occurrence(data, pattern, i);
        lemma_first_occurrence_unique(data, pattern, found, at);
    }
}

/// `find` gives `None` exactly where the pattern stands nowhere.
pub proof fn lemma_find_none(data: Seq<u8>, pattern: Seq<u8>)
    ensures
        find(data, pattern) is None <==> absent(data, pattern),
{
    if !absent(data, pattern) {
        let at = choose|at: int| occurs_at(data, pattern, at);
        lemma_least_occurrence(data, pattern, at);
    }
}

/// Bytes that arrive later do not move a first occurrence.
pub proof fn lemma_first_occurrence_extends(
    data: Seq<u8>,
    more: Seq<u8>,
    pattern: Seq<u8>,
    at: int,
)
    requires
        first_occurrence(data, pattern, at),
    ensures
        first_occurrence(data + more, pattern, at),
{
    let whole = data + more;
    assert(whole.subrange(at, at + pattern.len()) =~= data.subrange(at, at + pattern.len()));
    assert forall|i: int| 0 <= i < at implies !occurs_at(whole, pattern, i) by {
        if occurs_at(whole, pattern, i) {
            assert(i + pattern.len() <= at + pattern.len());
            assert(data.subrange(i, i + pattern.len()) =~= whole.subrange(i, i + pattern.len()));
            assert(occurs_at(data, pattern, i));
        }
    }
}

/// Where the pattern does not stand in `data`, the settled bytes of `data`
/// can be let go: the pattern stands in `data + more` exactly where it stands
/// in what is left of `data`, followed by `more`.
proof fn lemma_settled_bytes_hold_no_start(
    data: Seq<u8>,
    more: Seq<u8>,
    pattern: Seq<u8>,
    at: int,
)
    requires
        absent(data, pattern),
    ensures
        ({
            let cut = settled(data.len() as int, pattern.len() as int);
            occurs_at(data + more, pattern, at) <==> at >= cut && occurs_at(
                data.skip(cut) + more,
                pattern,
                at - cut,
            )
        }),
{
    let cut = settled(data.len() as int, pattern.len() as int);
    let whole = data + more;
    let rest = data.skip(cut) + more;
    let len = pattern.len() as int;
    if len == 0 {
        assert(data.subrange(0, 0) =~= pattern);
        assert(occurs_at(data, pattern, 0));
    }
    if occurs_at(whole, pattern, at) && at < cut {
        assert(at + len <= data.len());
        assert(data.subrange(at, at + len) =~= whole.subrange(at, at + len));
        assert(occurs_at(data, pattern, at));
    }
    if at >= cut && at + len <= whole.len() {
        assert(rest.subrange(at - cut, at - cut + len) =~= whole.subrange(at, at + len));
    }
}

/// Letting the settled bytes go moves the first occurrence by their number
/// and changes nothing else: where the pattern does not stand in `data`, its
/// first occurrence in `data + more` is its first occurrence in what is
/// left of `data`, followed by `more`.
pub proof fn lemma_find_after_settled(data: Seq<u8>, more: Seq<u8>, pattern: Seq<u8>)
    requires
        absent(data, pattern),
    ensures
        ({
            let cut = settled(data.len() as int, pattern.len() as int);
            find(data + more, pattern) == match find(data.skip(cut) + more, pattern) {
                Some(at) => Some(at + cut),
                None => None,
            }
        }),
{
    let cut = settled(data.len() as int, pattern.len() as int);
    let whole = data + more;
    let rest = data.skip(cut) + more;
    assert forall|at: int| occurs_at(whole, pattern, at) <==> at >= cut && occurs_at(
        rest,
        pattern,
        at - cut,
    ) by {
        lemma_settled_bytes_hold_no_start(data, more, pattern, at);
    }
    match find(rest, pattern) {
        Some(at) => {
            lemma_find_first(rest, pattern, at);
            assert forall|i: int| 0 <= i < at + cut implies !occurs_at(whole, pattern, i) by {
                if i >= cut {
                    assert(!occurs_at(rest, pattern, i - cut));
                }
            }
            assert(occurs_at(whole, pattern, at + cut));
            lemma_find_first(whole, pattern, at + cut);
        },
        None => {
            lemma_find_none(rest, pattern);
            assert forall|i: int| !occurs_at(whole, pattern, i) by {
                if i >= cut {
                    assert(!occurs_at(rest, pattern, i - cut));
                }
            }
            lemma_find_none(whole, pattern);
        },
    }
}

/// Tells whether `pattern` stands in `data` at index `at`.
pub fn matches_at(data: &[u8], pattern: &[u8], at: usize) -> (hit: bool)
    ensures
        hit == occurs_at(data@, pattern@, at as int),
{
    if pattern.len() > data.len() || at > data.len() - pattern.len() {
        return false;
    }
    let mut k: usize = 0;
    while k < pattern.len()
        invariant
            at + pattern.len() <= data.len(),
            k <= pattern.len(),
            forall|j: int| 0 <= j < k ==> data@[at + j] == pattern@[j],
        decreases pattern.len() - k,
    {
        if data[at + k] != pattern[k] {
            proof {
                let window = data@.subrange(at as int, at + pattern@.len());
                assert(window[k as int] == data@[at + k]);
            }
            return false;
        }
        k += 1;
    }
    assert(data@.subrange(at as int, at + pattern@.len()) =~= pattern@);
    true
}

/// Finds the first place where `pattern` stands in `data`.
pub fn search(data: &[u8], pattern: &[u8]) -> (found: Option<usize>)
    ensures
        match found {
            Some(at) => find(data@, pattern@) == Some(at as int),
            None => find(data@, pattern@) is None,
        },
{
    if pattern.len() > data.len() {
        proof {
            lemma_find_none(data@, pattern@);
        }
        return None;
    }
    let last: usize = data.len() - pattern.len();
    let mut at: usize = 0;
    while at <= last
        invariant
            last == data.len() - pattern.len(),
            at <= last + 1,
            absent_before(data@, pattern@, at as int),
        decreases last + 1 - at,
    {
        if matches_at(data, pattern, at) {
            proof {
                lemma_find_first(data@, pattern@, at as int);
            }
            return Some(at);
        }
        proof {
            if pattern@.len() == 0 {
                assert(data@.subrange(at as int, at as int) =~= pattern@);
            }
        }
        at += 1;
    }
    proof {
        lemma_find_none(data@, pattern@);
    }
    None
}

} // verus!
