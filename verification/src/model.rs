//! The mathematical model shared by the table builder and the scanner:
//! occurrences of the needle in the haystack, borders of needle prefixes,
//! and the two properties of a prefix table that the scanner's contract
//! speaks of (soundness and completeness).

use vstd::prelude::*;

verus! {

/// The needle occurs in the haystack starting at offset `p`.
pub open spec fn is_match_at(needle: Seq<u8>, haystack: Seq<u8>, p: int) -> bool {
    &&& 0 <= p
    &&& p + needle.len() <= haystack.len()
    &&& forall|j: int| 0 <= j < needle.len() ==> needle[j] == haystack[p + j]
}

/// `b` is the length of a border of `needle[0..i]`: a proper prefix of
/// `needle[0..i]` that reoccurs as a suffix of it.
pub open spec fn is_border(needle: Seq<u8>, i: int, b: int) -> bool {
    &&& 0 <= b < i <= needle.len()
    &&& forall|j: int| 0 <= j < b ==> #[trigger] needle[j] == needle[i - b + j]
}

/// How many matched bytes a table entry lets the scanner keep after a
/// mismatch: an absent entry keeps none.
pub open spec fn fallback_len(e: Option<int>) -> int {
    match e {
        Option::None => 0,
        Option::Some(l) => l,
    }
}

/// A table entry, seen as a mathematical value.
pub open spec fn opt_model(e: Option<usize>) -> Option<int> {
    match e {
        Option::None => Option::None,
        Option::Some(k) => Option::Some(k as int),
    }
}

/// An executable prefix table, seen as a sequence of mathematical entries.
pub open spec fn table_model(t: Seq<Option<usize>>) -> Seq<Option<int>> {
    t.map_values(|e: Option<usize>| opt_model(e))
}

/// Every present entry of `t` names a true border of the needle prefix it
/// belongs to, and the leading entry is absent.
pub open spec fn entries_sound(needle: Seq<u8>, t: Seq<Option<int>>) -> bool {
    &&& t.len() > 0 ==> t[0] is None
    &&& forall|i: int|
        0 <= i < t.len() ==> (#[trigger] t[i] matches Some(len) ==> is_border(needle, i, len))
}

/// A sound prefix table for `needle`: one entry per needle byte, each
/// present entry a true border. The scanner needs this much to stay in
/// bounds and to report only genuine matches.
pub open spec fn table_sound(needle: Seq<u8>, t: Seq<Option<int>>) -> bool {
    &&& t.len() == needle.len()
    &&& entries_sound(needle, t)
}

/// A complete prefix table for `needle`: every border longer than the
/// stored fallback is headed by the same byte that just mismatched, so the
/// scanner loses nothing by skipping it. With this much the scanner misses
/// no occurrence.
pub open spec fn table_complete(needle: Seq<u8>, t: Seq<Option<int>>) -> bool {
    forall|i: int, b: int|
        0 <= i < t.len() && i < needle.len() && fallback_len(t[i]) < b && #[trigger] is_border(
            needle,
            i,
            b,
        ) ==> needle[b] == needle[i]
}

/// The first offset at or after `from` where the needle occurs, or `None`
/// if there is none: the brute-force reference answer.
pub open spec fn first_match_from(needle: Seq<u8>, haystack: Seq<u8>, from: int) -> Option<int>
    decreases haystack.len() - from,
{
    if from + needle.len() > haystack.len() {
        None
    } else if is_match_at(needle, haystack, from) {
        Some(from)
    } else {
        first_match_from(needle, haystack, from + 1)
    }
}

/// The first offset where the needle occurs in the haystack, or `None`.
pub open spec fn first_match(needle: Seq<u8>, haystack: Seq<u8>) -> Option<int> {
    first_match_from(needle, haystack, 0)
}

/// `first_match_from` returns the least offset at or after `from` where
/// the needle occurs, and `None` exactly when there is no such offset.
pub proof fn lemma_first_match_from(needle: Seq<u8>, haystack: Seq<u8>, from: int)
    requires
        0 <= from,
    ensures
        first_match_from(needle, haystack, from) matches Some(q) ==> (from <= q && is_match_at(
            needle,
            haystack,
            q,
        ) && forall|p: int| from <= p < q ==> !is_match_at(needle, haystack, p)),
        first_match_from(needle, haystack, from) is None ==> forall|p: int|
            from <= p ==> !is_match_at(needle, haystack, p),
    decreases haystack.len() - from,
{
    if from + needle.len() > haystack.len() {
        assert forall|p: int| from <= p implies !is_match_at(needle, haystack, p) by {
            assert(p + needle.len() > haystack.len());
        }
    } else if is_match_at(needle, haystack, from) {
    } else {
        lemma_first_match_from(needle, haystack, from + 1);
    }
}

/// If the needle occurs at `q` and nowhere earlier, then `q` is the first
/// match.
pub proof fn lemma_first_match_of(needle: Seq<u8>, haystack: Seq<u8>, q: int)
    requires
        is_match_at(needle, haystack, q),
        forall|p: int| 0 <= p < q ==> !is_match_at(needle, haystack, p),
    ensures
        first_match(needle, haystack) == Some(q),
{
    lemma_first_match_from(needle, haystack, 0);
    match first_match_from(needle, haystack, 0) {
        Some(r) => {
            if r < q {
                assert(!is_match_at(needle, haystack, r));
            } else if r > q {
                assert(!is_match_at(needle, haystack, q));
            }
        },
        None => {
            assert(!is_match_at(needle, haystack, q));
        },
    }
}

/// If the needle occurs nowhere, the first match is absent.
pub proof fn lemma_first_match_absent(needle: Seq<u8>, haystack: Seq<u8>)
    requires
        forall|p: int| 0 <= p ==> !is_match_at(needle, haystack, p),
    ensures
        first_match(needle, haystack) is None,
{
    lemma_first_match_from(needle, haystack, 0);
    match first_match_from(needle, haystack, 0) {
        Some(q) => {
            assert(!is_match_at(needle, haystack, q));
        },
        None => {},
    }
}

/// A border of a border is a border of the longer prefix: borders nest.
pub proof fn lemma_border_trans(needle: Seq<u8>, i: int, m: int, l: int)
    requires
        is_border(needle, i, m),
        is_border(needle, m, l),
    ensures
        is_border(needle, i, l),
{
    assert forall|j: int| 0 <= j < l implies #[trigger] needle[j] == needle[i - l + j] by {
        assert(needle[j] == needle[m - l + j]);
        assert(needle[m - l + j] == needle[i - m + (m - l + j)]);
    }
}

/// Of two borders of the same prefix, the shorter is a border of the
/// longer: borders nest.
pub proof fn lemma_border_nest(needle: Seq<u8>, i: int, k: int, b: int)
    requires
        is_border(needle, i, k),
        is_border(needle, i, b),
        b < k,
    ensures
        is_border(needle, k, b),
{
    assert forall|j: int| 0 <= j < b implies #[trigger] needle[j] == needle[k - b + j] by {
        assert(needle[j] == needle[i - b + j]);
        assert(needle[k - b + j] == needle[i - k + (k - b + j)]);
    }
}

/// A nonempty border of a prefix, cut back by one byte, is a border of the
/// one-shorter prefix, and its last byte repeats that prefix's last byte.
pub proof fn lemma_border_shrink(needle: Seq<u8>, i: int, b: int)
    requires
        is_border(needle, i, b),
        1 <= b,
    ensures
        is_border(needle, i - 1, b - 1),
        needle[b - 1] == needle[i - 1],
{
    assert(needle[b - 1] == needle[i - b + (b - 1)]);
    assert forall|j: int| 0 <= j < b - 1 implies #[trigger] needle[j] == needle[(i - 1) - (b - 1)
        + j] by {
        assert(needle[j] == needle[i - b + j]);
    }
}

/// A border extends by one byte when the next needle byte repeats the byte
/// just past the border.
pub proof fn lemma_border_extend(needle: Seq<u8>, i: int, b: int)
    requires
        is_border(needle, i, b),
        i < needle.len(),
        needle[i] == needle[b],
    ensures
        is_border(needle, i + 1, b + 1),
{
    assert forall|j: int| 0 <= j < b + 1 implies #[trigger] needle[j] == needle[i + 1 - (b + 1)
        + j] by {
        if j < b {
            assert(needle[j] == needle[i - b + j]);
        }
    }
}

} // verus!
