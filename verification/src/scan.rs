//! The scanner: runs the needle along the haystack, never re-reading a
//! consumed haystack byte, and reports the first occurrence.

use vstd::prelude::*;

use crate::model::fallback_len;
use crate::model::first_match;
use crate::model::is_border;
use crate::model::is_match_at;
use crate::model::lemma_first_match_absent;
use crate::model::lemma_first_match_of;
use crate::model::opt_model;
use crate::model::table_complete;
use crate::model::table_model;
use crate::model::table_sound;
use crate::table::lemma_table_correct_implications;
use crate::table::table_correct;
use crate::table::PrefixTable;

verus! {

/// The scanner's transition system, run to completion from the state where
/// the candidate alignment starts at haystack offset `s` and the first `i`
/// needle bytes have already matched there.
///
/// On a mismatch a present table entry keeps that many matched bytes and
/// advances the alignment by the rest; an absent entry restarts, advancing
/// by at least one byte.
pub open spec fn scan_from(
    needle: Seq<u8>,
    t: Seq<Option<int>>,
    haystack: Seq<u8>,
    s: int,
    i: int,
) -> Option<int>
    decreases haystack.len() - s, needle.len() - i,
        when table_sound(needle, t) && 0 <= i <= needle.len() && 0 <= s && s + i <= haystack.len()
{
    if i >= needle.len() {
        Some(s)
    } else if s + i >= haystack.len() {
        None
    } else if needle[i] == haystack[s + i] {
        scan_from(needle, t, haystack, s, i + 1)
    } else {
        match t[i] {
            None => scan_from(
                needle,
                t,
                haystack,
                if i == 0 {
                    s + 1
                } else {
                    s + i
                },
                0,
            ),
            Some(l) => scan_from(needle, t, haystack, s + i - l, l),
        }
    }
}

/// After a mismatch at needle offset `i` of an alignment whose first `i`
/// bytes matched, no occurrence can begin strictly between the alignment
/// and the one the table entry advances to: any such occurrence would make
/// the skipped distance a border longer than the stored fallback, and a
/// complete table guarantees that border's next byte equals the needle
/// byte that just failed to match.
proof fn lemma_no_match_in_skip(
    needle: Seq<u8>,
    t: Seq<Option<int>>,
    haystack: Seq<u8>,
    s: int,
    i: int,
    p: int,
)
    requires
        table_sound(needle, t),
        table_complete(needle, t),
        0 <= i < needle.len(),
        0 <= s,
        s + i < haystack.len(),
        forall|j: int| 0 <= j < i ==> needle[j] == haystack[s + j],
        needle[i] != haystack[s + i],
        s <= p,
        p == s || p - s < i - fallback_len(t[i]),
    ensures
        !is_match_at(needle, haystack, p),
{
    let d = p - s;
    if is_match_at(needle, haystack, p) {
        if d == 0 {
            assert(needle[i] == haystack[p + i]);
        } else {
            let b = i - d;
            assert(is_border(needle, i, b)) by {
                assert forall|j: int| 0 <= j < b implies #[trigger] needle[j] == needle[i - b
                    + j] by {
                    assert(needle[j] == haystack[p + j]);
                    assert(needle[d + j] == haystack[s + (d + j)]);
                }
            }
            assert(needle[b] == needle[i]);
            assert(needle[b] == haystack[p + b]);
        }
    }
}

/// Run from a state whose matched prefix is genuine and whose earlier
/// alignments are all ruled out, the scanner with a sound and complete
/// table returns exactly the first occurrence of the needle.
proof fn lemma_scan_from_finds_first(
    needle: Seq<u8>,
    t: Seq<Option<int>>,
    haystack: Seq<u8>,
    s: int,
    i: int,
)
    requires
        table_sound(needle, t),
        table_complete(needle, t),
        0 <= i <= needle.len(),
        0 <= s,
        s + i <= haystack.len(),
        forall|j: int| 0 <= j < i ==> needle[j] == haystack[s + j],
        forall|p: int| 0 <= p < s ==> !is_match_at(needle, haystack, p),
    ensures
        scan_from(needle, t, haystack, s, i) matches Some(q) ==> (is_match_at(needle, haystack, q)
            && forall|p: int| 0 <= p < q ==> !is_match_at(needle, haystack, p)),
        scan_from(needle, t, haystack, s, i) is None ==> forall|p: int|
            0 <= p ==> !is_match_at(needle, haystack, p),
    decreases haystack.len() - s, needle.len() - i,
{
    if i >= needle.len() {
        assert(is_match_at(needle, haystack, s));
    } else if s + i >= haystack.len() {
        assert forall|p: int| 0 <= p implies !is_match_at(needle, haystack, p) by {
            if p >= s {
                assert(p + needle.len() > haystack.len());
            }
        }
    } else if needle[i] == haystack[s + i] {
        lemma_scan_from_finds_first(needle, t, haystack, s, i + 1);
    } else {
        let f = fallback_len(t[i]);
        let s2 = s + i - f;
        assert forall|p: int| s <= p < s2 implies !is_match_at(needle, haystack, p) by {
            lemma_no_match_in_skip(needle, t, haystack, s, i, p);
        }
        match t[i] {
            None => {
                let s3 = if i == 0 {
                    s + 1
                } else {
                    s + i
                };
                assert(!is_match_at(needle, haystack, s)) by {
                    lemma_no_match_in_skip(needle, t, haystack, s, i, s);
                }
                lemma_scan_from_finds_first(needle, t, haystack, s3, 0);
            },
            Some(l) => {
                assert(is_border(needle, i, l));
                assert forall|j: int| 0 <= j < l implies needle[j] == haystack[s2 + j] by {
                    assert(needle[j] == needle[i - l + j]);
                    assert(needle[i - l + j] == haystack[s + (i - l + j)]);
                }
                lemma_scan_from_finds_first(needle, t, haystack, s2, l);
            },
        }
    }
}

/// Whenever the table is sound and complete for the needle, the scanner's
/// transition system agrees with the brute-force first match, for every
/// haystack.
pub proof fn lemma_scan_equals_first_match(needle: Seq<u8>, t: Seq<Option<int>>, haystack: Seq<u8>)
    requires
        table_sound(needle, t),
        table_complete(needle, t),
    ensures
        scan_from(needle, t, haystack, 0, 0) == first_match(needle, haystack),
{
    lemma_scan_from_finds_first(needle, t, haystack, 0, 0);
    match scan_from(needle, t, haystack, 0, 0) {
        Some(q) => {
            lemma_first_match_of(needle, haystack, q);
        },
        None => {
            lemma_first_match_absent(needle, haystack);
        },
    }
}

/// With the longest-border table that [`prepare`] builds for the needle,
/// the scanner agrees with the brute-force first match on every needle and
/// every haystack.
///
/// [`prepare`]: crate::prepare
pub proof fn lemma_prepared_scan_equals_first_match(
    needle: Seq<u8>,
    t: Seq<Option<int>>,
    haystack: Seq<u8>,
)
    requires
        table_correct(needle, t),
    ensures
        scan_from(needle, t, haystack, 0, 0) == first_match(needle, haystack),
{
    lemma_table_correct_implications(needle, t);
    lemma_scan_equals_first_match(needle, t, haystack);
}

/// Returns the first offset at which `needle` occurs in `haystack`, or
/// `None` when it does not occur, scanning with the prefix table built for
/// `needle`.
///
/// The table must be sound for the needle ([`table_sound`]); the result is
/// then the value of the transition system [`scan_from`], and any reported
/// offset is a genuine occurrence. An empty needle matches at offset 0 of
/// any haystack. When the table is moreover complete for the needle
/// ([`table_complete`]) — as every table [`prepare`] builds is — the
/// result is exactly the brute-force first match: the least occurrence,
/// and `None` only when no occurrence exists.
///
/// [`prepare`]: crate::prepare
pub fn search(needle: &[u8], prefix_table: &PrefixTable, haystack: &[u8]) -> (result: Option<
    usize,
>)
    requires
        table_sound(needle@, table_model(prefix_table@)),
    ensures
        opt_model(result) == scan_from(needle@, table_model(prefix_table@), haystack@, 0, 0),
        result matches Some(pos) ==> is_match_at(needle@, haystack@, pos as int),
        needle@.len() == 0 ==> result == Some(0usize),
        table_complete(needle@, table_model(prefix_table@)) ==> opt_model(result) == first_match(
            needle@,
            haystack@,
        ),
        table_complete(needle@, table_model(prefix_table@)) ==> (result matches Some(pos)
            ==> forall|p: int| 0 <= p < pos as int ==> !is_match_at(needle@, haystack@, p)),
        table_complete(needle@, table_model(prefix_table@)) ==> (result is None ==> forall|p: int|
            0 <= p ==> !is_match_at(needle@, haystack@, p)),
{
    let ghost t = table_model(prefix_table@);

    // An empty needle matches at the start of any haystack; the explicit
    // check is the documented behavior, not an accident of loop structure.
    if needle.len() == 0 {
        proof {
            assert(scan_from(needle@, t, haystack@, 0, 0) == Some(0int));
            if table_complete(needle@, t) {
                lemma_scan_equals_first_match(needle@, t, haystack@);
            }
        }
        return Some(0);
    }

    let needle_len = needle.len();
    let haystack_len = haystack.len();
    let mut s: usize = 0;
    let mut i: usize = 0;
    loop
        invariant
            table_sound(needle@, t),
            t == table_model(prefix_table@),
            needle_len == needle@.len(),
            haystack_len == haystack@.len(),
            needle@.len() > 0,
            i <= needle@.len(),
            s + i <= haystack@.len(),
            forall|j: int| 0 <= j < i ==> needle@[j] == haystack@[s + j],
            scan_from(needle@, t, haystack@, s as int, i as int) == scan_from(
                needle@,
                t,
                haystack@,
                0,
                0,
            ),
        decreases haystack@.len() - s, needle@.len() - i,
    {
        if i >= needle_len {
            proof {
                if table_complete(needle@, t) {
                    lemma_scan_equals_first_match(needle@, t, haystack@);
                    lemma_scan_from_finds_first(needle@, t, haystack@, 0, 0);
                }
            }
            return Some(s);
        }
        if s + i >= haystack_len {
            proof {
                if table_complete(needle@, t) {
                    lemma_scan_equals_first_match(needle@, t, haystack@);
                    lemma_scan_from_finds_first(needle@, t, haystack@, 0, 0);
                }
            }
            return None;
        }
        if needle[i] == haystack[s + i] {
            i = i + 1;
        } else {
            match prefix_table[i] {
                None => {
                    // No part of the current partial match is reusable;
                    // advance the alignment past it, by at least one byte.
                    s = s + (if i == 0 {
                        1
                    } else {
                        i
                    });
                    i = 0;
                },
                Some(prefix_len) => {
                    proof {
                        assert(t[i as int] == opt_model(prefix_table@[i as int]));
                        assert(is_border(needle@, i as int, prefix_len as int));
                        assert forall|j: int|
                            0 <= j < prefix_len implies needle@[j] == haystack@[(s + i
                            - prefix_len) + j] by {
                            assert(needle@[j] == needle@[i - prefix_len + j]);
                            assert(needle@[i - prefix_len + j] == haystack@[s + (i - prefix_len
                                + j)]);
                        }
                    }
                    // Keep the matched bytes that form the stored border;
                    // the haystack is not re-scanned.
                    s = s + (i - prefix_len);
                    i = prefix_len;
                },
            }
        }
    }
}

} // verus!
