//! The table builder: one left-to-right pass over the needle that emits,
//! for each position, the longest border of the needle prefix ending
//! there — how many matched bytes the scanner may keep after a mismatch
//! at that position.

use vstd::prelude::*;

use crate::model::fallback_len;
use crate::model::is_border;
use crate::model::lemma_border_extend;
use crate::model::lemma_border_nest;
use crate::model::lemma_border_shrink;
use crate::model::lemma_border_trans;
use crate::model::opt_model;
use crate::model::table_complete;
use crate::model::table_model;
use crate::model::table_sound;

verus! {

/// A prefix table: one optional fallback length per needle byte.
pub type PrefixTable = Vec<Option<usize>>;

/// The entry for position `i` records exactly the longest border of
/// `needle[0..i]`: a present entry is that border's nonzero length, an
/// absent entry says only the empty border exists. (For `i == 0` no border
/// exists at all, so the entry must be absent.)
pub open spec fn entry_is_longest_border(needle: Seq<u8>, i: int, e: Option<int>) -> bool {
    match e {
        Option::None => forall|b: int| 0 < b ==> !(#[trigger] is_border(needle, i, b)),
        Option::Some(l) => 0 < l && is_border(needle, i, l) && forall|b: int|
            l < b ==> !(#[trigger] is_border(needle, i, b)),
    }
}

/// The whole table records, position by position, the longest border of
/// each needle prefix. This pins the table uniquely
/// ([`lemma_table_correct_unique`]), and makes it both sound and complete
/// ([`lemma_table_correct_implications`]).
pub open spec fn table_correct(needle: Seq<u8>, t: Seq<Option<int>>) -> bool {
    &&& t.len() == needle.len()
    &&& forall|i: int| 0 <= i < t.len() ==> entry_is_longest_border(needle, i, #[trigger] t[i])
}

/// A longest-border table is sound, and complete: no border longer than a
/// stored fallback exists at all, so none is ever skipped unsafely.
pub proof fn lemma_table_correct_implications(needle: Seq<u8>, t: Seq<Option<int>>)
    requires
        table_correct(needle, t),
    ensures
        table_sound(needle, t),
        table_complete(needle, t),
{
    if t.len() > 0 {
        assert(entry_is_longest_border(needle, 0, t[0]));
        match t[0] {
            Option::Some(l) => {
                assert(!is_border(needle, 0, l));
            },
            Option::None => {},
        }
    }
    assert forall|i: int, b: int|
        0 <= i < t.len() && i < needle.len() && fallback_len(t[i]) < b && #[trigger] is_border(
            needle,
            i,
            b,
        ) implies needle[b] == needle[i] by {
        assert(entry_is_longest_border(needle, i, t[i]));
        assert(!is_border(needle, i, b));
    }
}

/// The longest border of each prefix is unique, so only one table is
/// correct for a given needle: the builder is deterministic by contract.
pub proof fn lemma_table_correct_unique(needle: Seq<u8>, t1: Seq<Option<int>>, t2: Seq<
    Option<int>,
>)
    requires
        table_correct(needle, t1),
        table_correct(needle, t2),
    ensures
        t1 == t2,
{
    assert forall|i: int| 0 <= i < t1.len() implies t1[i] == t2[i] by {
        assert(entry_is_longest_border(needle, i, t1[i]));
        assert(entry_is_longest_border(needle, i, t2[i]));
        match (t1[i], t2[i]) {
            (Option::Some(l1), Option::Some(l2)) => {
                if l1 < l2 {
                    assert(!is_border(needle, i, l2));
                } else if l2 < l1 {
                    assert(!is_border(needle, i, l1));
                }
            },
            (Option::Some(l1), Option::None) => {
                assert(!is_border(needle, i, l1));
            },
            (Option::None, Option::Some(l2)) => {
                assert(!is_border(needle, i, l2));
            },
            (Option::None, Option::None) => {},
        }
    }
    assert(t1 =~= t2);
}

/// Builds the prefix table for `needle` in a single left-to-right pass.
///
/// The result has one entry per needle byte, and each entry records the
/// longest border of the needle prefix ending at its position
/// ([`table_correct`]): the table is sound and complete, so [`search`]
/// with it returns exactly the brute-force first match on every haystack.
///
/// [`search`]: crate::search
pub fn prepare(needle: &[u8]) -> (table: PrefixTable)
    ensures
        table@.len() == needle@.len(),
        table_correct(needle@, table_model(table@)),
        table_sound(needle@, table_model(table@)),
        table_complete(needle@, table_model(table@)),
{
    let mut prefix_len: Option<usize> = None;
    let mut prefix_table: PrefixTable = Vec::new();

    if needle.len() == 0 {
        proof {
            assert(table_model(prefix_table@) =~= Seq::<Option<int>>::empty());
            lemma_table_correct_implications(needle@, table_model(prefix_table@));
        }
        return prefix_table;
    }

    // Don't try to match from the beginning: a mismatch on the very first
    // byte offers no fallback.
    prefix_table.push(None);

    let needle_len = needle.len();
    for i in 1..needle_len
        invariant
            needle_len == needle@.len(),
            1 <= i <= needle@.len(),
            prefix_table@.len() == i,
            forall|j: int|
                0 <= j < i ==> entry_is_longest_border(
                    needle@,
                    j,
                    #[trigger] table_model(prefix_table@)[j],
                ),
            entry_is_longest_border(needle@, i as int, opt_model(prefix_len)),
    {
        let ghost prior = prefix_table@;

        // Emit the running value as the entry for position i.
        prefix_table.push(prefix_len);

        proof {
            assert(table_model(prefix_table@) =~= table_model(prior).push(opt_model(prefix_len)));
        }

        // Walk the border chain of needle[0..i] downward until the next
        // needle byte extends a border, or the chain bottoms out.
        let mut fallback: usize = match prefix_len {
            None => 0,
            Some(k) => k,
        };
        while fallback > 0 && needle[i] != needle[fallback]
            invariant
                needle_len == needle@.len(),
                1 <= i < needle@.len(),
                fallback < i,
                prefix_table@.len() == i + 1,
                forall|j: int|
                    0 <= j <= i ==> entry_is_longest_border(
                        needle@,
                        j,
                        #[trigger] table_model(prefix_table@)[j],
                    ),
                is_border(needle@, i as int, fallback as int),
                forall|c: int|
                    fallback < c && #[trigger] is_border(needle@, i as int, c) ==> needle@[c]
                        != needle@[i as int],
            decreases fallback,
        {
            let ghost prior_fallback = fallback as int;
            fallback = match prefix_table[fallback] {
                None => 0,
                Some(l) => l,
            };
            proof {
                assert(table_model(prefix_table@)[prior_fallback] == opt_model(
                    prefix_table@[prior_fallback],
                ));
                assert(entry_is_longest_border(
                    needle@,
                    prior_fallback,
                    table_model(prefix_table@)[prior_fallback],
                ));
                if fallback > 0 {
                    lemma_border_trans(needle@, i as int, prior_fallback, fallback as int);
                }
                assert forall|c: int|
                    fallback < c && #[trigger] is_border(needle@, i as int, c) implies needle@[c]
                    != needle@[i as int] by {
                    if c < prior_fallback {
                        lemma_border_nest(needle@, i as int, prior_fallback, c);
                        assert(!is_border(needle@, prior_fallback, c));
                    }
                }
            }
        }

        prefix_len = if needle[i] == needle[fallback] {
            // The chain stopped at a border the next byte extends; that
            // extension is the longest border of needle[0..i+1].
            proof {
                lemma_border_extend(needle@, i as int, fallback as int);
                assert forall|b: int|
                    fallback + 1 < b implies !(#[trigger] is_border(needle@, i + 1, b)) by {
                    if is_border(needle@, i + 1, b) {
                        lemma_border_shrink(needle@, i + 1, b);
                    }
                }
            }
            Some(fallback + 1)
        } else {
            // The chain bottomed out and not even the first needle byte
            // matches: needle[0..i+1] has only the empty border.
            proof {
                assert forall|b: int| 0 < b implies !(#[trigger] is_border(needle@, i + 1, b)) by {
                    if is_border(needle@, i + 1, b) {
                        lemma_border_shrink(needle@, i + 1, b);
                    }
                }
            }
            None
        };
    }

    proof {
        lemma_table_correct_implications(needle@, table_model(prefix_table@));
    }
    prefix_table
}

} // verus!
