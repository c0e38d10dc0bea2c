//! The match accumulator: one live, in-progress dictionary match.
//!
//! An accumulator bounds, by a pair of indices into the sorted word list,
//! every word still consistent with the characters matched so far, and
//! advances one character at a time by narrowing that range with two
//! binary searches.  `is_final` reports that the characters matched so
//! far are themselves a complete dictionary word.

use vstd::prelude::*;

use crate::dict::{key_eq, key_le_at, lemma_range_key_monotone, range_uniform, Dict, Policy};
use crate::lexord::{
    is_prefix_of, lemma_prefix_push, lemma_prefix_refl, lemma_prefix_unpush,
    lemma_strict_prefix_lt, lex_le, sorted_words,
};

verus! {

/// A live partial match: `[l, r]` bounds the words consistent with the
/// `offset` characters matched so far.
pub struct DictAcc {
    pub l: usize,
    pub r: usize,
    pub offset: usize,
    pub is_final: bool,
}

/// The characters this accumulator has matched so far: every word of its
/// range starts with them, so the word at its low bound does in particular.
pub open spec fn consumed(words: Seq<Seq<char>>, acc: DictAcc) -> Seq<char> {
    words[acc.l as int].subrange(0, acc.offset as int)
}

/// The accumulator bounds exactly the words beginning with the matched
/// characters, and `is_final` only ever stands on a complete word.
pub open spec fn acc_wf(words: Seq<Seq<char>>, acc: DictAcc) -> bool {
    &&& acc.l <= acc.r < words.len()
    &&& acc.offset <= words[acc.l as int].len()
    &&& forall|m: int|
        acc.l <= m <= acc.r ==> is_prefix_of(consumed(words, acc), #[trigger] words[m])
    &&& forall|m: int|
        0 <= m < words.len() && is_prefix_of(consumed(words, acc), #[trigger] words[m])
            ==> acc.l <= m <= acc.r
    &&& (acc.is_final ==> words[acc.l as int].len() == acc.offset)
}

/// An accumulator's range is uniform in the sense the binary search needs.
pub proof fn lemma_acc_range_uniform(words: Seq<Seq<char>>, acc: DictAcc)
    requires
        acc_wf(words, acc),
    ensures
        range_uniform(words, acc.l as int, acc.r as int, acc.offset as int),
{
    let p = consumed(words, acc);
    assert forall|m: int| acc.l <= m <= acc.r implies (#[trigger] words[m]).len() >= acc.offset
        && words[m].subrange(0, acc.offset as int) == words[acc.l as int].subrange(
        0,
        acc.offset as int,
    ) by {
        assert(is_prefix_of(p, words[m]));
    }
}

/// A fresh accumulator spanning the whole word list is well formed.
pub proof fn lemma_fresh_acc_wf(words: Seq<Seq<char>>, r: usize)
    requires
        words.len() >= 1,
        r as int == words.len() - 1,
    ensures
        acc_wf(words, DictAcc { l: 0, r, offset: 0, is_final: false }),
{
    let acc = DictAcc { l: 0, r, offset: 0, is_final: false };
    let p = consumed(words, acc);
    assert(p =~= Seq::<char>::empty());
    assert forall|m: int| 0 <= m < words.len() implies is_prefix_of(p, #[trigger] words[m]) by {
        assert(words[m].subrange(0, 0) =~= p);
    }
}

impl DictAcc {
    /// Seeds a fresh accumulator spanning `[l, r]` with nothing matched yet.
    pub fn new(l: usize, r: usize) -> (acc: DictAcc)
        ensures
            acc == (DictAcc { l, r, offset: 0, is_final: false }),
    {
        DictAcc { l, r, offset: 0, is_final: false }
    }

    /// Feeds one character: narrows the range to the words whose next
    /// character is `ch`.  Returns `None` exactly when no word continues
    /// the match; otherwise the new accumulator again bounds exactly the
    /// continuing words, and its `is_final` holds exactly when the matched
    /// characters are a word of the dictionary.
    pub fn transit(&self, ch: char, dict: &Dict) -> (res: Option<DictAcc>)
        requires
            dict.wf(),
            acc_wf(dict@, *self),
            self.offset < usize::MAX,
        ensures
            match res {
                Some(a) => {
                    &&& acc_wf(dict@, a)
                    &&& a.offset == self.offset + 1
                    &&& consumed(dict@, a) == consumed(dict@, *self).push(ch)
                    &&& (a.is_final <==> dict@.contains(consumed(dict@, *self).push(ch)))
                },
                None => forall|m: int|
                    0 <= m < dict@.len() ==> !is_prefix_of(
                        consumed(dict@, *self).push(ch),
                        #[trigger] dict@[m],
                    ),
            },
            res is Some <==> exists|m: int|
                0 <= m < dict@.len() && is_prefix_of(
                    consumed(dict@, *self).push(ch),
                    #[trigger] dict@[m],
                ),
    {
        let ghost words = dict@;
        let ghost p = consumed(words, *self);
        let ghost pp = p.push(ch);
        let ghost off = self.offset as int;
        proof {
            lemma_acc_range_uniform(words, *self);
            lemma_range_key_monotone(words, self.l as int, self.r as int, off);
        }
        let first = dict.seek(Policy::Left, self.l, self.r, self.offset, ch);
        match first {
            None => {
                proof {
                    assert forall|m: int| 0 <= m < words.len() implies !is_prefix_of(
                        pp,
                        #[trigger] words[m],
                    ) by {
                        if is_prefix_of(pp, words[m]) {
                            lemma_prefix_unpush(p, ch, words[m]);
                            lemma_prefix_push(p, ch, words[m]);
                            assert(self.l <= m <= self.r);
                            assert(key_eq(words, off, m, ch));
                        }
                    }
                }
                None
            },
            Some(l2) => {
                let second = dict.seek(Policy::Right, self.l, self.r, self.offset, ch);
                match second {
                    None => {
                        proof {
                            assert(false);
                        }
                        None
                    },
                    Some(r2) => {
                        proof {
                            if r2 < l2 {
                                assert(!key_eq(words, off, l2 as int, ch));
                                assert(false);
                            }
                        }
                        let off2 = self.offset + 1;
                        let fin = dict.is_final(off2, l2);
                        let a = DictAcc { l: l2, r: r2, offset: off2, is_final: fin };
                        proof {
                            lemma_transit_result(words, *self, a, ch);
                        }
                        Some(a)
                    },
                }
            },
        }
    }
}

/// The range `[l2, r2]` returned by the two boundary searches bounds
/// exactly the words continuing the match, and a complete word of the new
/// length sits at its low end if the matched characters are in the
/// dictionary at all.
proof fn lemma_transit_result(words: Seq<Seq<char>>, acc: DictAcc, a: DictAcc, ch: char)
    requires
        sorted_words(words),
        acc_wf(words, acc),
        acc.offset < usize::MAX,
        a.offset == acc.offset + 1,
        a.is_final == (words[a.l as int].len() == a.offset),
        acc.l <= a.l <= a.r <= acc.r,
        key_eq(words, acc.offset as int, a.l as int, ch),
        key_eq(words, acc.offset as int, a.r as int, ch),
        forall|j: int| acc.l <= j < a.l ==> !key_eq(words, acc.offset as int, j, ch),
        forall|j: int| a.r < j <= acc.r ==> !key_eq(words, acc.offset as int, j, ch),
    ensures
        acc_wf(words, a),
        consumed(words, a) == consumed(words, acc).push(ch),
        a.is_final <==> words.contains(consumed(words, acc).push(ch)),
{
    let p = consumed(words, acc);
    let pp = p.push(ch);
    let off = acc.offset as int;
    lemma_acc_range_uniform(words, acc);
    lemma_range_key_monotone(words, acc.l as int, acc.r as int, off);

    // every word between the two boundaries matches `ch` at `off`
    assert forall|m: int| a.l <= m <= a.r implies key_eq(words, off, m, ch) by {
        assert(key_le_at(words, off, a.l as int, m));
        assert(key_le_at(words, off, m, a.r as int));
    }

    // the new consumed characters are the old ones plus `ch`
    assert(is_prefix_of(p, words[a.l as int]));
    lemma_prefix_push(p, ch, words[a.l as int]);
    assert(is_prefix_of(pp, words[a.l as int]));
    assert(consumed(words, a) == words[a.l as int].subrange(0, off + 1));
    assert(consumed(words, a) == pp);

    // soundness: everything in the new range continues the match
    assert forall|m: int| a.l <= m <= a.r implies is_prefix_of(pp, #[trigger] words[m]) by {
        assert(key_eq(words, off, m, ch));
        assert(is_prefix_of(p, words[m]));
        lemma_prefix_push(p, ch, words[m]);
    }

    // completeness: everything continuing the match is in the new range
    assert forall|m: int|
        0 <= m < words.len() && is_prefix_of(pp, #[trigger] words[m]) implies a.l <= m
        <= a.r by {
        lemma_prefix_unpush(p, ch, words[m]);
        assert(acc.l <= m <= acc.r);
        lemma_prefix_push(p, ch, words[m]);
        assert(key_eq(words, off, m, ch));
    }

    // a complete word, if the dictionary holds one, sits at the low bound
    if a.is_final {
        assert(words[a.l as int] =~= pp);
        assert(words.contains(pp));
    }
    if words.contains(pp) {
        let m = choose|m: int| 0 <= m < words.len() && words[m] == pp;
        lemma_prefix_refl(pp);
        assert(is_prefix_of(pp, words[m]));
        assert(a.l <= m <= a.r);
        if words[a.l as int].len() > a.offset {
            lemma_strict_prefix_lt(pp, words[a.l as int]);
            if a.l < m {
                assert(lex_le(words[a.l as int], words[m]));
            }
            assert(false);
        }
        assert(words[a.l as int].len() == a.offset);
    }
}

} // verus!
