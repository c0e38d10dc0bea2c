//! Lexicographic order on character sequences.
//!
//! The dictionary is a word list sorted ascending by character-by-character
//! comparison, where a word that is a strict prefix of another sorts before
//! it.  Everything the binary-search matcher assumes about that order is
//! stated and proved here.

use vstd::prelude::*;

verus! {

/// Lexicographic "less than or equal" on character sequences, comparing
/// code points left to right; a strict prefix sorts before its extensions.
pub open spec fn lex_le(a: Seq<char>, b: Seq<char>) -> bool
    decreases a.len(),
{
    if a.len() == 0 {
        true
    } else if b.len() == 0 {
        false
    } else if a[0] == b[0] {
        lex_le(a.skip(1), b.skip(1))
    } else {
        a[0] < b[0]
    }
}

/// `p` is a prefix of `w`.
pub open spec fn is_prefix_of(p: Seq<char>, w: Seq<char>) -> bool {
    p.len() <= w.len() && w.subrange(0, p.len() as int) == p
}

/// The word list is sorted ascending in `lex_le`.
pub open spec fn sorted_words(words: Seq<Seq<char>>) -> bool {
    forall|i: int, j: int| 0 <= i < j < words.len() ==> lex_le(words[i], words[j])
}

proof fn lemma_skip_prefix(p: Seq<char>, w: Seq<char>)
    requires
        is_prefix_of(p, w),
        p.len() > 0,
    ensures
        p[0] == w[0],
        is_prefix_of(p.skip(1), w.skip(1)),
{
    assert(w.subrange(0, p.len() as int)[0] == w[0]);
    assert(p.skip(1).len() <= w.skip(1).len());
    assert(w.skip(1).subrange(0, p.len() - 1) =~= p.skip(1)) by {
        assert forall|k: int| 0 <= k < p.len() - 1 implies w.skip(1)[k] == p.skip(1)[k] by {
            assert(w.subrange(0, p.len() as int)[k + 1] == w[k + 1]);
        }
    }
}

/// `lex_le` is transitive.
pub proof fn lemma_lex_le_trans(a: Seq<char>, b: Seq<char>, c: Seq<char>)
    requires
        lex_le(a, b),
        lex_le(b, c),
    ensures
        lex_le(a, c),
    decreases a.len(),
{
    if a.len() > 0 {
        if a[0] == b[0] && b[0] == c[0] {
            lemma_lex_le_trans(a.skip(1), b.skip(1), c.skip(1));
        }
    }
}

/// A strict prefix sorts strictly before the word it begins.
pub proof fn lemma_strict_prefix_lt(p: Seq<char>, w: Seq<char>)
    requires
        is_prefix_of(p, w),
        p.len() < w.len(),
    ensures
        lex_le(p, w),
        !lex_le(w, p),
    decreases p.len(),
{
    if p.len() > 0 {
        lemma_skip_prefix(p, w);
        lemma_strict_prefix_lt(p.skip(1), w.skip(1));
    }
}

/// Two words sharing their first `k` characters compare, under `lex_le`,
/// by what stands at position `k`: if the first still has a character
/// there, so does the second, and the characters are ordered.
pub proof fn lemma_common_prefix_next_char(a: Seq<char>, b: Seq<char>, k: int)
    requires
        lex_le(a, b),
        0 <= k,
        a.len() >= k,
        b.len() >= k,
        a.subrange(0, k) == b.subrange(0, k),
        a.len() > k,
    ensures
        b.len() > k,
        a[k] == b[k] || a[k] < b[k],
    decreases k,
{
    if k == 0 {
        assert(b.len() > 0);
    } else {
        assert(a[0] == b[0]) by {
            assert(a.subrange(0, k)[0] == a[0]);
            assert(b.subrange(0, k)[0] == b[0]);
        }
        assert(lex_le(a.skip(1), b.skip(1)));
        assert(a.skip(1).subrange(0, k - 1) =~= b.skip(1).subrange(0, k - 1)) by {
            assert forall|m: int| 0 <= m < k - 1 implies #[trigger] a.skip(1)[m] == b.skip(1)[m] by {
                assert(a.subrange(0, k)[m + 1] == a[m + 1]);
                assert(b.subrange(0, k)[m + 1] == b[m + 1]);
            }
        }
        lemma_common_prefix_next_char(a.skip(1), b.skip(1), k - 1);
        assert(a.skip(1)[k - 1] == a[k]);
        assert(b.skip(1)[k - 1] == b[k]);
    }
}


/// Every sequence is a prefix of itself.
pub proof fn lemma_prefix_refl(w: Seq<char>)
    ensures
        is_prefix_of(w, w),
{
    assert(w.subrange(0, w.len() as int) =~= w);
}

/// Extending a prefix by one character: `p.push(ch)` begins `w` exactly
/// when `p` begins `w` and `ch` stands right after it.
pub proof fn lemma_prefix_push(p: Seq<char>, ch: char, w: Seq<char>)
    ensures
        is_prefix_of(p.push(ch), w) <==> (w.len() > p.len() && is_prefix_of(p, w) && w[p.len() as int] == ch),
{
    if is_prefix_of(p.push(ch), w) {
        assert(w.subrange(0, p.len() as int + 1) == p.push(ch));
        assert(w.subrange(0, p.len() as int) =~= p) by {
            assert forall|k: int| 0 <= k < p.len() implies w[k] == p[k] by {
                assert(w.subrange(0, p.len() as int + 1)[k] == w[k]);
                assert(p.push(ch)[k] == p[k]);
            }
        }
        assert(w.subrange(0, p.len() as int + 1)[p.len() as int] == w[p.len() as int]);
        assert(p.push(ch)[p.len() as int] == ch);
    }
    if w.len() > p.len() && is_prefix_of(p, w) && w[p.len() as int] == ch {
        assert(w.subrange(0, p.len() as int + 1) =~= p.push(ch)) by {
            assert forall|k: int| 0 <= k < p.len() as int + 1 implies w.subrange(0, p.len() as int + 1)[k]
                == p.push(ch)[k] by {
                if k < p.len() {
                    assert(w.subrange(0, p.len() as int)[k] == w[k]);
                }
            }
        }
    }
}

/// A prefix of a prefix: dropping the last character keeps it a prefix.
pub proof fn lemma_prefix_unpush(p: Seq<char>, ch: char, w: Seq<char>)
    requires
        is_prefix_of(p.push(ch), w),
    ensures
        is_prefix_of(p, w),
{
    lemma_prefix_push(p, ch, w);
}

} // verus!

