//! The lexicon: an immutable, pre-sorted word list queried by binary search.
//!
//! `seek` narrows a sub-range of the sorted list to the words whose
//! character at a given offset equals a target character.  Words shorter
//! than `offset + 1` characters sort strictly before any word that still
//! has a character there, so a fully matched short word never blocks
//! longer words sharing its prefix.

use vstd::prelude::*;

use crate::lexord::{lemma_common_prefix_next_char, lemma_lex_le_trans, lex_le, sorted_words};

verus! {

/// Which boundary of the matching run `seek` returns.
pub enum Policy {
    Left,
    Right,
}

/// A dictionary: a word list sorted ascending in `lex_le`.
pub struct Dict {
    wlst: Vec<Vec<char>>,
}

/// Word `m` sorts before every word whose character at `offset` is `ch`:
/// it is too short to have a character there, or that character is smaller.
pub open spec fn key_lt(words: Seq<Seq<char>>, off: int, m: int, ch: char) -> bool {
    words[m].len() <= off || words[m][off] < ch
}

/// Word `m` has character `ch` at position `offset`.
pub open spec fn key_eq(words: Seq<Seq<char>>, off: int, m: int, ch: char) -> bool {
    words[m].len() > off && words[m][off] == ch
}

/// Word `m` sorts after every word whose character at `offset` is `ch`.
pub open spec fn key_gt(words: Seq<Seq<char>>, off: int, m: int, ch: char) -> bool {
    words[m].len() > off && words[m][off] > ch
}

/// Between two words of a range sharing their first `off` characters,
/// the search key (short-word-first, then the character at `off`) cannot
/// decrease.
pub open spec fn key_le_at(words: Seq<Seq<char>>, off: int, i: int, j: int) -> bool {
    words[i].len() <= off || (words[j].len() > off && (words[i][off] == words[j][off]
        || words[i][off] < words[j][off]))
}

/// All words of `[l, r]` are at least `off` characters long and agree on
/// their first `off` characters.
pub open spec fn range_uniform(words: Seq<Seq<char>>, l: int, r: int, off: int) -> bool {
    forall|m: int|
        l <= m <= r ==> (#[trigger] words[m]).len() >= off && words[m].subrange(0, off)
            == words[l].subrange(0, off)
}

/// Over a uniform range of a sorted word list the search key is monotone.
pub proof fn lemma_range_key_monotone(words: Seq<Seq<char>>, l: int, r: int, off: int)
    requires
        sorted_words(words),
        0 <= l <= r < words.len(),
        0 <= off,
        range_uniform(words, l, r, off),
    ensures
        forall|i: int, j: int| l <= i <= j <= r ==> #[trigger] key_le_at(words, off, i, j),
{
    assert forall|i: int, j: int| l <= i <= j <= r implies #[trigger] key_le_at(
        words,
        off,
        i,
        j,
    ) by {
        if i < j && words[i].len() > off {
            assert(words[i].subrange(0, off) == words[j].subrange(0, off));
            lemma_common_prefix_next_char(words[i], words[j], off);
        }
    }
}

impl View for Dict {
    type V = Seq<Seq<char>>;

    closed spec fn view(&self) -> Seq<Seq<char>> {
        Seq::new(self.wlst@.len() as nat, |i: int| self.wlst@[i]@)
    }
}

impl Dict {
    /// The word list is sorted as every lookup assumes.
    pub open spec fn wf(&self) -> bool {
        sorted_words(self@)
    }

    /// Builds a dictionary from an already sorted word list.
    pub fn new(wlst: Vec<Vec<char>>) -> (d: Dict)
        ensures
            d@.len() == wlst@.len(),
            forall|i: int| 0 <= i < wlst@.len() ==> d@[i] == #[trigger] wlst@[i]@,
    {
        Dict { wlst }
    }

    /// Checks that the word list is sorted; segmentation relies on it.
    pub fn is_sorted(&self) -> (res: bool)
        ensures
            res == self.wf(),
    {
        let n = self.wlst.len();
        let mut i: usize = 1;
        while i < n
            invariant
                1 <= i,
                n == self@.len(),
                i <= n || n == 0,
                forall|x: int, y: int| 0 <= x < y < i ==> lex_le(self@[x], self@[y]),
            decreases n - i,
        {
            if !lex_le_words(&self.wlst[i - 1], &self.wlst[i]) {
                assert(!lex_le(self@[i - 1], self@[i as int]));
                return false;
            }
            assert forall|x: int| 0 <= x < i implies lex_le(self@[x], self@[i as int]) by {
                if x < i - 1 {
                    lemma_lex_le_trans(self@[x], self@[i - 1], self@[i as int]);
                }
            }
            i = i + 1;
        }
        true
    }

    /// Binary search over `[l, r]` for the boundary of the words whose
    /// character at `offset` equals `ch`: the smallest such index under
    /// `Policy::Left`, the largest under `Policy::Right`, `None` if no
    /// word of the range has that character there.
    #[verifier::loop_isolation(false)]
    pub fn seek(&self, policy: Policy, l: usize, r: usize, offset: usize, ch: char) -> (res: Option<
        usize,
    >)
        requires
            self.wf(),
            l <= r < self@.len(),
            range_uniform(self@, l as int, r as int, offset as int),
        ensures
            match res {
                Some(m) => {
                    &&& l <= m <= r
                    &&& key_eq(self@, offset as int, m as int, ch)
                    &&& (policy is Left ==> forall|j: int|
                        l <= j < m ==> !key_eq(self@, offset as int, j, ch))
                    &&& (policy is Right ==> forall|j: int|
                        m < j <= r ==> !key_eq(self@, offset as int, j, ch))
                },
                None => forall|j: int| l <= j <= r ==> !key_eq(self@, offset as int, j, ch),
            },
    {
        let ghost words = self@;
        let ghost off = offset as int;
        proof {
            lemma_range_key_monotone(words, l as int, r as int, off);
        }
        let n = self.wlst.len();
        assert(r < n);
        let mut lo: usize = l;
        let mut hi: usize = r + 1;
        let mut ans: usize = 0;
        let mut found = false;

        while lo < hi
            invariant
                forall|i: int, j: int| l <= i <= j <= r ==> #[trigger] key_le_at(words, off, i, j),
                l <= lo <= hi <= r + 1,
                found ==> l <= ans <= r && key_eq(words, off, ans as int, ch),
                policy is Left ==> forall|j: int| l <= j < lo ==> key_lt(words, off, j, ch),
                policy is Left ==> !found ==> forall|j: int|
                    hi <= j <= r ==> key_gt(words, off, j, ch),
                policy is Left ==> found ==> ans == hi,
                policy is Right ==> forall|j: int| hi <= j <= r ==> key_gt(words, off, j, ch),
                policy is Right ==> !found ==> forall|j: int|
                    l <= j < lo ==> key_lt(words, off, j, ch),
                policy is Right ==> found ==> ans + 1 == lo,
            decreases hi - lo,
        {
            let mid = lo + (hi - lo) / 2;
            let w = &self.wlst[mid];
            assert(w@ == words[mid as int]);
            let wlen = w.len();
            let ghost old_lo = lo;
            let ghost old_hi = hi;
            if wlen <= offset {
                proof {
                    if found && policy is Right {
                        assert(key_le_at(words, off, ans as int, mid as int));
                        assert(false);
                    }
                }
                lo = mid + 1;
                assert forall|j: int| l <= j < lo implies key_lt(words, off, j, ch) by {
                    if old_lo <= j <= mid {
                        assert(key_le_at(words, off, j, mid as int));
                    }
                }
            } else {
                let ch_ = w[offset];
                assert(ch_ == words[mid as int][off]);
                if ch_ < ch {
                    proof {
                        if found && policy is Right {
                            assert(key_le_at(words, off, ans as int, mid as int));
                            assert(false);
                        }
                    }
                    lo = mid + 1;
                    assert forall|j: int| l <= j < lo implies key_lt(words, off, j, ch) by {
                        if old_lo <= j <= mid {
                            assert(key_le_at(words, off, j, mid as int));
                        }
                    }
                } else if ch_ > ch {
                    proof {
                        if found && policy is Left {
                            assert(key_le_at(words, off, mid as int, ans as int));
                            assert(false);
                        }
                    }
                    hi = mid;
                    assert forall|j: int| hi <= j <= r implies key_gt(words, off, j, ch) by {
                        if j < old_hi {
                            assert(key_le_at(words, off, mid as int, j));
                        }
                    }
                } else {
                    assert(ch_ == ch);
                    ans = mid;
                    found = true;
                    match policy {
                        Policy::Left => {
                            hi = mid;
                        },
                        Policy::Right => {
                            lo = mid + 1;
                        },
                    }
                }
            }
        }
        if found {
            proof {
                if policy is Left {
                    assert forall|j: int| l <= j < ans implies !key_eq(words, off, j, ch) by {
                        assert(key_lt(words, off, j, ch));
                    }
                }
                if policy is Right {
                    assert forall|j: int| ans < j <= r implies !key_eq(words, off, j, ch) by {
                        assert(key_gt(words, off, j, ch));
                    }
                }
            }
            Some(ans)
        } else {
            proof {
                assert forall|j: int| l <= j <= r implies !key_eq(words, off, j, ch) by {
                    if j < lo {
                        assert(key_lt(words, off, j, ch));
                    } else {
                        assert(key_gt(words, off, j, ch));
                    }
                }
            }
            None
        }
    }

    /// The word at `m` has exactly `len` characters: a complete match.
    pub fn is_final(&self, len: usize, m: usize) -> (res: bool)
        requires
            m < self@.len(),
        ensures
            res == (self@[m as int].len() == len),
    {
        let w = &self.wlst[m];
        let wlen = w.len();
        wlen == len
    }

    /// The highest valid index, seeding a fresh accumulator's range.
    pub fn r(&self) -> (res: usize)
        requires
            self@.len() >= 1,
        ensures
            res == self@.len() - 1,
    {
        self.wlst.len() - 1
    }
}

/// Compares two words in the dictionary order.
fn lex_le_words(a: &Vec<char>, b: &Vec<char>) -> (res: bool)
    ensures
        res == lex_le(a@, b@),
{
    let alen = a.len();
    let blen = b.len();
    let mut k: usize = 0;
    while k < alen && k < blen
        invariant
            k <= alen,
            k <= blen,
            alen == a@.len(),
            blen == b@.len(),
            a@.subrange(0, k as int) == b@.subrange(0, k as int),
        decreases alen - k,
    {
        let ca = a[k];
        let cb = b[k];
        if ca != cb {
            proof {
                lemma_lex_le_skip_common(a@, b@, k as int);
                assert(a@.skip(k as int)[0] == a@[k as int]);
                assert(b@.skip(k as int)[0] == b@[k as int]);
            }
            return ca < cb;
        }
        assert(a@.subrange(0, k + 1) =~= b@.subrange(0, k + 1)) by {
            assert(forall|m: int|
                0 <= m < k ==> a@.subrange(0, k as int)[m] == b@.subrange(0, k as int)[m]);
        }
        k = k + 1;
    }
    proof {
        lemma_lex_le_skip_common(a@, b@, k as int);
        if k < b@.len() {
            assert(b@.skip(k as int).len() > 0);
        }
    }
    alen <= blen
}

/// With their first `k` characters equal, two sequences compare as their
/// remainders do.
proof fn lemma_lex_le_skip_common(a: Seq<char>, b: Seq<char>, k: int)
    requires
        0 <= k <= a.len(),
        k <= b.len(),
        a.subrange(0, k) == b.subrange(0, k),
    ensures
        lex_le(a, b) == lex_le(a.skip(k), b.skip(k)),
    decreases k,
{
    if k == 0 {
        assert(a.skip(0) =~= a);
        assert(b.skip(0) =~= b);
    } else {
        assert(a[0] == b[0]) by {
            assert(a.subrange(0, k)[0] == a[0]);
            assert(b.subrange(0, k)[0] == b[0]);
        }
        assert(a.len() > 0 && b.len() > 0);
        assert(a.skip(1).subrange(0, k - 1) =~= b.skip(1).subrange(0, k - 1)) by {
            assert forall|m: int| 0 <= m < k - 1 implies #[trigger] a.skip(1)[m] == b.skip(1)[m] by {
                assert(a.subrange(0, k)[m + 1] == a[m + 1]);
                assert(b.subrange(0, k)[m + 1] == b[m + 1]);
            }
        }
        lemma_lex_le_skip_common(a.skip(1), b.skip(1), k - 1);
        assert(a.skip(1).skip(k - 1) =~= a.skip(k));
        assert(b.skip(1).skip(k - 1) =~= b.skip(k));
    }
}

} // verus!

verus! {

/// A word-list source split at newlines, as the lexicon loader reads it:
/// one entry per line, empty lines kept, a trailing newline yielding a
/// final empty entry.
pub open spec fn split_lines(s: Seq<char>) -> Seq<Seq<char>>
    decreases s.len(),
{
    if s.len() == 0 {
        seq![Seq::<char>::empty()]
    } else if s[0] == '\n' {
        seq![Seq::<char>::empty()] + split_lines(s.skip(1))
    } else {
        let rest = split_lines(s.skip(1));
        seq![seq![s[0]] + rest[0]] + rest.skip(1)
    }
}

/// Splitting yields at least one entry.
pub proof fn lemma_split_lines_nonempty(s: Seq<char>)
    ensures
        split_lines(s).len() >= 1,
    decreases s.len(),
{
    if s.len() > 0 {
        lemma_split_lines_nonempty(s.skip(1));
    }
}

/// Splits a word-list source into its lines, one word per line.
pub fn split_words(text: &Vec<char>) -> (wlst: Vec<Vec<char>>)
    ensures
        wlst@.len() == split_lines(text@).len(),
        forall|i: int| 0 <= i < wlst@.len() ==> #[trigger] wlst@[i]@ == split_lines(text@)[i],
{
    let s = text;
    let n = s.len();
    let mut out: Vec<Vec<char>> = Vec::new();
    let mut cur: Vec<char> = Vec::new();
    let ghost full = split_lines(s@);
    proof {
        assert(s@.skip(0) =~= s@);
        lemma_split_lines_nonempty(s@);
        assert(cur@ + split_lines(s@)[0] =~= split_lines(s@)[0]);
    }
    let mut k: usize = 0;
    while k < n
        invariant
            k <= n,
            n == s@.len(),
            full == split_lines(s@),
            split_lines(s@.skip(k as int)).len() >= 1,
            full.len() == out@.len() + split_lines(s@.skip(k as int)).len(),
            forall|t: int| 0 <= t < out@.len() ==> #[trigger] out@[t]@ == full[t],
            cur@ + split_lines(s@.skip(k as int))[0] == full[out@.len() as int],
            forall|t: int|
                out@.len() < t < full.len() ==> full[t] == split_lines(s@.skip(k as int))[t
                    - out@.len()],
        decreases n - k,
    {
        let ghost rem = s@.skip(k as int);
        let ghost rem2 = s@.skip(k as int + 1);
        proof {
            assert(rem[0] == s@[k as int]);
            assert(rem.skip(1) =~= rem2);
            lemma_split_lines_nonempty(rem2);
        }
        let c = s[k];
        if c == '\n' {
            proof {
                assert(split_lines(rem) == seq![Seq::<char>::empty()] + split_lines(rem2));
                assert(cur@ + split_lines(rem)[0] =~= cur@);
                assert forall|t: int| 0 < t < split_lines(rem).len() implies split_lines(rem)[t]
                    == split_lines(rem2)[t - 1] by {
                    assert(split_lines(rem)[t] == (seq![Seq::<char>::empty()] + split_lines(
                        rem2,
                    ))[t]);
                }
            }
            out.push(cur);
            cur = Vec::new();
            proof {
                assert(cur@ + split_lines(rem2)[0] =~= split_lines(rem2)[0]);
            }
        } else {
            proof {
                assert(split_lines(rem) == seq![seq![rem[0]] + split_lines(rem2)[0]] + split_lines(
                    rem2,
                ).skip(1));
                assert((cur@ + split_lines(rem)[0]) =~= (cur@.push(s@[k as int]) + split_lines(
                    rem2,
                )[0]));
                assert forall|t: int| 0 < t < split_lines(rem).len() implies split_lines(rem)[t]
                    == split_lines(rem2)[t] by {
                    assert(split_lines(rem)[t] == split_lines(rem2).skip(1)[t - 1]);
                }
            }
            cur.push(c);
        }
        k = k + 1;
    }
    proof {
        assert(s@.skip(n as int) =~= Seq::<char>::empty());
        assert(cur@ + split_lines(s@.skip(n as int))[0] =~= cur@);
    }
    out.push(cur);
    out
}

} // verus!
