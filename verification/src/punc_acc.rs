//! The boundary tracker: contiguous whitespace/punctuation runs as a
//! non-dictionary boundary source.
//!
//! The tracker watches one character per scan step, together with the
//! lookahead character, and remembers where the current run of
//! whitespace/punctuation began.  It reports `is_space_final` exactly
//! when the run is about to end, so the graph builder closes one edge
//! over the whole run rather than one per character.

use vstd::prelude::*;

verus! {

/// A whitespace or ASCII punctuation character: a token boundary that
/// needs no dictionary.
pub open spec fn spec_is_punc(ch: char) -> bool {
    ||| ch == ' '
    ||| ch == '\t'
    ||| ch == '\n'
    ||| ch == '\r'
    ||| ('!' <= ch && ch <= '/')
    ||| (':' <= ch && ch <= '@')
    ||| ('[' <= ch && ch <= '`')
    ||| ('{' <= ch && ch <= '~')
}

/// Decides `spec_is_punc` for one character.
pub fn is_punc(ch: char) -> (res: bool)
    ensures
        res == spec_is_punc(ch),
{
    ch == ' ' || ch == '\t' || ch == '\n' || ch == '\r' || ('!' <= ch && ch <= '/') || (':' <= ch
        && ch <= '@') || ('[' <= ch && ch <= '`') || ('{' <= ch && ch <= '~')
}

/// Tracks the whitespace/punctuation run the scan currently stands in.
pub struct PuncAcc {
    /// Node index where the current run began.
    pub start: usize,
    /// Number of characters fed so far; the node index of the next step.
    pub pos: usize,
    /// The character just fed was whitespace/punctuation.
    pub in_run: bool,
    /// A run is open and ends here: the lookahead is absent or ordinary.
    pub space_final: bool,
}

/// What one `transit` call does to the tracker.
pub open spec fn punc_step(a: PuncAcc, ch: char, nch: Option<char>) -> PuncAcc {
    let in2 = spec_is_punc(ch);
    let start2 = if in2 && !a.in_run {
        a.pos
    } else {
        a.start
    };
    let fin2 = in2 && (match nch {
        Option::None => true,
        Option::Some(c) => !spec_is_punc(c),
    });
    PuncAcc { start: start2, pos: (a.pos + 1) as usize, in_run: in2, space_final: fin2 }
}

impl PuncAcc {
    /// A tracker that has seen nothing yet.
    pub fn new() -> (a: PuncAcc)
        ensures
            a == (PuncAcc { start: 0usize, pos: 0usize, in_run: false, space_final: false }),
    {
        PuncAcc { start: 0, pos: 0, in_run: false, space_final: false }
    }

    /// Feeds the current character and the lookahead character.
    pub fn transit(&mut self, ch: char, nch: Option<char>)
        requires
            old(self).pos < usize::MAX,
        ensures
            *final(self) == punc_step(*old(self), ch, nch),
    {
        if is_punc(ch) {
            if !self.in_run {
                self.in_run = true;
                self.start = self.pos;
            }
            self.space_final = match nch {
                Option::None => true,
                Option::Some(c) => !is_punc(c),
            };
        } else {
            self.in_run = false;
            self.space_final = false;
        }
        self.pos = self.pos + 1;
    }

    /// The current run ends at this step and may close as a boundary.
    pub fn is_space_final(&self) -> (res: bool)
        ensures
            res == self.space_final,
    {
        self.space_final
    }
}

/// The node index where the whitespace/punctuation run covering position
/// `i` began: the first position of the maximal run of such characters
/// ending at `i`.
pub open spec fn run_start(text: Seq<char>, i: int) -> int
    decreases i,
{
    if i <= 0 {
        0
    } else if !spec_is_punc(text[i - 1]) {
        i
    } else {
        run_start(text, i - 1)
    }
}

/// A run begins at or before the position it covers, never earlier than
/// the text.
pub proof fn lemma_run_start_bounds(text: Seq<char>, i: int)
    requires
        0 <= i,
    ensures
        0 <= run_start(text, i) <= i,
    decreases i,
{
    if i > 0 && spec_is_punc(text[i - 1]) {
        lemma_run_start_bounds(text, i - 1);
    }
}

/// The tracker state after the scan has fed characters `0..=i` of `text`,
/// each with the correct lookahead.  `i == -1` is the fresh tracker.
pub open spec fn punc_state_ok(text: Seq<char>, i: int, a: PuncAcc) -> bool {
    if i < 0 {
        a.pos == 0 && !a.in_run && !a.space_final
    } else {
        &&& a.pos == i + 1
        &&& a.in_run == spec_is_punc(text[i])
        &&& (a.in_run ==> a.start == run_start(text, i))
        &&& a.space_final == (spec_is_punc(text[i]) && (i + 1 == text.len() || !spec_is_punc(
            text[i + 1],
        )))
    }
}

/// One correct step keeps the tracker in sync with the text.
pub proof fn lemma_punc_step_state(text: Seq<char>, i: int, a: PuncAcc, nch: Option<char>)
    requires
        0 <= i < text.len(),
        i + 1 <= usize::MAX,
        punc_state_ok(text, i - 1, a),
        nch == (if i + 1 < text.len() {
            Option::Some(text[i + 1])
        } else {
            Option::None::<char>
        }),
    ensures
        punc_state_ok(text, i, punc_step(a, text[i], nch)),
{
}

} // verus!
