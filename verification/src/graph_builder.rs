//! The graph builder: a single left-to-right scan that turns dictionary
//! matches and boundary runs into the committed node array.
//!
//! At each character position the builder spawns a fresh match
//! accumulator, advances every live one, feeds the boundary tracker, and
//! commits one edge for the next node: the best dictionary edge if any
//! accumulator finalized, else a space edge if a boundary run ends here,
//! else the unknown-token fallback chained from the last good boundary.

use vstd::prelude::*;

use crate::acc::{acc_wf, consumed, lemma_fresh_acc_wf, DictAcc};
use crate::dict::Dict;
use crate::edge::{spec_better_than, Edge, EdgeType};
use crate::lexord::{is_prefix_of, lemma_prefix_unpush};
use crate::punc_acc::{
    lemma_punc_step_state, lemma_run_start_bounds, punc_state_ok, punc_step, run_start,
    spec_is_punc, PuncAcc,
};

verus! {

/// The synthetic edge committed at node 0.
pub open spec fn init_edge() -> Edge {
    Edge { w: 0usize, unk: 0usize, p: 0usize, etype: EdgeType::Init }
}

/// A dictionary word covers `text[s .. j)`.
pub open spec fn word_match(words: Seq<Seq<char>>, text: Seq<char>, s: int, j: int) -> bool {
    words.contains(text.subrange(s, j))
}

/// The dictionary edge into node `j` whose token starts at node `s`.
pub open spec fn dict_edge(g: Seq<Edge>, s: int) -> Edge {
    Edge { w: (g[s].w + 1) as usize, unk: g[s].unk, p: s as usize, etype: EdgeType::Dict }
}

/// The space edge into node `j` closing the run that began at node `s`.
pub open spec fn space_edge(g: Seq<Edge>, s: int) -> Edge {
    Edge { w: (g[s].w + 1) as usize, unk: g[s].unk, p: s as usize, etype: EdgeType::Space }
}

/// The unknown-token fallback edge chained from node `s`.
pub open spec fn unk_edge(g: Seq<Edge>, s: int) -> Edge {
    Edge {
        w: (g[s].w + 1) as usize,
        unk: (g[s].unk + 1) as usize,
        p: s as usize,
        etype: EdgeType::Unk,
    }
}

/// The dictionary candidate edges into node `j` whose tokens start at
/// `s` or later, ordered by start position.
pub open spec fn dict_cands_from(
    words: Seq<Seq<char>>,
    text: Seq<char>,
    g: Seq<Edge>,
    j: int,
    s: int,
) -> Seq<Edge>
    decreases j - s,
{
    if s < 0 || s >= j {
        Seq::empty()
    } else {
        let rest = dict_cands_from(words, text, g, j, s + 1);
        if word_match(words, text, s, j) {
            seq![dict_edge(g, s)] + rest
        } else {
            rest
        }
    }
}

/// All dictionary candidate edges into node `j`.
pub open spec fn dict_cands(words: Seq<Seq<char>>, text: Seq<char>, g: Seq<Edge>, j: int) -> Seq<
    Edge,
> {
    dict_cands_from(words, text, g, j, 0)
}

/// A whitespace/punctuation run ends exactly at position `i`.
pub open spec fn space_final_at(text: Seq<char>, i: int) -> bool {
    spec_is_punc(text[i]) && (i + 1 == text.len() || !spec_is_punc(text[i + 1]))
}

/// The last node up to `i` where a non-unknown edge was committed: the
/// anchor unknown edges chain from.
pub open spec fn left_of(g: Seq<Edge>, i: int) -> int
    decreases i,
{
    if i <= 0 {
        0
    } else if g[i].etype != EdgeType::Unk {
        i
    } else {
        left_of(g, i - 1)
    }
}

/// What the selection loop computes over a candidate list: the running
/// best, replaced whenever it is not strictly better than the next edge.
pub open spec fn best_of(s: Seq<Edge>) -> Edge
    recommends
        s.len() > 0,
    decreases s.len(),
{
    if s.len() <= 1 {
        s[0]
    } else {
        let b = best_of(s.drop_last());
        if spec_better_than(b, s.last()) {
            b
        } else {
            s.last()
        }
    }
}

/// The candidate edges for node `j`: dictionary edges take strict
/// priority over a closing space run, which takes priority over the
/// always-available unknown fallback.
pub open spec fn cand_edges(words: Seq<Seq<char>>, text: Seq<char>, g: Seq<Edge>, j: int) -> Seq<
    Edge,
> {
    let dc = dict_cands(words, text, g, j);
    if dc.len() > 0 {
        dc
    } else if space_final_at(text, j - 1) {
        seq![space_edge(g, run_start(text, j - 1))]
    } else {
        seq![unk_edge(g, left_of(g, j - 1))]
    }
}

/// Node `j` holds the best of its candidate edges.
pub open spec fn node_committed(
    words: Seq<Seq<char>>,
    text: Seq<char>,
    g: Seq<Edge>,
    j: int,
) -> bool {
    g[j] == best_of(cand_edges(words, text, g, j))
}

/// The committed node array for `text` under `words`: one node per
/// character boundary, the Init node first, every further node holding
/// the best candidate edge derived from the already committed prefix.
pub open spec fn graph_post(words: Seq<Seq<char>>, text: Seq<char>, g: Seq<Edge>) -> bool {
    &&& g.len() == text.len() + 1
    &&& g[0] == init_edge()
    &&& forall|j: int| 1 <= j <= text.len() ==> #[trigger] node_committed(words, text, g, j)
}

/// Shape of a committed edge: a strictly earlier predecessor, one more
/// token than it, and one more unknown token exactly when the edge is an
/// unknown edge.
pub open spec fn edge_wf(g: Seq<Edge>, j: int) -> bool {
    &&& 0 <= (g[j].p as int) < j
    &&& g[j].w == g[g[j].p as int].w + 1
    &&& (g[j].etype is Unk ==> g[j].unk == g[g[j].p as int].unk + 1)
    &&& (!(g[j].etype is Unk) ==> g[j].unk == g[g[j].p as int].unk)
    &&& !(g[j].etype is Init)
    &&& g[j].w <= j
    &&& g[j].unk <= j
}

/// The selected edge is one of the candidates.
pub proof fn lemma_best_of_in(s: Seq<Edge>)
    requires
        s.len() > 0,
    ensures
        s.contains(best_of(s)),
    decreases s.len(),
{
    if s.len() > 1 {
        lemma_best_of_in(s.drop_last());
        let b = best_of(s.drop_last());
        if spec_better_than(b, s.last()) {
            let k = choose|k: int| 0 <= k < s.drop_last().len() && s.drop_last()[k] == b;
            assert(s[k] == b);
        } else {
            assert(s[s.len() - 1] == s.last());
        }
    }
}

/// No candidate beats the selected edge.
pub proof fn lemma_best_of_min(s: Seq<Edge>)
    requires
        s.len() > 0,
    ensures
        forall|t: int| 0 <= t < s.len() ==> !spec_better_than(#[trigger] s[t], best_of(s)),
    decreases s.len(),
{
    if s.len() > 1 {
        lemma_best_of_min(s.drop_last());
        assert forall|t: int| 0 <= t < s.len() implies !spec_better_than(
            #[trigger] s[t],
            best_of(s),
        ) by {
            if t < s.len() - 1 {
                assert(s.drop_last()[t] == s[t]);
            }
        }
    }
}

/// Picks the best edge of a candidate list, `None` on an empty list.
pub fn best_edge(edges: &Vec<Edge>) -> (res: Option<&Edge>)
    ensures
        match res {
            Some(e) => edges@.len() > 0 && *e == best_of(edges@),
            None => edges@.len() == 0,
        },
{
    if edges.len() > 0 {
        let mut best_i: usize = 0;
        let mut i: usize = 1;
        while i < edges.len()
            invariant
                1 <= i <= edges@.len(),
                best_i < i,
                edges@[best_i as int] == best_of(edges@.take(i as int)),
            decreases edges@.len() - i,
        {
            assert(edges@.take(i + 1).drop_last() =~= edges@.take(i as int));
            assert(edges@.take(i + 1).last() == edges@[i as int]);
            if !edges[best_i].better_than(&edges[i]) {
                best_i = i;
            }
            i = i + 1;
        }
        assert(edges@.take(i as int) =~= edges@);
        Some(&edges[best_i])
    } else {
        None
    }
}

} // verus!

verus! {

/// One live accumulator in step with the scanned prefix `done`: it has
/// matched exactly the suffix of `done` of its own length, and its
/// `is_final` reports exactly whether that suffix is a dictionary word.
pub open spec fn acc_ok_one(words: Seq<Seq<char>>, done: Seq<char>, acc: DictAcc) -> bool {
    &&& acc_wf(words, acc)
    &&& 1 <= acc.offset <= done.len()
    &&& consumed(words, acc) == done.subrange(done.len() - acc.offset, done.len() as int)
    &&& (acc.is_final <==> words.contains(
        done.subrange(done.len() - acc.offset, done.len() as int),
    ))
}

/// Some dictionary word still continues the length-`off` suffix of `done`.
pub open spec fn suffix_extendable(words: Seq<Seq<char>>, done: Seq<char>, off: int) -> bool {
    exists|m: int|
        0 <= m < words.len() && is_prefix_of(
            done.subrange(done.len() - off, done.len() as int),
            #[trigger] words[m],
        )
}

/// The live set after scanning `done`: accumulators in step with `done`,
/// ordered by strictly decreasing match length, holding one entry for
/// every suffix of `done` that some dictionary word still continues.
pub open spec fn accs_ok(words: Seq<Seq<char>>, done: Seq<char>, accs: Seq<DictAcc>) -> bool {
    &&& forall|k: int| 0 <= k < accs.len() ==> acc_ok_one(words, done, #[trigger] accs[k])
    &&& forall|k1: int, k2: int| 0 <= k1 < k2 < accs.len() ==> accs[k1].offset > accs[k2].offset
    &&& forall|off: int|
        1 <= off <= done.len() && #[trigger] suffix_extendable(words, done, off) ==> exists|k: int|
            0 <= k < accs.len() && accs[k].offset == off
}

/// Pushing a character turns a suffix of the old prefix into a suffix of
/// the new one.
proof fn lemma_suffix_push(done: Seq<char>, ch: char, off: int)
    requires
        0 <= off <= done.len(),
    ensures
        done.subrange(done.len() - off, done.len() as int).push(ch) == done.push(ch).subrange(
            done.len() - off,
            done.len() as int + 1,
        ),
{
    assert(done.subrange(done.len() - off, done.len() as int).push(ch) =~= done.push(ch).subrange(
        done.len() - off,
        done.len() as int + 1,
    ));
}

/// The graph builder: the live accumulators, the boundary tracker, and
/// the committed node array grown one edge per scanned character.
pub struct GraphBuilder {
    /// The live match accumulators, oldest start first.
    pub dict_acc: Vec<DictAcc>,
    /// The boundary tracker.
    pub punc_acc: PuncAcc,
    /// The committed node array.
    pub g: Vec<Edge>,
}

impl GraphBuilder {
    /// A builder holding only the Init node, ready to scan.
    pub fn new() -> (gb: GraphBuilder)
        ensures
            gb.g@ == seq![init_edge()],
            gb.dict_acc@ == Seq::<DictAcc>::empty(),
            gb.punc_acc == (PuncAcc { start: 0usize, pos: 0usize, in_run: false, space_final: false }),
    {
        let mut g: Vec<Edge> = Vec::new();
        g.push(Edge { w: 0, unk: 0, p: 0, etype: EdgeType::Init });
        let gb = GraphBuilder { dict_acc: Vec::new(), punc_acc: PuncAcc::new(), g };
        proof {
            assert(gb.g@ =~= seq![init_edge()]);
        }
        gb
    }

    /// Advances every live accumulator by `ch`, spawns the accumulator
    /// for a word starting at this position, and drops the dead ones.
    #[verifier::rlimit(60)]
    fn transit_dict(&mut self, ch: char, dict: &Dict, done: Ghost<Seq<char>>)
        requires
            dict.wf(),
            dict@.len() >= 1,
            accs_ok(dict@, done@, old(self).dict_acc@),
            done@.len() < usize::MAX,
        ensures
            accs_ok(dict@, done@.push(ch), final(self).dict_acc@),
            final(self).g == old(self).g,
            final(self).punc_acc == old(self).punc_acc,
    {
        let ghost words = dict@;
        let ghost done2 = done@.push(ch);
        let ghost olds = self.dict_acc@;
        let mut next: Vec<DictAcc> = Vec::new();
        let a_len = self.dict_acc.len();
        let mut k: usize = 0;
        while k < a_len
            invariant
                dict.wf(),
                dict@ == words,
                k <= a_len,
                a_len == olds.len(),
                self.dict_acc@ == olds,
                done@.len() < usize::MAX,
                done2 == done@.push(ch),
                accs_ok(words, done@, olds),
                forall|t: int| 0 <= t < next@.len() ==> acc_ok_one(words, done2, #[trigger] next@[t]),
                forall|t1: int, t2: int|
                    0 <= t1 < t2 < next@.len() ==> next@[t1].offset > next@[t2].offset,
                forall|t: int|
                    0 <= t < next@.len() ==> exists|k2: int|
                        0 <= k2 < k && #[trigger] next@[t].offset == olds[k2].offset + 1,
                forall|k2: int|
                    0 <= k2 < k && #[trigger] suffix_extendable(words, done2, olds[k2].offset + 1)
                        ==> exists|t: int| 0 <= t < next@.len() && next@[t].offset == olds[k2].offset
                        + 1,
            decreases a_len - k,
        {
            let ghost oa = olds[k as int];
            proof {
                assert(acc_ok_one(words, done@, oa));
                lemma_suffix_push(done@, ch, oa.offset as int);
            }
            let ghost pn = next@;
            let res = self.dict_acc[k].transit(ch, dict);
            match res {
                Some(a) => {
                    proof {
                        assert(consumed(words, a) == done2.subrange(
                            done2.len() - (oa.offset + 1),
                            done2.len() as int,
                        ));
                    }
                    next.push(a);
                    proof {
                        assert(next@.last() == a);
                        assert(next@[next@.len() - 1].offset == olds[k as int].offset + 1);
                    }
                },
                None => {
                    proof {
                        if suffix_extendable(words, done2, oa.offset + 1) {
                            let m = choose|m: int|
                                0 <= m < words.len() && is_prefix_of(
                                    done2.subrange(
                                        done2.len() - (oa.offset + 1),
                                        done2.len() as int,
                                    ),
                                    #[trigger] words[m],
                                );
                            assert(is_prefix_of(consumed(words, oa).push(ch), words[m]));
                            assert(false);
                        }
                    }
                },
            }
            proof {
                assert forall|k2: int|
                    0 <= k2 < k + 1 && suffix_extendable(
                        words,
                        done2,
                        olds[k2].offset + 1,
                    ) implies exists|t: int|
                    0 <= t < next@.len() && #[trigger] next@[t].offset == olds[k2].offset + 1 by {
                    if k2 < k {
                        let t0 = choose|t: int|
                            0 <= t < pn.len() && pn[t].offset == olds[k2].offset + 1;
                        assert(next@[t0].offset == olds[k2].offset + 1);
                    } else {
                        assert(next@[next@.len() - 1].offset == olds[k as int].offset + 1);
                    }
                }
            }
            k = k + 1;
        }
        let rr = dict.r();
        let fresh = DictAcc::new(0, rr);
        proof {
            lemma_fresh_acc_wf(words, rr);
            assert(consumed(words, fresh) =~= Seq::<char>::empty());
            assert(consumed(words, fresh).push(ch) =~= done2.subrange(
                done2.len() - 1,
                done2.len() as int,
            ));
        }
        let res = fresh.transit(ch, dict);
        let ghost before_fresh = next@;
        match res {
            Some(a) => {
                proof {
                    assert(consumed(words, a) == done2.subrange(done2.len() - 1, done2.len() as int));
                }
                next.push(a);
            },
            None => {},
        }
        proof {
            assert forall|off: int|
                1 <= off <= done2.len() && #[trigger] suffix_extendable(words, done2, off) implies exists|
                t: int,
            |
                0 <= t < next@.len() && next@[t].offset == off by {
                if off == 1 {
                    assert(next@.last().offset == 1);
                } else {
                    let m = choose|m: int|
                        0 <= m < words.len() && is_prefix_of(
                            done2.subrange(done2.len() - off, done2.len() as int),
                            #[trigger] words[m],
                        );
                    lemma_suffix_push(done@, ch, off - 1);
                    lemma_prefix_unpush(
                        done@.subrange(done@.len() - (off - 1), done@.len() as int),
                        ch,
                        words[m],
                    );
                    assert(suffix_extendable(words, done@, off - 1));
                    let k2 = choose|k2: int|
                        0 <= k2 < olds.len() && olds[k2].offset == off - 1;
                    assert(suffix_extendable(words, done2, olds[k2].offset + 1));
                    let t = choose|t: int|
                        0 <= t < before_fresh.len() && before_fresh[t].offset == olds[k2].offset
                            + 1;
                    assert(next@[t].offset == off);
                }
            }
        }
        self.dict_acc = next;
    }

    /// Feeds the boundary tracker.
    fn transit_space(&mut self, ch: char, nch: Option<char>)
        requires
            old(self).punc_acc.pos < usize::MAX,
        ensures
            final(self).punc_acc == punc_step(old(self).punc_acc, ch, nch),
            final(self).g == old(self).g,
            final(self).dict_acc == old(self).dict_acc,
    {
        self.punc_acc.transit(ch, nch);
    }

    /// One scan step for the matchers and the tracker: feeds the current
    /// character to every live accumulator and, with the lookahead, to
    /// the boundary tracker.
    pub fn transit(&mut self, ch: char, nch: Option<char>, dict: &Dict, done: Ghost<Seq<char>>)
        requires
            dict.wf(),
            dict@.len() >= 1,
            accs_ok(dict@, done@, old(self).dict_acc@),
            done@.len() < usize::MAX,
            old(self).punc_acc.pos < usize::MAX,
        ensures
            accs_ok(dict@, done@.push(ch), final(self).dict_acc@),
            final(self).punc_acc == punc_step(old(self).punc_acc, ch, nch),
            final(self).g == old(self).g,
    {
        self.transit_dict(ch, dict, done);
        self.transit_space(ch, nch);
    }
}

} // verus!

verus! {

/// `dict_cands_from` reads only nodes before `j`: two arrays agreeing
/// there yield the same candidates.
proof fn lemma_cands_prefix(
    words: Seq<Seq<char>>,
    text: Seq<char>,
    g1: Seq<Edge>,
    g2: Seq<Edge>,
    j: int,
    s: int,
)
    requires
        forall|m: int| 0 <= m < j ==> g1[m] == g2[m],
    ensures
        dict_cands_from(words, text, g1, j, s) == dict_cands_from(words, text, g2, j, s),
    decreases j - s,
{
    if 0 <= s < j {
        lemma_cands_prefix(words, text, g1, g2, j, s + 1);
    }
}

/// `left_of` reads only nodes up to `i`.
proof fn lemma_left_of_prefix(g1: Seq<Edge>, g2: Seq<Edge>, i: int)
    requires
        forall|m: int| 0 <= m <= i ==> g1[m] == g2[m],
    ensures
        left_of(g1, i) == left_of(g2, i),
    decreases i,
{
    if i > 0 {
        lemma_left_of_prefix(g1, g2, i - 1);
    }
}

/// The unknown-edge anchor lies at or before the node it serves.
proof fn lemma_left_of_bounds(g: Seq<Edge>, i: int)
    requires
        0 <= i,
    ensures
        0 <= left_of(g, i) <= i,
    decreases i,
{
    if i > 0 && g[i].etype is Unk {
        lemma_left_of_bounds(g, i - 1);
    }
}

/// Where no token starts between `a` and `b`, the candidates from `a`
/// are the candidates from `b`.
proof fn lemma_cands_skip(
    words: Seq<Seq<char>>,
    text: Seq<char>,
    g: Seq<Edge>,
    j: int,
    a: int,
    b: int,
)
    requires
        0 <= a <= b <= j,
        forall|s: int| a <= s < b ==> !word_match(words, text, s, j),
    ensures
        dict_cands_from(words, text, g, j, a) == dict_cands_from(words, text, g, j, b),
    decreases b - a,
{
    if a < b {
        lemma_cands_skip(words, text, g, j, a + 1, b);
    }
}

/// Every dictionary candidate is the edge of a token covering
/// `text[p .. j)`, with its predecessor in `[s0, j)`.
proof fn lemma_cands_shape(words: Seq<Seq<char>>, text: Seq<char>, g: Seq<Edge>, j: int, s0: int)
    requires
        0 <= s0,
        j <= usize::MAX,
    ensures
        forall|t: int|
            0 <= t < dict_cands_from(words, text, g, j, s0).len() ==> {
                let e = #[trigger] dict_cands_from(words, text, g, j, s0)[t];
                &&& s0 <= e.p < j
                &&& e == dict_edge(g, e.p as int)
                &&& word_match(words, text, e.p as int, j)
            },
    decreases j - s0,
{
    if 0 <= s0 < j {
        lemma_cands_shape(words, text, g, j, s0 + 1);
        let cur = dict_cands_from(words, text, g, j, s0);
        let rest = dict_cands_from(words, text, g, j, s0 + 1);
        if word_match(words, text, s0, j) {
            assert forall|t: int| 0 <= t < cur.len() implies {
                let e = #[trigger] cur[t];
                &&& s0 <= e.p < j
                &&& e == dict_edge(g, e.p as int)
                &&& word_match(words, text, e.p as int, j)
            } by {
                if t == 0 {
                    assert(cur[0] == dict_edge(g, s0));
                } else {
                    assert(cur[t] == rest[t - 1]);
                }
            }
        }
    }
}

/// A prefix of the text, cut again, is a cut of the text.
proof fn lemma_take_subrange(text: Seq<char>, s: int, j: int)
    requires
        0 <= s <= j <= text.len(),
    ensures
        text.take(j).subrange(s, j) == text.subrange(s, j),
{
    assert(text.take(j).subrange(s, j) =~= text.subrange(s, j));
}

/// Positions whose suffix length no live accumulator carries hold no
/// dictionary match.
proof fn lemma_no_acc_no_match(
    words: Seq<Seq<char>>,
    text: Seq<char>,
    j: int,
    accs: Seq<DictAcc>,
    s: int,
)
    requires
        accs_ok(words, text.take(j), accs),
        0 <= s < j <= text.len(),
        forall|k: int| 0 <= k < accs.len() ==> (#[trigger] accs[k].offset) != j - s,
    ensures
        !word_match(words, text, s, j),
{
    if word_match(words, text, s, j) {
        let m = choose|m: int| 0 <= m < words.len() && words[m] == text.subrange(s, j);
        crate::lexord::lemma_prefix_refl(text.subrange(s, j));
        lemma_take_subrange(text, s, j);
        let done = text.take(j);
        assert(done.subrange(done.len() - (j - s), done.len() as int) == text.subrange(s, j));
        assert(is_prefix_of(done.subrange(done.len() - (j - s), done.len() as int), words[m]));
        assert(suffix_extendable(words, done, j - s));
        assert(false);
    }
}

} // verus!

verus! {

impl GraphBuilder {
    /// One edge per finalized accumulator, ordered by token start.
    #[verifier::rlimit(60)]
    fn build_edges_from_dict(
        &self,
        i: usize,
        words: Ghost<Seq<Seq<char>>>,
        text: Ghost<Seq<char>>,
    ) -> (res: Vec<Edge>)
        requires
            accs_ok(words@, text@.take(i as int + 1), self.dict_acc@),
            self.g@.len() == i + 1,
            i < text@.len(),
            text@.len() < usize::MAX,
            self.g@[0] == init_edge(),
            forall|m: int| 1 <= m <= i ==> #[trigger] edge_wf(self.g@, m),
        ensures
            res@ == dict_cands(words@, text@, self.g@, i as int + 1),
    {
        let ghost j = i as int + 1;
        let ghost gs = self.g@;
        let ghost accs = self.dict_acc@;
        let mut res: Vec<Edge> = Vec::new();
        let n_acc = self.dict_acc.len();
        proof {
            if n_acc == 0 {
                assert forall|s: int| 0 <= s < j implies !word_match(words@, text@, s, j) by {
                    lemma_no_acc_no_match(words@, text@, j, accs, s);
                }
                lemma_cands_skip(words@, text@, gs, j, 0, j);
            } else {
                assert forall|s: int| 0 <= s < j - accs[0].offset implies !word_match(
                    words@,
                    text@,
                    s,
                    j,
                ) by {
                    assert(acc_ok_one(words@, text@.take(j), accs[0]));
                    assert forall|k: int| 0 <= k < accs.len() implies (#[trigger] accs[k].offset)
                        != j - s by {
                        if k > 0 {
                            assert(accs[0].offset > accs[k].offset);
                        }
                    }
                    lemma_no_acc_no_match(words@, text@, j, accs, s);
                }
                lemma_cands_skip(words@, text@, gs, j, 0, j - accs[0].offset);
            }
        }
        let mut k: usize = 0;
        while k < n_acc
            invariant
                k <= n_acc,
                n_acc == accs.len(),
                self.dict_acc@ == accs,
                self.g@ == gs,
                j == i as int + 1,
                i < text@.len(),
                text@.len() < usize::MAX,
                gs.len() == j,
                gs[0] == init_edge(),
                forall|m: int| 1 <= m <= i ==> #[trigger] edge_wf(gs, m),
                accs_ok(words@, text@.take(j), accs),
                res@ + dict_cands_from(
                    words@,
                    text@,
                    gs,
                    j,
                    if k < accs.len() {
                        j - accs[k as int].offset
                    } else {
                        j
                    },
                ) == dict_cands(words@, text@, gs, j),
            decreases n_acc - k,
        {
            let ghost s_k = j - accs[k as int].offset;
            proof {
                assert(acc_ok_one(words@, text@.take(j), accs[k as int]));
            }
            let acc = &self.dict_acc[k];
            let ghost next_cut = if k + 1 < accs.len() {
                j - accs[k as int + 1].offset
            } else {
                j
            };
            proof {
                // between this start and the next, no token can start
                assert forall|s: int| s_k + 1 <= s < next_cut implies !word_match(
                    words@,
                    text@,
                    s,
                    j,
                ) by {
                    assert forall|k2: int| 0 <= k2 < accs.len() implies (#[trigger] accs[k2].offset)
                        != j - s by {
                        if k2 <= k {
                            assert(accs[k2].offset >= accs[k as int].offset) by {
                                if k2 < k {
                                    assert(accs[k2].offset > accs[k as int].offset);
                                }
                            }
                        } else {
                            assert(accs[k as int + 1].offset >= accs[k2].offset) by {
                                if k2 > k + 1 {
                                    assert(accs[k as int + 1].offset > accs[k2].offset);
                                }
                            }
                        }
                    }
                    lemma_no_acc_no_match(words@, text@, j, accs, s);
                }
            }
            if acc.is_final {
                proof {
                    lemma_take_subrange(text@, s_k, j);
                    assert(word_match(words@, text@, s_k, j));
                }
                let p = 1 + i - acc.offset;
                let src = &self.g[p];
                proof {
                    if p > 0 {
                        assert(edge_wf(gs, p as int));
                    }
                    assert(src.w <= p <= i);
                }
                let e = Edge { w: src.w + 1, unk: src.unk, p, etype: EdgeType::Dict };
                let ghost res_old = res@;
                res.push(e);
                proof {
                    assert(e == dict_edge(gs, s_k));
                    assert(dict_cands_from(words@, text@, gs, j, s_k) == seq![dict_edge(gs, s_k)]
                        + dict_cands_from(words@, text@, gs, j, s_k + 1));
                    lemma_cands_skip(words@, text@, gs, j, s_k + 1, next_cut);
                    assert(res@ + dict_cands_from(words@, text@, gs, j, next_cut) =~= res_old
                        + dict_cands_from(words@, text@, gs, j, s_k));
                }
            } else {
                proof {
                    lemma_take_subrange(text@, s_k, j);
                    assert(!word_match(words@, text@, s_k, j));
                    lemma_cands_skip(words@, text@, gs, j, s_k + 1, next_cut);
                }
            }
            k = k + 1;
        }
        proof {
            assert(res@ + dict_cands_from(words@, text@, gs, j, j) =~= res@);
        }
        res
    }

    /// The unknown-token fallback: one edge chained from the anchor.
    fn build_edges_unk(&self, left: usize) -> (res: Vec<Edge>)
        requires
            left < self.g@.len(),
            self.g@[left as int].w <= left,
            self.g@[left as int].unk <= left,
            self.g@.len() <= usize::MAX,
        ensures
            res@ == seq![unk_edge(self.g@, left as int)],
    {
        let src = &self.g[left];
        let mut res: Vec<Edge> = Vec::new();
        res.push(Edge { w: src.w + 1, unk: src.unk + 1, p: left, etype: EdgeType::Unk });
        proof {
            assert(res@ =~= seq![unk_edge(self.g@, left as int)]);
        }
        res
    }

    /// One space edge closing the whole boundary run, if one ends here.
    fn build_edges_from_space(&self, i: usize, text: Ghost<Seq<char>>) -> (res: Vec<Edge>)
        requires
            punc_state_ok(text@, i as int, self.punc_acc),
            self.g@.len() == i + 1,
            i < text@.len(),
            text@.len() < usize::MAX,
            self.g@[0] == init_edge(),
            forall|m: int| 1 <= m <= i ==> #[trigger] edge_wf(self.g@, m),
        ensures
            space_final_at(text@, i as int) ==> res@ == seq![
                space_edge(self.g@, run_start(text@, i as int)),
            ],
            !space_final_at(text@, i as int) ==> res@ == Seq::<Edge>::empty(),
    {
        let mut res: Vec<Edge> = Vec::new();
        if self.punc_acc.is_space_final() {
            proof {
                lemma_run_start_bounds(text@, i as int);
            }
            let start = self.punc_acc.start;
            let src = &self.g[start];
            proof {
                if start > 0 {
                    assert(edge_wf(self.g@, start as int));
                }
                assert(src.w <= start <= i);
            }
            res.push(Edge { w: src.w + 1, unk: src.unk, p: start, etype: EdgeType::Space });
            proof {
                assert(res@ =~= seq![space_edge(self.g@, run_start(text@, i as int))]);
            }
        }
        res
    }

    /// The candidate edges for the node after position `i`: dictionary
    /// edges first, else a closing space run, else the unknown fallback.
    fn build_edges(
        &self,
        i: usize,
        left: usize,
        words: Ghost<Seq<Seq<char>>>,
        text: Ghost<Seq<char>>,
    ) -> (res: Vec<Edge>)
        requires
            accs_ok(words@, text@.take(i as int + 1), self.dict_acc@),
            punc_state_ok(text@, i as int, self.punc_acc),
            self.g@.len() == i + 1,
            i < text@.len(),
            text@.len() < usize::MAX,
            self.g@[0] == init_edge(),
            forall|m: int| 1 <= m <= i ==> #[trigger] edge_wf(self.g@, m),
            left as int == left_of(self.g@, i as int),
        ensures
            res@ == cand_edges(words@, text@, self.g@, i as int + 1),
            res@.len() > 0,
    {
        let dict_edges = self.build_edges_from_dict(i, words, text);
        if dict_edges.len() > 0 {
            return dict_edges;
        }
        let space_edges = self.build_edges_from_space(i, text);
        if space_edges.len() > 0 {
            return space_edges;
        }
        proof {
            lemma_left_of_bounds(self.g@, i as int);
            if left > 0 {
                assert(edge_wf(self.g@, left as int));
            }
        }
        self.build_edges_unk(left)
    }
}

} // verus!

verus! {

/// Node `j`'s commitment and shape carry over between arrays that agree
/// on nodes `0..=j`.
proof fn lemma_node_prefix_stable(
    words: Seq<Seq<char>>,
    text: Seq<char>,
    g1: Seq<Edge>,
    g2: Seq<Edge>,
    j: int,
)
    requires
        1 <= j,
        forall|m: int| 0 <= m <= j ==> g1[m] == g2[m],
        node_committed(words, text, g1, j),
        edge_wf(g1, j),
    ensures
        node_committed(words, text, g2, j),
        edge_wf(g2, j),
{
    lemma_cands_prefix(words, text, g1, g2, j, 0);
    lemma_left_of_prefix(g1, g2, j - 1);
    lemma_run_start_bounds(text, j - 1);
    lemma_left_of_bounds(g1, j - 1);
    let dc = dict_cands(words, text, g1, j);
    if dc.len() == 0 {
        if space_final_at(text, j - 1) {
            assert(space_edge(g1, run_start(text, j - 1)) == space_edge(
                g2,
                run_start(text, j - 1),
            ));
        } else {
            assert(unk_edge(g1, left_of(g1, j - 1)) == unk_edge(g2, left_of(g2, j - 1)));
        }
    }
}

impl GraphBuilder {
    /// Commits the best candidate edge as the node after position `i`,
    /// and advances the anchor when the committed edge is not unknown.
    #[verifier::rlimit(60)]
    fn update_graph(
        &mut self,
        i: usize,
        left: &mut usize,
        words: Ghost<Seq<Seq<char>>>,
        text: Ghost<Seq<char>>,
    )
        requires
            accs_ok(words@, text@.take(i as int + 1), old(self).dict_acc@),
            punc_state_ok(text@, i as int, old(self).punc_acc),
            old(self).g@.len() == i + 1,
            i < text@.len(),
            text@.len() < usize::MAX,
            old(self).g@[0] == init_edge(),
            forall|m: int| 1 <= m <= i ==> #[trigger] edge_wf(old(self).g@, m),
            *old(left) as int == left_of(old(self).g@, i as int),
        ensures
            final(self).g@.len() == i + 2,
            forall|m: int| 0 <= m <= i ==> final(self).g@[m] == old(self).g@[m],
            node_committed(words@, text@, final(self).g@, i as int + 1),
            edge_wf(final(self).g@, i as int + 1),
            *final(left) as int == left_of(final(self).g@, i as int + 1),
            final(self).dict_acc == old(self).dict_acc,
            final(self).punc_acc == old(self).punc_acc,
    {
        let ghost j = i as int + 1;
        let ghost g_old = self.g@;
        let edges = self.build_edges(i, *left, words, text);
        let e = best_edge(&edges).unwrap();
        let _e = e.clone();
        let ghost cands = cand_edges(words@, text@, g_old, j);
        proof {
            lemma_best_of_in(cands);
            let t = choose|t: int| 0 <= t < cands.len() && cands[t] == _e;
            let dc = dict_cands(words@, text@, g_old, j);
            if dc.len() > 0 {
                lemma_cands_shape(words@, text@, g_old, j, 0);
                assert(dc[t] == _e);
            } else {
                lemma_run_start_bounds(text@, i as int);
                lemma_left_of_bounds(g_old, i as int);
            }
            // whichever candidate was chosen, its predecessor is a
            // committed node, so the new edge is well shaped
            assert(0 <= (_e.p as int) < j);
            if _e.p > 0 {
                assert(edge_wf(g_old, _e.p as int));
            }
        }
        self.g.push(_e);
        if e.etype != EdgeType::Unk {
            *left = i + 1;
        }
        proof {
            let g_new = self.g@;
            assert forall|m: int| 0 <= m <= i implies g_new[m] == g_old[m] by {}
            lemma_cands_prefix(words@, text@, g_old, g_new, j, 0);
            lemma_run_start_bounds(text@, i as int);
            lemma_left_of_bounds(g_old, i as int);
            lemma_left_of_prefix(g_old, g_new, i as int);
            let dc = dict_cands(words@, text@, g_old, j);
            if dc.len() == 0 {
                if space_final_at(text@, i as int) {
                    assert(space_edge(g_old, run_start(text@, i as int)) == space_edge(
                        g_new,
                        run_start(text@, i as int),
                    ));
                } else {
                    assert(unk_edge(g_old, left_of(g_old, i as int)) == unk_edge(
                        g_new,
                        left_of(g_new, i as int),
                    ));
                }
            }
            assert(cand_edges(words@, text@, g_new, j) == cand_edges(words@, text@, g_old, j));
            assert(g_new[j] == _e);
            assert(node_committed(words@, text@, g_new, j));
            assert(edge_wf(g_new, j));
            lemma_left_of_prefix(g_old, g_new, i as int);
            if _e.etype != EdgeType::Unk {
                assert(left_of(g_new, j) == j);
            } else {
                assert(left_of(g_new, j) == left_of(g_new, i as int));
            }
        }
    }

    /// Scans the whole text once, committing one node per character; an
    /// empty text leaves only the Init node.
    #[verifier::loop_isolation(false)]
    pub fn build(&mut self, txt: &Vec<char>, dict: &Dict)
        requires
            dict.wf(),
            dict@.len() >= 1,
            old(self).dict_acc@ == Seq::<DictAcc>::empty(),
            old(self).punc_acc == (PuncAcc {
                start: 0usize,
                pos: 0usize,
                in_run: false,
                space_final: false,
            }),
            old(self).g@ == seq![init_edge()],
            txt@.len() < usize::MAX,
        ensures
            graph_post(dict@, txt@, final(self).g@),
            forall|j: int| 1 <= j <= txt@.len() ==> #[trigger] edge_wf(final(self).g@, j),
    {
        let ghost words = dict@;
        let ghost text = txt@;
        let n = txt.len();
        if n == 0 {
            return ;
        }
        let mut left: usize = 0;
        let mut i: usize = 0;
        proof {
            assert(text.take(0) =~= Seq::<char>::empty());
        }
        while i < n
            invariant
                i <= n,
                accs_ok(words, text.take(i as int), self.dict_acc@),
                punc_state_ok(text, i as int - 1, self.punc_acc),
                self.g@.len() == i + 1,
                self.g@[0] == init_edge(),
                forall|m: int| 1 <= m <= i ==> #[trigger] node_committed(words, text, self.g@, m),
                forall|m: int| 1 <= m <= i ==> #[trigger] edge_wf(self.g@, m),
                left as int == left_of(self.g@, i as int),
            decreases n - i,
        {
            let ch = txt[i];
            let nch = if i + 1 < n {
                Some(txt[i + 1])
            } else {
                None
            };
            let ghost pre_punc = self.punc_acc;
            self.transit(ch, nch, dict, Ghost(text.take(i as int)));
            proof {
                assert(text.take(i as int).push(ch) =~= text.take(i as int + 1));
                lemma_punc_step_state(text, i as int, pre_punc, nch);
            }
            let ghost g_before = self.g@;
            self.update_graph(i, &mut left, Ghost(words), Ghost(text));
            proof {
                assert forall|m: int| 1 <= m <= i implies #[trigger] node_committed(
                    words,
                    text,
                    self.g@,
                    m,
                ) by {
                    lemma_node_prefix_stable(words, text, g_before, self.g@, m);
                }
                assert forall|m: int| 1 <= m <= i implies #[trigger] edge_wf(self.g@, m) by {
                    lemma_node_prefix_stable(words, text, g_before, self.g@, m);
                }
            }
            i = i + 1;
        }
    }
}

} // verus!

verus! {

/// The candidate list reads only nodes before `j`.
proof fn lemma_cand_edges_prefix(
    words: Seq<Seq<char>>,
    text: Seq<char>,
    g1: Seq<Edge>,
    g2: Seq<Edge>,
    j: int,
)
    requires
        1 <= j,
        forall|m: int| 0 <= m < j ==> g1[m] == g2[m],
    ensures
        cand_edges(words, text, g1, j) == cand_edges(words, text, g2, j),
{
    lemma_cands_prefix(words, text, g1, g2, j, 0);
    lemma_left_of_prefix(g1, g2, j - 1);
    lemma_run_start_bounds(text, j - 1);
    lemma_left_of_bounds(g1, j - 1);
    let dc = dict_cands(words, text, g1, j);
    if dc.len() == 0 {
        if space_final_at(text, j - 1) {
            assert(space_edge(g1, run_start(text, j - 1)) == space_edge(
                g2,
                run_start(text, j - 1),
            ));
        } else {
            assert(unk_edge(g1, left_of(g1, j - 1)) == unk_edge(g2, left_of(g2, j - 1)));
        }
    }
}

proof fn lemma_graph_prefix_eq(
    words: Seq<Seq<char>>,
    text: Seq<char>,
    g1: Seq<Edge>,
    g2: Seq<Edge>,
    j: int,
)
    requires
        graph_post(words, text, g1),
        graph_post(words, text, g2),
        0 <= j <= text.len(),
    ensures
        forall|m: int| 0 <= m <= j ==> g1[m] == g2[m],
    decreases j,
{
    if j > 0 {
        lemma_graph_prefix_eq(words, text, g1, g2, j - 1);
        assert(node_committed(words, text, g1, j));
        assert(node_committed(words, text, g2, j));
        lemma_cand_edges_prefix(words, text, g1, g2, j);
        assert forall|m: int| 0 <= m <= j implies g1[m] == g2[m] by {}
    }
}

/// Segmenting the same text with the same word list always commits the
/// same node array: the scan is deterministic, so two runs agree node by
/// node.
pub proof fn lemma_graph_deterministic(
    words: Seq<Seq<char>>,
    text: Seq<char>,
    g1: Seq<Edge>,
    g2: Seq<Edge>,
)
    requires
        graph_post(words, text, g1),
        graph_post(words, text, g2),
    ensures
        g1 == g2,
{
    lemma_graph_prefix_eq(words, text, g1, g2, text.len() as int);
    assert(g1 =~= g2);
}

/// The node reached by walking `k` predecessor links back from node `j`.
pub open spec fn ancestor(g: Seq<Edge>, j: int, k: int) -> int
    decreases k,
{
    if k <= 0 {
        j
    } else {
        ancestor(g, g[j].p as int, k - 1)
    }
}

/// Along any predecessor chain neither cost ever decreases: walking
/// back from a committed node only drops weight and unknown count, with
/// weight falling by exactly one per edge until the Init node is
/// reached.
pub proof fn lemma_pred_chain_monotone(g: Seq<Edge>, j: int, k: int)
    requires
        g.len() >= 1,
        g[0] == init_edge(),
        forall|m: int| 1 <= m < g.len() ==> #[trigger] edge_wf(g, m),
        0 <= j < g.len(),
        0 <= k,
    ensures
        0 <= ancestor(g, j, k) <= j,
        g[ancestor(g, j, k)].w <= g[j].w,
        g[ancestor(g, j, k)].unk <= g[j].unk,
        j >= 1 && k >= 1 ==> g[ancestor(g, j, k)].w < g[j].w,
    decreases k,
{
    if k >= 1 {
        if j == 0 {
            lemma_pred_chain_monotone(g, 0, k - 1);
        } else {
            assert(edge_wf(g, j));
            lemma_pred_chain_monotone(g, g[j].p as int, k - 1);
        }
    }
}

} // verus!

verus! {

/// A finalized match is in the lexicon verbatim: an accumulator in step
/// with the scanned text that reports `is_final` after matching `k`
/// characters from position `s` has found `text[s .. s + k)` itself in
/// the word list.
pub proof fn lemma_final_match_in_lexicon(
    words: Seq<Seq<char>>,
    done: Seq<char>,
    acc: DictAcc,
)
    requires
        acc_ok_one(words, done, acc),
        acc.is_final,
    ensures
        words.contains(done.subrange(done.len() - acc.offset, done.len() as int)),
{
}

} // verus!
