use chamkho::acc::DictAcc;
use chamkho::dict::{Dict, Policy};
use chamkho::edge::{Edge, EdgeType};
use chamkho::graph_builder::{best_edge, GraphBuilder};
use chamkho::punc_acc::{is_punc, PuncAcc};

fn word(s: &str) -> Vec<char> {
    s.chars().collect()
}

fn dict_of(words: &[&str]) -> Dict {
    let wlst: Vec<Vec<char>> = words.iter().map(|w| word(w)).collect();
    let d = Dict::new(wlst);
    assert!(d.is_sorted());
    d
}

fn build_graph(d: &Dict, text: &str) -> Vec<Edge> {
    let txt: Vec<char> = text.chars().collect();
    let mut gb = GraphBuilder::new();
    gb.build(&txt, d);
    gb.g
}

#[test]
fn empty_text_yields_only_init_node() {
    let d = dict_of(&["a"]);
    let g = build_graph(&d, "");
    assert_eq!(g.len(), 1);
    assert_eq!(g[0].etype, EdgeType::Init);
    assert_eq!(g[0].w, 0);
    assert_eq!(g[0].unk, 0);
    assert_eq!(g[0].p, 0);
}

#[test]
fn node_array_has_one_entry_per_boundary() {
    let d = dict_of(&["a", "ab", "abc"]);
    for text in ["a", "ab", "xyz", "ab ab", "abcabc"] {
        let g = build_graph(&d, text);
        assert_eq!(g.len(), text.chars().count() + 1);
    }
}

#[test]
fn predecessors_point_strictly_backward() {
    let d = dict_of(&["a", "ab", "abc"]);
    for text in ["abc", "zzz", "ab abc", "a b c"] {
        let g = build_graph(&d, text);
        for j in 1..g.len() {
            assert!(g[j].p < j);
        }
    }
}

#[test]
fn whole_word_match_wins_at_final_position() {
    // lexicon {"a","ab","abc"}, text "abc": position 3 closes via the
    // accumulator started at 0 matching "abc" exactly
    let d = dict_of(&["a", "ab", "abc"]);
    let g = build_graph(&d, "abc");
    assert_eq!(g.len(), 4);
    assert_eq!(g[3].etype, EdgeType::Dict);
    assert_eq!(g[3].p, 0);
    assert_eq!(g[3].w, 1);
    assert_eq!(g[3].unk, 0);
}

#[test]
fn unknown_then_dictionary_chains_from_unknown_anchor() {
    // lexicon {"x"}, text "yx": 'y' gets an unknown edge, then 'x'
    // closes a dictionary edge from the accumulator started at 1
    let d = dict_of(&["x"]);
    let g = build_graph(&d, "yx");
    assert_eq!(g.len(), 3);
    assert_eq!(g[1].etype, EdgeType::Unk);
    assert_eq!(g[1].unk, 1);
    assert_eq!(g[1].p, 0);
    assert_eq!(g[2].etype, EdgeType::Dict);
    assert_eq!(g[2].p, 1);
    assert_eq!(g[2].w, 2);
    assert_eq!(g[2].unk, 1);
}

#[test]
fn space_run_closes_as_one_edge() {
    // three spaces between two words: exactly one Space edge for the run
    let d = dict_of(&["ab", "cd"]);
    let g = build_graph(&d, "ab   cd");
    assert_eq!(g.len(), 8);
    let spaces: Vec<usize> = (1..g.len()).filter(|&j| g[j].etype == EdgeType::Space).collect();
    assert_eq!(spaces, vec![5]);
    assert_eq!(g[5].p, 2);
    assert_eq!(g[5].w, 2);
    assert_eq!(g[5].unk, 0);
    assert_eq!(g[7].etype, EdgeType::Dict);
    assert_eq!(g[7].p, 5);
    assert_eq!(g[7].w, 3);
    assert_eq!(g[7].unk, 0);
}

#[test]
fn costs_never_decrease_along_predecessor_chain() {
    let d = dict_of(&["ab", "cd"]);
    let g = build_graph(&d, "ab zz cd");
    let mut j = g.len() - 1;
    while j > 0 {
        let p = g[j].p;
        assert!(g[p].w < g[j].w);
        assert!(g[p].unk <= g[j].unk);
        if g[j].etype == EdgeType::Unk {
            assert_eq!(g[j].unk, g[p].unk + 1);
        } else {
            assert_eq!(g[j].unk, g[p].unk);
        }
        assert_eq!(g[j].w, g[p].w + 1);
        j = p;
    }
}

#[test]
fn same_input_builds_identical_graphs() {
    let d = dict_of(&["a", "ab", "abc"]);
    let g1 = build_graph(&d, "abc ab x");
    let g2 = build_graph(&d, "abc ab x");
    assert_eq!(g1, g2);
}

#[test]
fn seek_finds_leftmost_and_rightmost_boundaries() {
    let d = dict_of(&["a", "ab", "abc"]);
    assert_eq!(d.seek(Policy::Left, 0, 2, 0, 'a'), Some(0));
    assert_eq!(d.seek(Policy::Right, 0, 2, 0, 'a'), Some(2));
    assert_eq!(d.seek(Policy::Left, 0, 2, 0, 'b'), None);
}

#[test]
fn seek_skips_words_shorter_than_the_offset() {
    // "a" is complete at offset 1 and must not block "ab"/"abc"
    let d = dict_of(&["a", "ab", "abc"]);
    assert_eq!(d.seek(Policy::Left, 0, 2, 1, 'b'), Some(1));
    assert_eq!(d.seek(Policy::Right, 0, 2, 1, 'b'), Some(2));
    assert_eq!(d.seek(Policy::Left, 0, 2, 1, 'a'), None);
}

#[test]
fn accumulator_narrows_and_reports_complete_words() {
    let d = dict_of(&["a", "ab", "abc"]);
    let fresh = DictAcc::new(0, d.r());
    assert_eq!(fresh.offset, 0);
    assert!(!fresh.is_final);
    let one = fresh.transit('a', &d).unwrap();
    assert_eq!(one.offset, 1);
    assert!(one.is_final);
    assert_eq!((one.l, one.r), (0, 2));
    let two = one.transit('b', &d).unwrap();
    assert_eq!(two.offset, 2);
    assert!(two.is_final);
    assert_eq!((two.l, two.r), (1, 2));
    assert!(two.transit('z', &d).is_none());
}

#[test]
fn dictionary_validates_sort_order() {
    let sorted = Dict::new(vec![word("a"), word("ab"), word("b")]);
    assert!(sorted.is_sorted());
    let unsorted = Dict::new(vec![word("b"), word("a")]);
    assert!(!unsorted.is_sorted());
    let prefix_after = Dict::new(vec![word("ab"), word("a")]);
    assert!(!prefix_after.is_sorted());
}

#[test]
fn last_index_seeds_the_full_range() {
    let d = dict_of(&["a", "b", "c"]);
    assert_eq!(d.r(), 2);
    assert!(d.is_final(1, 0));
    assert!(!d.is_final(2, 0));
}

#[test]
fn better_than_prefers_fewer_unknowns_then_fewer_tokens() {
    let cheap = Edge { w: 5, unk: 0, p: 0, etype: EdgeType::Dict };
    let costly = Edge { w: 1, unk: 1, p: 0, etype: EdgeType::Dict };
    assert!(cheap.better_than(&costly));
    assert!(!costly.better_than(&cheap));
    let short = Edge { w: 1, unk: 0, p: 0, etype: EdgeType::Dict };
    assert!(short.better_than(&cheap));
}

#[test]
fn best_edge_picks_minimum_and_last_among_ties() {
    let e1 = Edge { w: 2, unk: 1, p: 1, etype: EdgeType::Dict };
    let e2 = Edge { w: 2, unk: 0, p: 2, etype: EdgeType::Dict };
    let e3 = Edge { w: 2, unk: 0, p: 3, etype: EdgeType::Dict };
    let edges = vec![e1, e2, e3];
    let best = best_edge(&edges).unwrap();
    assert_eq!(best.p, 3);
    let empty: Vec<Edge> = vec![];
    assert!(best_edge(&empty).is_none());
}

#[test]
fn boundary_tracker_follows_runs() {
    let mut t = PuncAcc::new();
    t.transit('a', Some(' '));
    assert!(!t.is_space_final());
    t.transit(' ', Some(' '));
    assert!(!t.is_space_final());
    t.transit(' ', Some('b'));
    assert!(t.is_space_final());
    assert_eq!(t.start, 1);
    t.transit('b', None);
    assert!(!t.is_space_final());
}

#[test]
fn punctuation_classes() {
    assert!(is_punc(' '));
    assert!(is_punc('\t'));
    assert!(is_punc('\n'));
    assert!(is_punc('.'));
    assert!(is_punc('!'));
    assert!(!is_punc('a'));
    assert!(!is_punc('0'));
}
