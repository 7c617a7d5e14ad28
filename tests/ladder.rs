use word_weave::graph::{connect_words, WordNode};
use word_weave::search::{weave, SearchError};
use word_weave::word::{encode_all, BadWord, Word, WordError};

fn w(s: &str) -> Word {
    Word::new(s).unwrap()
}

fn texts(list: &[&str]) -> Vec<String> {
    list.iter().map(|s| s.to_string()).collect()
}

fn graph(list: &[&str]) -> Vec<WordNode> {
    connect_words(list.iter().map(|s| w(s)).collect())
}

fn index_of(nodes: &[WordNode], s: &str) -> usize {
    nodes.iter().position(|n| n.word == w(s)).unwrap()
}

fn path_text(path: &[Word]) -> Vec<String> {
    path.iter().map(|x| x.to_string()).collect()
}

fn path_cost(path: &[Word]) -> u32 {
    path.windows(2).map(|p| p[0].distance(p[1]) as u32).sum()
}

#[test]
fn encode_values() {
    assert_eq!(w("aaaa").value(), 0);
    assert_eq!(w("abcd").value(), 731);
    assert_eq!(w("zzzz").value(), 456975);
    assert_eq!(w("baaa").value(), 17576);
}

#[test]
fn round_trip_words() {
    for s in ["aaaa", "abcd", "zzzz", "word", "lady", "qxjz"] {
        assert_eq!(w(s).to_string(), s);
    }
}

#[test]
fn encode_rejects_wrong_length() {
    assert_eq!(Word::new("abc"), Err(WordError::WrongLength(3)));
    assert_eq!(Word::new("abcde"), Err(WordError::WrongLength(5)));
    assert_eq!(Word::new(""), Err(WordError::WrongLength(0)));
}

#[test]
fn encode_rejects_non_letters() {
    assert_eq!(Word::new("abCd"), Err(WordError::NotALetter(2)));
    assert_eq!(Word::new("1bcd"), Err(WordError::NotALetter(0)));
    assert_eq!(Word::new("ab d"), Err(WordError::NotALetter(2)));
    assert_eq!(Word::new("abcé"), Err(WordError::NotALetter(3)));
}

#[test]
fn letters_by_position() {
    let x = w("lazy");
    assert_eq!(x.get_letter(0), 11);
    assert_eq!(x.get_letter(1), 0);
    assert_eq!(x.get_letter(2), 25);
    assert_eq!(x.get_letter(3), 24);
}

#[test]
fn distance_laws_on_values() {
    let a = w("abcd");
    let b = w("abce");
    let c = w("zyxw");
    assert_eq!(a.distance(a), 0);
    assert_eq!(a.distance(b), 1);
    assert_eq!(b.distance(a), 1);
    assert_eq!(a.distance(c), 4);
    assert_eq!(c.distance(a), 4);
    assert_eq!(w("abcd").distance(w("bbce")), 2);
}

#[test]
fn encode_all_accepts_valid_list() {
    let ws = encode_all(&texts(&["abcd", "zzzz"])).unwrap();
    assert_eq!(ws, vec![w("abcd"), w("zzzz")]);
}

#[test]
fn encode_all_lists_every_bad_word() {
    let r = encode_all(&texts(&["abcd", "ab", "aBcd", "zzzz", "toolong"]));
    assert_eq!(
        r,
        Err(vec![
            BadWord { index: 1, fault: WordError::WrongLength(2) },
            BadWord { index: 2, fault: WordError::NotALetter(1) },
            BadWord { index: 4, fault: WordError::WrongLength(7) },
        ])
    );
}

#[test]
fn graph_dedups_and_sorts() {
    let nodes = graph(&["abcf", "abcd", "abcf", "aacd", "abcd"]);
    let words: Vec<String> = nodes.iter().map(|n| n.word.to_string()).collect();
    assert_eq!(words, vec!["aacd", "abcd", "abcf"]);
}

#[test]
fn graph_scenario_adjacency() {
    let nodes = graph(&["abcd", "abce", "abcf", "aacd"]);
    let d = index_of(&nodes, "abcd");
    let e = index_of(&nodes, "abce");
    let f = index_of(&nodes, "abcf");
    let a = index_of(&nodes, "aacd");
    let linked = |u: usize, v: usize| nodes[u].connected.contains(&v);
    assert!(linked(d, e) && linked(e, d));
    assert!(linked(d, f) && linked(f, d));
    assert!(linked(e, f) && linked(f, e));
    assert!(linked(d, a) && linked(a, d));
    assert!(!linked(a, e) && !linked(e, a));
    assert!(!linked(a, f) && !linked(f, a));
}

#[test]
fn graph_links_are_symmetric() {
    let nodes = graph(&["cold", "cord", "card", "ward", "warm", "word", "worm", "cola", "bold"]);
    for (u, n) in nodes.iter().enumerate() {
        for &v in &n.connected {
            assert!(nodes[v].connected.contains(&u));
            assert_eq!(n.word.distance(nodes[v].word), 1);
        }
    }
}

#[test]
fn scenario_path_abcd_to_abcf() {
    let nodes = graph(&["abcd", "abce", "abcf", "aacd"]);
    let path = weave(w("abcd"), w("abcf"), &nodes).unwrap().unwrap();
    assert_eq!(path_text(&path), vec!["abcd", "abcf"]);
    assert_eq!(path_cost(&path), 1);
}

#[test]
fn start_equals_end() {
    let nodes = graph(&["abcd", "abce"]);
    let path = weave(w("abcd"), w("abcd"), &nodes).unwrap().unwrap();
    assert_eq!(path_text(&path), vec!["abcd"]);
    assert_eq!(path_cost(&path), 0);
}

#[test]
fn start_or_end_missing() {
    let nodes = graph(&["abcd", "abce"]);
    assert_eq!(weave(w("zzzz"), w("abcd"), &nodes), Err(SearchError::StartOrEndNotInGraph));
    assert_eq!(weave(w("abcd"), w("zzzz"), &nodes), Err(SearchError::StartOrEndNotInGraph));
}

#[test]
fn no_path_is_none() {
    let nodes = graph(&["abcd", "abce", "wxyz"]);
    assert_eq!(weave(w("abcd"), w("wxyz"), &nodes), Ok(None));
}

#[test]
fn cold_to_warm() {
    let nodes = graph(&["cold", "cord", "card", "ward", "warm", "word", "worm", "bold"]);
    let path = weave(w("cold"), w("warm"), &nodes).unwrap().unwrap();
    assert_eq!(path.first(), Some(&w("cold")));
    assert_eq!(path.last(), Some(&w("warm")));
    assert_eq!(path_cost(&path), 4);
    for p in path.windows(2) {
        assert_eq!(p[0].distance(p[1]), 1);
    }
}

#[test]
fn repeated_searches_agree() {
    let list = ["cold", "cord", "card", "ward", "warm", "word", "worm", "bold"];
    let first = weave(w("cold"), w("warm"), &graph(&list));
    for _ in 0..3 {
        assert_eq!(weave(w("cold"), w("warm"), &graph(&list)), first);
    }
}

/// Cheapest cost by exhaustive search over simple walks.
fn brute_cost(nodes: &[WordNode], u: usize, goal: usize, seen: &mut Vec<bool>) -> Option<u32> {
    if u == goal {
        return Some(0);
    }
    seen[u] = true;
    let mut best: Option<u32> = None;
    for &v in &nodes[u].connected {
        if !seen[v] {
            if let Some(c) = brute_cost(nodes, v, goal, seen) {
                let c = c + nodes[u].word.distance(nodes[v].word) as u32;
                best = Some(best.map_or(c, |b| b.min(c)));
            }
        }
    }
    seen[u] = false;
    best
}

#[test]
fn search_matches_exhaustive_cost() {
    let list = ["aaaa", "baaa", "bbaa", "bbba", "bbbb", "abbb", "aabb", "abab", "baba", "cccc", "cbbb"];
    let nodes = graph(&list);
    for s in list {
        for e in list {
            let si = index_of(&nodes, s);
            let ei = index_of(&nodes, e);
            let expect = brute_cost(&nodes, si, ei, &mut vec![false; nodes.len()]);
            let got = weave(w(s), w(e), &nodes).unwrap();
            assert_eq!(got.as_ref().map(|p| path_cost(p)), expect, "{s} -> {e}");
        }
    }
}

#[test]
fn connections_listed_once() {
    let nodes = graph(&["abcd", "abce", "abcf", "aacd", "zbcd", "abzd"]);
    for n in &nodes {
        let mut c = n.connected.clone();
        c.sort();
        c.dedup();
        assert_eq!(c.len(), n.connected.len());
    }
    let d = index_of(&nodes, "abcd");
    assert_eq!(nodes[d].connected.len(), 5);
}
