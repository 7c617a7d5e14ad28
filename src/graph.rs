//! The connectivity graph over a dictionary of encoded words.
use vstd::prelude::*;
use crate::word::{
    Word, WORD_SPACE, letter_at, letter_distance, place, single_drop, place_value,
    lemma_drop_letter, lemma_single_drop_value, lemma_adjacent_below,
};

verus! {

/// Marks an empty slot of the lookup table.
const NO_NODE: usize = usize::MAX;

/// One distinct dictionary word and the indices of the nodes it connects to.
pub struct WordNode {
    pub word: Word,
    pub connected: Vec<usize>,
}

/// Two encoded words are adjacent when exactly one letter differs.
pub open spec fn adjacent(a: int, b: int) -> bool {
    letter_distance(a, b) == 1
}

/// Encoded word of node `u`.
pub open spec fn word_of(nodes: Seq<WordNode>, u: int) -> int {
    nodes[u].word@
}

/// Whether node `u` lists node `v` among its connections.
pub open spec fn linked(nodes: Seq<WordNode>, u: int, v: int) -> bool {
    nodes[u].connected@.contains(v as usize)
}

/// Every connection names a node of the list.
pub open spec fn connections_in_range(nodes: Seq<WordNode>) -> bool {
    forall|u: int, k: int|
        0 <= u < nodes.len() && 0 <= k < nodes[u].connected@.len() ==> #[trigger] nodes[u].connected@[k]
            < nodes.len()
}

/// Node words strictly increase with the index, so no word appears twice.
pub open spec fn words_ascending(nodes: Seq<WordNode>) -> bool {
    forall|u: int, v: int| 0 <= u < v < nodes.len() ==> word_of(nodes, u) < word_of(nodes, v)
}

/// Each connection is recorded in both directions.
pub open spec fn links_symmetric(nodes: Seq<WordNode>) -> bool {
    forall|u: int, v: int|
        0 <= u < nodes.len() && 0 <= v < nodes.len() && #[trigger] linked(nodes, u, v) ==> linked(
            nodes,
            v,
            u,
        )
}

/// Connections are exactly the pairs of adjacent words.
pub open spec fn links_exact(nodes: Seq<WordNode>) -> bool {
    forall|u: int, v: int|
        0 <= u < nodes.len() && 0 <= v < nodes.len() ==> (#[trigger] linked(nodes, u, v) <==> adjacent(
            word_of(nodes, u),
            word_of(nodes, v),
        ))
}

/// Whether candidate `w` of word `v` was tried before position `pos`, drop `k`.
pub open spec fn drop_tried(v: int, w: int, p: int, pos: int, k: int) -> bool {
    single_drop(v, w, p) && (p < pos || (p == pos && letter_at(v, p) - letter_at(w, p) < k))
}

/// Whether any candidate position of `w` was tried.
pub open spec fn tried(v: int, w: int, pos: int, k: int) -> bool {
    drop_tried(v, w, 0, pos, k) || drop_tried(v, w, 1, pos, k) || drop_tried(v, w, 2, pos, k)
        || drop_tried(v, w, 3, pos, k)
}

/// Whether some word of `words` has encoded value `x`.
pub open spec fn holds_word(words: Seq<Word>, x: int) -> bool {
    exists|k: int| 0 <= k < words.len() && #[trigger] words[k]@ == x
}

/// Whether some node holds encoded word `x`.
pub open spec fn has_node(nodes: Seq<WordNode>, x: int) -> bool {
    exists|u: int| 0 <= u < nodes.len() && #[trigger] word_of(nodes, u) == x
}

/// Appending a value that a sequence lacks keeps its entries distinct.
pub proof fn lemma_push_unique(s: Seq<usize>, x: usize)
    requires
        s.no_duplicates(),
        !s.contains(x),
    ensures
        s.push(x).no_duplicates(),
{
    assert forall|i: int, j: int| 0 <= i < s.len() + 1 && 0 <= j < s.len() + 1 && i != j implies s.push(x)[i]
        != s.push(x)[j] by {
        if i == s.len() {
            assert(s[j] != x);
        } else if j == s.len() {
            assert(s[i] != x);
        }
    }
}

/// Builds the graph of `words`: one node per distinct word, in ascending order
/// of encoded value, each connected to exactly the nodes whose word differs from
/// its own at one position, each such node listed once.
pub fn connect_words(words: Vec<Word>) -> (nodes: Vec<WordNode>)
    ensures
        connections_in_range(nodes@),
        words_ascending(nodes@),
        forall|u: int| 0 <= u < nodes.len() ==> holds_word(words@, #[trigger] word_of(nodes@, u)),
        forall|k: int| 0 <= k < words.len() ==> has_node(nodes@, (#[trigger] words@[k])@),
        links_exact(nodes@),
        links_symmetric(nodes@),
        forall|u: int| 0 <= u < nodes.len() ==> (#[trigger] nodes@[u]).connected@.no_duplicates(),
{
    let space = WORD_SPACE as usize;
    let mut present: Vec<bool> = vec![false; space];
    let mut i: usize = 0;
    while i < words.len()
        invariant
            i <= words.len(),
            present.len() == space,
            space == WORD_SPACE,
            forall|x: int| 0 <= x < space ==> (present@[x] <==> exists|k: int|
                0 <= k < i && #[trigger] words@[k]@ == x),
            forall|k: int| 0 <= k < i ==> 0 <= (#[trigger] words@[k])@ < WORD_SPACE,
        decreases words.len() - i,
    {
        let x = words[i].value() as usize;
        present.set(x, true);
        proof {
            assert forall|y: int| 0 <= y < space implies (present@[y] <==> exists|k: int|
                0 <= k < i + 1 && #[trigger] words@[k]@ == y) by {
                if y == x {
                    assert(words@[i as int]@ == y);
                }
            }
        }
        i = i + 1;
    }
    let mut grid: Vec<usize> = vec![NO_NODE; space];
    let mut nodes: Vec<WordNode> = Vec::new();
    let mut v: u32 = 0;
    while v < WORD_SPACE
        invariant
            space == WORD_SPACE,
            present.len() == space,
            grid.len() == space,
            v <= WORD_SPACE,
            nodes.len() <= v,
            forall|x: int| 0 <= x < space ==> (present@[x] <==> holds_word(words@, x)),
            forall|k: int| 0 <= k < words.len() ==> 0 <= (#[trigger] words@[k])@ < WORD_SPACE,
            forall|u: int|
                0 <= u < nodes.len() ==> {
                    &&& 0 <= #[trigger] word_of(nodes@, u) < v
                    &&& present@[word_of(nodes@, u)]
                    &&& grid@[word_of(nodes@, u)] == u
                },
            forall|x: int|
                0 <= x < space && #[trigger] grid@[x] != NO_NODE ==> grid@[x] < nodes.len()
                    && word_of(nodes@, grid@[x] as int) == x,
            forall|x: int| 0 <= x < v && present@[x] ==> #[trigger] grid@[x] != NO_NODE,
            words_ascending(nodes@),
            connections_in_range(nodes@),
            forall|u: int| 0 <= u < nodes.len() ==> (#[trigger] nodes@[u]).connected@.no_duplicates(),
            links_exact(nodes@),
        decreases WORD_SPACE - v,
    {
        if present[v as usize] {
            let idx = nodes.len();
            let w = Word::from_value(v);
            let ghost prev = nodes@;
            nodes.push(WordNode { word: w, connected: Vec::new() });
            grid.set(v as usize, idx);
            proof {
                assert forall|u: int| 0 <= u < idx implies #[trigger] word_of(nodes@, u) == word_of(prev, u)
                    && nodes@[u] == prev[u] by {
                    assert(nodes@[u] == prev[u]);
                }
                assert forall|u: int, u2: int| 0 <= u < u2 < nodes.len() implies word_of(nodes@, u)
                    < word_of(nodes@, u2) by {
                    if u2 < idx {
                        assert(word_of(prev, u) < word_of(prev, u2));
                    }
                }
                assert forall|u: int, u2: int| 0 <= u < idx && 0 <= u2 < idx implies #[trigger] linked(nodes@, u, u2)
                    == linked(prev, u, u2) by {
                    assert(nodes@[u] == prev[u]);
                }
                assert forall|u: int| 0 <= u <= idx implies !(#[trigger] linked(nodes@, u, idx as int)) && !linked(nodes@, idx as int, u) by {
                    if u < idx {
                        assert(nodes@[u] == prev[u]);
                    }
                }
            }
            let mut dim: u32 = 0;
            while dim < 4
                invariant
                    dim <= 4,
                    space == WORD_SPACE,
                    grid.len() == space,
                    v < WORD_SPACE,
                    w@ == v,
                    nodes.len() == idx + 1,
                    word_of(nodes@, idx as int) == v,
                    forall|u: int|
                        0 <= u < idx ==> {
                            &&& 0 <= #[trigger] word_of(nodes@, u) < v
                            &&& grid@[word_of(nodes@, u)] == u
                        },
                    forall|x: int|
                        0 <= x < space && #[trigger] grid@[x] != NO_NODE ==> grid@[x] < nodes.len()
                            && word_of(nodes@, grid@[x] as int) == x,
                    words_ascending(nodes@),
                    connections_in_range(nodes@),
                    forall|u: int| 0 <= u < nodes.len() ==> (#[trigger] nodes@[u]).connected@.no_duplicates(),
                    forall|u: int, u2: int|
                        0 <= u < idx && 0 <= u2 < idx ==> (#[trigger] linked(nodes@, u, u2)
                            <==> adjacent(word_of(nodes@, u), word_of(nodes@, u2))),
                    forall|u: int|
                        0 <= u <= idx ==> (#[trigger] linked(nodes@, u, idx as int) <==> tried(
                            v as int,
                            word_of(nodes@, u),
                            dim as int,
                            1,
                        )),
                    forall|u: int|
                        0 <= u <= idx ==> (#[trigger] linked(nodes@, idx as int, u) <==> tried(
                            v as int,
                            word_of(nodes@, u),
                            dim as int,
                            1,
                        )),
                decreases 4 - dim,
            {
                let p = place_value(dim);
                let letter = w.get_letter(dim);
                let mut k: u32 = 1;
                while k <= letter
                    invariant
                        dim < 4,
                        1 <= k <= letter + 1,
                        letter as int == letter_at(v as int, dim as int),
                        letter < 26,
                        p as int == place(dim as int),
                        space == WORD_SPACE,
                        grid.len() == space,
                        v < WORD_SPACE,
                        nodes.len() == idx + 1,
                        word_of(nodes@, idx as int) == v,
                        forall|u: int|
                            0 <= u < idx ==> {
                                &&& 0 <= #[trigger] word_of(nodes@, u) < v
                                &&& grid@[word_of(nodes@, u)] == u
                            },
                        forall|x: int|
                            0 <= x < space && #[trigger] grid@[x] != NO_NODE ==> grid@[x] < nodes.len()
                                && word_of(nodes@, grid@[x] as int) == x,
                        words_ascending(nodes@),
                        connections_in_range(nodes@),
                        forall|u: int| 0 <= u < nodes.len() ==> (#[trigger] nodes@[u]).connected@.no_duplicates(),
                        forall|u: int, u2: int|
                            0 <= u < idx && 0 <= u2 < idx ==> (#[trigger] linked(nodes@, u, u2)
                                <==> adjacent(word_of(nodes@, u), word_of(nodes@, u2))),
                        forall|u: int|
                            0 <= u <= idx ==> (#[trigger] linked(nodes@, u, idx as int) <==> tried(
                                v as int,
                                word_of(nodes@, u),
                                dim as int,
                                k as int,
                            )),
                        forall|u: int|
                            0 <= u <= idx ==> (#[trigger] linked(nodes@, idx as int, u) <==> tried(
                                v as int,
                                word_of(nodes@, u),
                                dim as int,
                                k as int,
                            )),
                    decreases letter + 1 - k,
                {
                    proof {
                        lemma_drop_letter(v as int, dim as int, k as int);
                    }
                    let t = v - k * p;
                    let j = grid[t as usize];
                    if j != NO_NODE {
                        let ghost before = nodes@;
                        proof {
                            let x = word_of(nodes@, j as int);
                            assert(x == t);
                            assert(!tried(v as int, x, dim as int, k as int));
                            assert(!linked(nodes@, j as int, idx as int));
                            assert(!linked(nodes@, idx as int, j as int));
                            lemma_push_unique(nodes@[j as int].connected@, idx);
                            lemma_push_unique(nodes@[idx as int].connected@, j);
                        }
                        nodes[j].connected.push(idx);
                        nodes[idx].connected.push(j);
                        proof {
                            assert(j < idx);
                            assert forall|u: int, u2: int|
                                0 <= u < nodes.len() && 0 <= u2 < nodes.len() implies #[trigger] linked(nodes@, u, u2) == (
                                    linked(before, u, u2) || (u == j && u2 == idx) || (u == idx && u2 == j)) by {
                                if u == j {
                                    assert(nodes@[u].connected@ == before[u].connected@.push(idx));
                                    if u2 == idx {
                                        assert(nodes@[u].connected@.last() == idx);
                                    }
                                    if linked(before, u, u2) {
                                        let m = choose|m: int| 0 <= m < before[u].connected@.len() && before[u].connected@[m] == u2 as usize;
                                        assert(nodes@[u].connected@[m] == u2 as usize);
                                    }
                                } else if u == idx {
                                    assert(nodes@[u].connected@ == before[u].connected@.push(j));
                                    if u2 == j {
                                        assert(nodes@[u].connected@.last() == j);
                                    }
                                    if linked(before, u, u2) {
                                        let m = choose|m: int| 0 <= m < before[u].connected@.len() && before[u].connected@[m] == u2 as usize;
                                        assert(nodes@[u].connected@[m] == u2 as usize);
                                    }
                                } else {
                                    assert(nodes@[u] == before[u]);
                                }
                            }
                            assert forall|u: int| 0 <= u < nodes.len() implies #[trigger] word_of(nodes@, u) == word_of(before, u) by {
                            }
                            assert forall|u: int| 0 <= u < nodes.len() implies (#[trigger] nodes@[u]).connected@.no_duplicates() by {
                                if u != j && u != idx {
                                    assert(nodes@[u] == before[u]);
                                }
                            }
                            assert forall|u: int, k2: int| 0 <= u < nodes.len() && 0 <= k2 < nodes@[u].connected@.len()
                                implies #[trigger] nodes@[u].connected@[k2] < nodes.len() by {
                                if u != j && u != idx {
                                    assert(nodes@[u] == before[u]);
                                } else if k2 < before[u].connected@.len() {
                                    assert(nodes@[u].connected@[k2] == before[u].connected@[k2]);
                                }
                            }
                        }
                    }
                    proof {
                        assert forall|u: int|
                            0 <= u <= idx implies (tried(v as int, word_of(nodes@, u), dim as int, k + 1)
                                <==> (tried(v as int, word_of(nodes@, u), dim as int, k as int)
                                || word_of(nodes@, u) == t)) by {
                            let x = word_of(nodes@, u);
                            if u < idx {
                                assert(0 <= x < v);
                            }
                            if single_drop(v as int, x, dim as int) {
                                lemma_single_drop_value(v as int, x, dim as int);
                            }
                            if x == t {
                                assert(single_drop(v as int, x, dim as int));
                            }
                        }
                        assert forall|u: int| 0 <= u <= idx && word_of(nodes@, u) == t implies u == j by {
                            if u == idx {
                                assert(t < v);
                            }
                        }
                    }
                    k = k + 1;
                }
                proof {
                    assert forall|u: int|
                        0 <= u <= idx implies (tried(v as int, #[trigger] word_of(nodes@, u), dim as int, letter + 1)
                            <==> tried(v as int, word_of(nodes@, u), dim + 1, 1)) by {
                    }
                }
                dim = dim + 1;
            }
            proof {
                assert forall|u: int|
                    0 <= u <= idx implies (tried(v as int, #[trigger] word_of(nodes@, u), 4, 1)
                        <==> adjacent(v as int, word_of(nodes@, u))) by {
                    let x = word_of(nodes@, u);
                    if u < idx {
                        assert(0 <= x < v);
                        if adjacent(v as int, x) {
                            let q = lemma_adjacent_below(v as int, x);
                            assert(drop_tried(v as int, x, q, 4, 1));
                        }
                        if tried(v as int, x, 4, 1) {
                            if single_drop(v as int, x, 0) { lemma_single_drop_value(v as int, x, 0); }
                            if single_drop(v as int, x, 1) { lemma_single_drop_value(v as int, x, 1); }
                            if single_drop(v as int, x, 2) { lemma_single_drop_value(v as int, x, 2); }
                            if single_drop(v as int, x, 3) { lemma_single_drop_value(v as int, x, 3); }
                        }
                    }
                }
                assert forall|u: int, u2: int|
                    0 <= u < nodes.len() && 0 <= u2 < nodes.len() implies (#[trigger] linked(nodes@, u, u2)
                        <==> adjacent(word_of(nodes@, u), word_of(nodes@, u2))) by {
                    if u == idx {
                        assert(linked(nodes@, idx as int, u2) == tried(v as int, word_of(nodes@, u2), 4, 1));
                    } else if u2 == idx {
                        assert(linked(nodes@, u, idx as int) == tried(v as int, word_of(nodes@, u), 4, 1));
                    }
                }
                assert forall|x: int| 0 <= x < v + 1 && present@[x] implies #[trigger] grid@[x] != NO_NODE by {
                    if x < v {
                        assert(grid@[x] != NO_NODE);
                    }
                }
            }
        }
        v = v + 1;
    }
    proof {
        assert forall|k: int| 0 <= k < words.len() implies has_node(nodes@, (#[trigger] words@[k])@) by {
            let x = words@[k]@;
            assert(holds_word(words@, x));
            assert(grid@[x] != NO_NODE);
            let u = grid@[x] as int;
            assert(word_of(nodes@, u) == x);
        }
        assert forall|u: int, u2: int|
            0 <= u < nodes.len() && 0 <= u2 < nodes.len() && #[trigger] linked(nodes@, u, u2) implies linked(
                nodes@, u2, u) by {
            assert(linked(nodes@, u2, u) == adjacent(word_of(nodes@, u2), word_of(nodes@, u)));
        }
    }
    nodes
}

} // verus!
