//! Best-first search for a cheapest ladder between two words of the graph.
use vstd::prelude::*;
use vstd::set_lib::{set_int_range, lemma_int_range, lemma_len_subset};
use crate::word::{Word, WORD_SPACE, letter_distance};
use crate::graph::{WordNode, word_of, linked, connections_in_range, words_ascending, has_node};
use crate::walk::{
    well_formed, is_path, step_cost, path_cost, connects, path_words, is_cheapest, reachable,
    lemma_distance_zero, lemma_distance_below_cost, lemma_cost_split, lemma_prefix_path,
    lemma_cost_nonneg, lemma_cost_prepend, lemma_nodes_bounded,
};

verus! {

/// The encoded values of a sequence of words.
pub open spec fn word_values(ws: Seq<Word>) -> Seq<int> {
    ws.map_values(|w: Word| w@)
}

/// Why a search could not start.
#[derive(Debug, Clone, Copy, PartialEq, Eq, Structural)]
pub enum SearchError {
    /// The start or the end word holds no node of the graph.
    StartOrEndNotInGraph,
}

/// Marks a node with no predecessor.
pub const NO_PREV: usize = usize::MAX;

/// The index of the node holding word `w`, if any.
fn find_node(nodes: &Vec<WordNode>, w: Word) -> (r: Option<usize>)
    ensures
        r matches Some(u) ==> u < nodes.len() && word_of(nodes@, u as int) == w@,
        r is None ==> !has_node(nodes@, w@),
{
    let mut i: usize = 0;
    while i < nodes.len()
        invariant
            i <= nodes.len(),
            forall|j: int| 0 <= j < i ==> #[trigger] word_of(nodes@, j) != w@,
        decreases nodes.len() - i,
    {
        if nodes[i].word.value() == w.value() {
            return Some(i);
        }
        i = i + 1;
    }
    None
}

/// Cost marking a node that the search has not reached.
pub const UNREACHED: u64 = u64::MAX;

/// Every connection leaving a reached node that is off the frontier is
/// relaxed: its far end costs no more than the near end plus the step.
pub open spec fn relaxed(nodes: Seq<WordNode>, g: Seq<u64>, open: Seq<bool>) -> bool {
    forall|u: int, k: int|
        0 <= u < nodes.len() && !open[u] && g[u] < UNREACHED && 0 <= k < nodes[u].connected@.len()
            ==> g[#[trigger] nodes[u].connected@[k] as int] <= g[u] + step_cost(
            nodes,
            u,
            nodes[u].connected@[k] as int,
        )
}

/// Along any walk from the start, either some node on the frontier is reached
/// no dearer than along the walk, or the walk's last node is.
pub proof fn lemma_frontier(nodes: Seq<WordNode>, g: Seq<u64>, open: Seq<bool>, s: int, q: Seq<int>)
    requires
        connections_in_range(nodes),
        nodes.len() <= usize::MAX,
        g.len() == nodes.len(),
        open.len() == nodes.len(),
        relaxed(nodes, g, open),
        is_path(nodes, q),
        q[0] == s,
        g[s] == 0,
    ensures
        (exists|i: int| 0 <= i < q.len() && open[q[i]] && g[q[i]] <= #[trigger] path_cost(nodes, q.take(i + 1)))
            || g[q.last()] <= path_cost(nodes, q),
    decreases q.len(),
{
    if q.len() > 1 {
        let r = q.drop_last();
        lemma_prefix_path(nodes, q, q.len() - 2);
        assert(q.take(q.len() - 1) =~= r);
        lemma_frontier(nodes, g, open, s, r);
        if exists|i: int| 0 <= i < r.len() && open[r[i]] && g[r[i]] <= #[trigger] path_cost(nodes, r.take(i + 1)) {
            let i = choose|i: int| 0 <= i < r.len() && open[r[i]] && g[r[i]] <= #[trigger] path_cost(nodes, r.take(i + 1));
            assert(r.take(i + 1) =~= q.take(i + 1));
            assert(open[q[i]] && g[q[i]] <= path_cost(nodes, q.take(i + 1)));
        } else {
            let u = r.last();
            let v = q.last();
            if open[u] {
                assert(open[q[q.len() - 2]] && g[q[q.len() - 2]] <= path_cost(nodes, q.take(q.len() - 2 + 1)));
            } else if g[u] < UNREACHED {
                assert(linked(nodes, q[q.len() - 2], q[q.len() - 1]));
                assert((v as usize) as int == v);
        let k = choose|k: int| 0 <= k < nodes[u].connected@.len() && nodes[u].connected@[k] == v as usize;
                assert(g[nodes[u].connected@[k] as int] <= g[u] + step_cost(nodes, u, nodes[u].connected@[k] as int));
            } else {
                assert(path_cost(nodes, r) >= 0) by {
                    lemma_cost_nonneg(nodes, r);
                }
            }
        }
    }
}

/// With the frontier empty and every reached cost far below the sentinel,
/// every walk from the start ends at a reached node.
pub proof fn lemma_all_reached(nodes: Seq<WordNode>, g: Seq<u64>, open: Seq<bool>, s: int, q: Seq<int>)
    requires
        connections_in_range(nodes),
        nodes.len() <= usize::MAX,
        g.len() == nodes.len(),
        open.len() == nodes.len(),
        relaxed(nodes, g, open),
        forall|v: int| 0 <= v < nodes.len() ==> !open[v],
        forall|v: int| 0 <= v < nodes.len() && g[v] < UNREACHED ==> g[v] + 4 < UNREACHED,
        is_path(nodes, q),
        q[0] == s,
        g[s] == 0,
    ensures
        g[q.last()] < UNREACHED,
    decreases q.len(),
{
    if q.len() > 1 {
        let r = q.drop_last();
        lemma_prefix_path(nodes, q, q.len() - 2);
        assert(q.take(q.len() - 1) =~= r);
        lemma_all_reached(nodes, g, open, s, r);
        let u = r.last();
        let v = q.last();
        assert(linked(nodes, q[q.len() - 2], q[q.len() - 1]));
        assert((v as usize) as int == v);
        let k = choose|k: int| 0 <= k < nodes[u].connected@.len() && nodes[u].connected@[k] == v as usize;
        assert(g[nodes[u].connected@[k] as int] <= g[u] + step_cost(nodes, u, nodes[u].connected@[k] as int));
    }
}

/// Nodes reached so far: those with a cost below the sentinel.
pub open spec fn reached_set(g: Seq<u64>) -> Set<int> {
    set_int_range(0, g.len() as int).filter(|v: int| g[v] < UNREACHED)
}

/// Search state: costs, frontier marks and predecessors, as every round
/// of the search leaves them.
pub open spec fn search_state(
    nodes: Seq<WordNode>,
    s: int,
    e: int,
    g: Seq<u64>,
    open: Seq<bool>,
    came: Seq<usize>,
) -> bool {
    &&& well_formed(nodes)
    &&& nodes.len() <= WORD_SPACE
    &&& 0 <= s < nodes.len()
    &&& g.len() == nodes.len()
    &&& open.len() == nodes.len()
    &&& came.len() == nodes.len()
    &&& g[s] == 0
    &&& came[s] == NO_PREV
    &&& forall|v: int| 0 <= v < nodes.len() && #[trigger] open[v] ==> g[v] < UNREACHED
    &&& forall|v: int|
        0 <= v < nodes.len() && #[trigger] word_of(nodes, v) == e && g[v] < UNREACHED ==> open[v]
    &&& predecessors_ok(nodes, s, g, came)
    &&& forall|v: int|
        0 <= v < nodes.len() && #[trigger] g[v] < UNREACHED ==> g[v] <= 4 * (reached_set(g).len() - 1)
}

/// Each reached node but the start names a distinct predecessor that connects
/// to it and was reached at least one step cheaper.
pub open spec fn predecessors_ok(nodes: Seq<WordNode>, s: int, g: Seq<u64>, came: Seq<usize>) -> bool {
    forall|v: int|
        0 <= v < nodes.len() && v != s && #[trigger] g[v] < UNREACHED ==> {
            &&& came[v] < nodes.len()
            &&& came[v] != v
            &&& linked(nodes, came[v] as int, v)
            &&& g[came[v] as int] + step_cost(nodes, came[v] as int, v) <= g[v]
        }
}

/// Estimated total cost through node `u`: its reached cost plus its letter
/// distance to `e`.
pub open spec fn estimate(nodes: Seq<WordNode>, g: Seq<u64>, e: int, u: int) -> int {
    g[u] + letter_distance(word_of(nodes, u), e)
}

/// Among nodes `0..i`, the frontier node of least estimate, the lowest index
/// on ties; `nodes.len()` when none is on the frontier.
pub open spec fn pick_upto(nodes: Seq<WordNode>, g: Seq<u64>, open: Seq<bool>, e: int, i: int) -> int
    decreases i,
{
    if i <= 0 {
        nodes.len() as int
    } else {
        let b = pick_upto(nodes, g, open, e, i - 1);
        if open[i - 1] && (b == nodes.len() || estimate(nodes, g, e, i - 1) < estimate(nodes, g, e, b)) {
            i - 1
        } else {
            b
        }
    }
}

/// The node the search expands next.
pub open spec fn pick(nodes: Seq<WordNode>, g: Seq<u64>, open: Seq<bool>, e: int) -> int {
    pick_upto(nodes, g, open, e, nodes.len() as int)
}

/// The frontier node of least estimate, lowest index first; `nodes.len()`
/// when the frontier is empty.
fn select_best(nodes: &Vec<WordNode>, end: Word, g: &Vec<u64>, open: &Vec<bool>) -> (best: usize)
    requires
        g.len() == nodes.len(),
        open.len() == nodes.len(),
        forall|v: int| 0 <= v < nodes.len() && #[trigger] open@[v] ==> g@[v] <= 4 * WORD_SPACE,
    ensures
        best <= nodes.len(),
        best == pick(nodes@, g@, open@, end@),
        best == nodes.len() <==> forall|v: int| 0 <= v < nodes.len() ==> !open@[v],
        best < nodes.len() ==> open@[best as int] && forall|v: int|
            0 <= v < nodes.len() && #[trigger] open@[v] ==> estimate(nodes@, g@, end@, best as int)
                <= estimate(nodes@, g@, end@, v),
        forall|v: int|
            0 <= v < best && #[trigger] open@[v] ==> estimate(nodes@, g@, end@, best as int) < estimate(
                nodes@,
                g@,
                end@,
                v,
            ),
{
    let n = nodes.len();
    let mut best: usize = n;
    let mut best_f: u64 = 0;
    let mut i: usize = 0;
    while i < n
        invariant
            i <= n,
            n == nodes.len(),
            g.len() == n,
            open.len() == n,
            forall|v: int| 0 <= v < n && #[trigger] open@[v] ==> g@[v] <= 4 * WORD_SPACE,
            best == n || (best < i && open@[best as int] && best_f == estimate(nodes@, g@, end@, best as int)),
            best == pick_upto(nodes@, g@, open@, end@, i as int),
            forall|j: int|
                0 <= j < i && #[trigger] open@[j] ==> best != n && best_f <= estimate(nodes@, g@, end@, j),
            forall|j: int| 0 <= j < best && j < i && #[trigger] open@[j] ==> best_f < estimate(nodes@, g@, end@, j),
        decreases n - i,
    {
        if open[i] {
            let f = g[i] + nodes[i].word.distance(end) as u64;
            if best == n || f < best_f {
                best = i;
                best_f = f;
            }
        }
        i = i + 1;
    }
    best
}

/// The words along the predecessor chain ending at `v`, first to last; the
/// chain stops at a node whose predecessor is missing or not cheaper.
pub open spec fn trail(nodes: Seq<WordNode>, g: Seq<u64>, came: Seq<usize>, v: int) -> Seq<int>
    decreases g[v],
{
    if 0 <= v < g.len() && came[v] < g.len() && g[came[v] as int] < g[v] {
        trail(nodes, g, came, came[v] as int).push(word_of(nodes, v))
    } else {
        seq![word_of(nodes, v)]
    }
}

/// Following one more predecessor moves its word from the chain to the walk.
pub proof fn lemma_trail_step(
    nodes: Seq<WordNode>,
    g: Seq<u64>,
    came: Seq<usize>,
    best: int,
    node: int,
    chain: Seq<int>,
)
    requires
        0 <= node < g.len(),
        came[node] < g.len(),
        g[came[node] as int] < g[node],
        chain.len() >= 1,
        chain[0] == node,
        trail(nodes, g, came, best) == trail(nodes, g, came, node) + path_words(nodes, chain).skip(1),
    ensures
        trail(nodes, g, came, best) == trail(nodes, g, came, came[node] as int) + path_words(
            nodes,
            seq![came[node] as int] + chain,
        ).skip(1),
{
    let prev = came[node] as int;
    let c2 = seq![prev] + chain;
    assert(trail(nodes, g, came, node) == trail(nodes, g, came, prev).push(word_of(nodes, node)));
    assert(path_words(nodes, c2).skip(1) =~= path_words(nodes, chain));
    assert(path_words(nodes, chain) =~= seq![word_of(nodes, node)] + path_words(nodes, chain).skip(1));
    assert(trail(nodes, g, came, best) =~= trail(nodes, g, came, prev) + path_words(nodes, c2).skip(1));
}

/// The predecessor of a reached node other than the start connects to it and
/// was reached strictly cheaper.
pub proof fn lemma_predecessor(nodes: Seq<WordNode>, s: int, g: Seq<u64>, came: Seq<usize>, node: int)
    requires
        well_formed(nodes),
        g.len() == nodes.len(),
        came.len() == nodes.len(),
        predecessors_ok(nodes, s, g, came),
        0 <= node < nodes.len(),
        node != s,
        g[node] < UNREACHED,
    ensures
        came[node] < nodes.len(),
        linked(nodes, came[node] as int, node),
        g[came[node] as int] + step_cost(nodes, came[node] as int, node) <= g[node],
        g[came[node] as int] < g[node],
{
    let prev = came[node] as int;
    assert(word_of(nodes, prev) != word_of(nodes, node));
    if step_cost(nodes, prev, node) == 0 {
        lemma_distance_zero(word_of(nodes, prev), word_of(nodes, node));
    }
}

/// Stepping from `node` back to its predecessor extends the walk to `best`
/// by one node in front, keeping its cost within `best`'s.
pub proof fn lemma_chain_extend(
    nodes: Seq<WordNode>,
    g: Seq<u64>,
    came: Seq<usize>,
    best: int,
    gb: int,
    node: int,
    chain: Seq<int>,
) -> (c2: Seq<int>)
    requires
        g.len() == nodes.len(),
        0 <= node < nodes.len(),
        came[node] < nodes.len(),
        linked(nodes, came[node] as int, node),
        g[came[node] as int] + step_cost(nodes, came[node] as int, node) <= g[node],
        g[came[node] as int] < g[node],
        is_path(nodes, chain),
        chain[0] == node,
        chain.last() == best,
        path_cost(nodes, chain) + g[node] <= gb,
        trail(nodes, g, came, best) == trail(nodes, g, came, node) + path_words(nodes, chain).skip(1),
    ensures
        c2 == seq![came[node] as int] + chain,
        is_path(nodes, c2),
        path_cost(nodes, c2) + g[came[node] as int] <= gb,
        trail(nodes, g, came, best) == trail(nodes, g, came, came[node] as int) + path_words(nodes, c2).skip(1),
{
    let prev = came[node] as int;
    let c2 = seq![prev] + chain;
    lemma_cost_prepend(nodes, prev, chain);
    lemma_trail_step(nodes, g, came, best, node, chain);
    assert forall|j: int| 0 <= j < c2.len() - 1 implies linked(nodes, #[trigger] c2[j], c2[j + 1]) by {
        if j > 0 {
            assert(c2[j] == chain[j - 1] && c2[j + 1] == chain[j]);
        }
    }
    c2
}

/// The words along the predecessor chain from the start to `best`.
#[verifier::rlimit(100)]
fn rebuild_path(
    nodes: &Vec<WordNode>,
    s: usize,
    g: &Vec<u64>,
    came: &Vec<usize>,
    best: usize,
) -> (res: Vec<Word>)
    requires
        well_formed(nodes@),
        nodes.len() <= WORD_SPACE,
        s < nodes.len(),
        best < nodes.len(),
        g.len() == nodes.len(),
        came.len() == nodes.len(),
        came@[s as int] == NO_PREV,
        predecessors_ok(nodes@, s as int, g@, came@),
        g@[best as int] < UNREACHED,
    ensures
        exists|p: Seq<int>|
            {
                &&& is_path(nodes@, p)
                &&& p[0] == s
                &&& p.last() == best
                &&& path_cost(nodes@, p) <= g@[best as int]
                &&& word_values(res@) == #[trigger] path_words(nodes@, p)
            },
        word_values(res@) == trail(nodes@, g@, came@, best as int),
{
    let n = nodes.len();
    let ghost gb = g@[best as int];
    let mut node = best;
    let mut back: Vec<usize> = Vec::new();
    let ghost mut chain: Seq<int> = seq![best as int];
    while came[node] != NO_PREV
        invariant
            n == nodes.len(),
            well_formed(nodes@),
            s < n,
            best < n,
            g.len() == n,
            came.len() == n,
            came@[s as int] == NO_PREV,
            predecessors_ok(nodes@, s as int, g@, came@),
            node < n,
            g@[node as int] < UNREACHED,
            is_path(nodes@, chain),
            chain[0] == node,
            chain.last() == best,
            path_cost(nodes@, chain) + g@[node as int] <= gb,
            chain.len() == back.len() + 1,
            forall|m: int| 1 <= m < chain.len() ==> chain[m] == back@[back.len() - m],
            trail(nodes@, g@, came@, best as int) == trail(nodes@, g@, came@, node as int) + path_words(nodes@, chain).skip(1),
        decreases g@[node as int],
    {
        let prev = came[node];
        proof {
            assert(node != s);
            lemma_predecessor(nodes@, s as int, g@, came@, node as int);
            chain = lemma_chain_extend(nodes@, g@, came@, best as int, gb as int, node as int, chain);
        }
        back.push(node);
        node = prev;
    }
    assert(node == s);
    assert(trail(nodes@, g@, came@, node as int) == seq![word_of(nodes@, node as int)]);
    assert(trail(nodes@, g@, came@, best as int) =~= path_words(nodes@, chain));
    let mut res: Vec<Word> = Vec::new();
    res.push(nodes[node].word);
    let mut m: usize = back.len();
    while m > 0
        invariant
            n == nodes.len(),
            forall|j: int| 0 <= j < chain.len() ==> 0 <= #[trigger] chain[j] < n,
            m <= back.len(),
            chain.len() == back.len() + 1,
            chain[0] == node,
            is_path(nodes@, chain),
            forall|m2: int| 1 <= m2 < chain.len() ==> chain[m2] == back@[back.len() - m2],
            res.len() == back.len() + 1 - m,
            forall|j: int| 0 <= j < res.len() ==> (#[trigger] res@[j])@ == word_of(nodes@, chain[j]),
        decreases m,
    {
        m = m - 1;
        assert(chain[back.len() - m] == back@[m as int]);
        res.push(nodes[back[m]].word);
    }
    assert(word_values(res@) =~= path_words(nodes@, chain));
    res
}

/// When the search stops at `best`, a node of word `e` of least estimate on
/// the frontier, no walk from the start to `e` costs less than `best`'s cost.
pub proof fn lemma_goal_cheapest(
    nodes: Seq<WordNode>,
    s: int,
    e: int,
    g: Seq<u64>,
    open: Seq<bool>,
    best: int,
    q: Seq<int>,
)
    requires
        connections_in_range(nodes),
        words_ascending(nodes),
        nodes.len() <= usize::MAX,
        g.len() == nodes.len(),
        open.len() == nodes.len(),
        0 <= s < nodes.len(),
        g[s] == 0,
        relaxed(nodes, g, open),
        0 <= best < nodes.len(),
        open[best],
        word_of(nodes, best) == e,
        forall|v: int| 0 <= v < nodes.len() && #[trigger] open[v] ==> estimate(nodes, g, e, best) <= estimate(nodes, g, e, v),
        connects(nodes, q, word_of(nodes, s), e),
    ensures
        g[best] <= path_cost(nodes, q),
{
    assert(q[0] == s);
    assert(q.last() == best);
    lemma_frontier(nodes, g, open, s, q);
    if exists|i: int| 0 <= i < q.len() && open[q[i]] && g[q[i]] <= #[trigger] path_cost(nodes, q.take(i + 1)) {
        let i = choose|i: int| 0 <= i < q.len() && open[q[i]] && g[q[i]] <= #[trigger] path_cost(nodes, q.take(i + 1));
        lemma_prefix_path(nodes, q, i);
        lemma_cost_split(nodes, q, i);
        lemma_distance_below_cost(nodes, q.skip(i));
        assert(q.skip(i)[0] == q[i]);
        assert(q.skip(i).last() == q.last());
        assert(estimate(nodes, g, e, best) <= estimate(nodes, g, e, q[i]));
    }
}

/// Costs, frontier marks and predecessors of a search.
pub struct SearchState {
    pub g: Seq<u64>,
    pub open: Seq<bool>,
    pub came: Seq<usize>,
}

/// The state after expanding `best` through its first `k` connections.
pub open spec fn relax_upto(nodes: Seq<WordNode>, best: int, st: SearchState, k: int) -> SearchState
    decreases k,
{
    if k <= 0 {
        SearchState { g: st.g, open: st.open.update(best, false), came: st.came }
    } else {
        let prev = relax_upto(nodes, best, st, k - 1);
        let nb = nodes[best].connected@[k - 1] as int;
        let t = st.g[best] + step_cost(nodes, best, nb);
        if t < prev.g[nb] {
            SearchState {
                g: prev.g.update(nb, t as u64),
                open: prev.open.update(nb, true),
                came: prev.came.update(nb, best as usize),
            }
        } else {
            prev
        }
    }
}

/// The state after expanding `best` through all its connections.
pub open spec fn expand(nodes: Seq<WordNode>, best: int, st: SearchState) -> SearchState {
    relax_upto(nodes, best, st, nodes[best].connected@.len() as int)
}

/// The state while `best` is expanded: as between rounds, but with `best`
/// off the frontier and only its first `k` connections relaxed.
#[verifier::opaque]
pub open spec fn expanding(
    nodes: Seq<WordNode>,
    s: int,
    e: int,
    best: int,
    k: int,
    g: Seq<u64>,
    open: Seq<bool>,
    came: Seq<usize>,
) -> bool {
    &&& well_formed(nodes)
    &&& nodes.len() <= WORD_SPACE
    &&& 0 <= s < nodes.len()
    &&& 0 <= best < nodes.len()
    &&& word_of(nodes, best) != e
    &&& g.len() == nodes.len()
    &&& open.len() == nodes.len()
    &&& came.len() == nodes.len()
    &&& 0 <= k <= nodes[best].connected@.len()
    &&& g[best] < UNREACHED
    &&& !open[best]
    &&& g[s] == 0
    &&& came[s] == NO_PREV
    &&& forall|v: int| 0 <= v < nodes.len() && #[trigger] open[v] ==> g[v] < UNREACHED
    &&& forall|v: int|
        0 <= v < nodes.len() && #[trigger] word_of(nodes, v) == e && g[v] < UNREACHED ==> open[v]
    &&& predecessors_ok(nodes, s, g, came)
    &&& forall|v: int|
        0 <= v < nodes.len() && #[trigger] g[v] < UNREACHED ==> g[v] <= 4 * (reached_set(g).len() - 1)
    &&& reached_set(g).len() <= nodes.len()
    &&& forall|u: int, k2: int|
        0 <= u < nodes.len() && !open[u] && g[u] < UNREACHED && 0 <= k2 < nodes[u].connected@.len() && (u
            != best || k2 < k) ==> g[#[trigger] nodes[u].connected@[k2] as int] <= g[u] + step_cost(
            nodes,
            u,
            nodes[u].connected@[k2] as int,
        )
}

/// Relaxing connection `k` of `best` by lowering its far end keeps the state.
#[verifier::rlimit(100)]
pub proof fn lemma_expand_lower(
    nodes: Seq<WordNode>,
    s: int,
    e: int,
    best: int,
    k: int,
    g: Seq<u64>,
    open: Seq<bool>,
    came: Seq<usize>,
    t: u64,
)
    requires
        expanding(nodes, s, e, best, k, g, open, came),
        k < nodes[best].connected@.len(),
        t == g[best] + step_cost(nodes, best, nodes[best].connected@[k] as int),
        t < g[nodes[best].connected@[k] as int],
    ensures
        expanding(
            nodes,
            s,
            e,
            best,
            k + 1,
            g.update(nodes[best].connected@[k] as int, t),
            open.update(nodes[best].connected@[k] as int, true),
            came.update(nodes[best].connected@[k] as int, best as usize),
        ),
        total(g.update(nodes[best].connected@[k] as int, t)) < total(g),
{
    reveal(expanding);
    let n = nodes.len();
    let nb = nodes[best].connected@[k] as int;
    lemma_total_update(g, nb, t);
    assert(nb != best);
    assert(nb != s);
    assert(linked(nodes, best, nb)) by {
        assert(nodes[best].connected@[k] == nb as usize);
    }
    lemma_lower_predecessors(nodes, s, g, came, best, nb, t);
    lemma_lower_bound(g, best, nb, t);
    lemma_lower_relaxed(nodes, g, open, best, k, nb, t);
}

/// Lowering the cost of `nb` to its cost through `best` keeps every
/// predecessor record valid.
pub proof fn lemma_lower_predecessors(
    nodes: Seq<WordNode>,
    s: int,
    g: Seq<u64>,
    came: Seq<usize>,
    best: int,
    nb: int,
    t: u64,
)
    requires
        predecessors_ok(nodes, s, g, came),
        g.len() == nodes.len(),
        came.len() == nodes.len(),
        nodes.len() <= WORD_SPACE,
        0 <= best < nodes.len(),
        0 <= nb < nodes.len(),
        nb != best,
        nb != s,
        linked(nodes, best, nb),
        t == g[best] + step_cost(nodes, best, nb),
        t < g[nb],
    ensures
        predecessors_ok(nodes, s, g.update(nb, t), came.update(nb, best as usize)),
{
    let g2 = g.update(nb, t);
    let came2 = came.update(nb, best as usize);
    assert forall|v: int| 0 <= v < nodes.len() && v != s && #[trigger] g2[v] < UNREACHED implies {
        &&& came2[v] < nodes.len()
        &&& came2[v] != v
        &&& linked(nodes, came2[v] as int, v)
        &&& g2[came2[v] as int] + step_cost(nodes, came2[v] as int, v) <= g2[v]
    } by {
        if v != nb {
            assert(g[v] < UNREACHED);
        }
    }
}

/// Lowering one cost keeps every reached cost within four per reached node.
pub proof fn lemma_lower_bound(g: Seq<u64>, best: int, nb: int, t: u64)
    requires
        0 <= best < g.len(),
        0 <= nb < g.len(),
        g[best] < UNREACHED,
        t <= g[best] + 4,
        t < g[nb],
        forall|v: int| 0 <= v < g.len() && #[trigger] g[v] < UNREACHED ==> g[v] <= 4 * (reached_set(g).len() - 1),
    ensures
        forall|v: int|
            0 <= v < g.len() && #[trigger] g.update(nb, t)[v] < UNREACHED ==> g.update(nb, t)[v] <= 4 * (
            reached_set(g.update(nb, t)).len() - 1),
        reached_set(g.update(nb, t)).len() <= g.len(),
{
    let g2 = g.update(nb, t);
    let n = g.len();
    lemma_int_range(0, n as int);
    lemma_len_subset(reached_set(g), set_int_range(0, n as int));
    if g[nb] == UNREACHED {
        assert(reached_set(g2) =~= reached_set(g).insert(nb));
        assert(!reached_set(g).contains(nb));
    } else {
        assert(reached_set(g2) =~= reached_set(g));
    }
    lemma_len_subset(reached_set(g2), set_int_range(0, n as int));
    assert forall|v: int| 0 <= v < n && #[trigger] g2[v] < UNREACHED implies g2[v] <= 4 * (reached_set(g2).len() - 1) by {
        if v != nb {
            assert(g[v] < UNREACHED);
        } else {
            assert(g[best] <= 4 * (reached_set(g).len() - 1));
        }
    }
}

/// Lowering the far end of connection `k` of `best` extends the relaxed
/// connections by that one.
pub proof fn lemma_lower_relaxed(
    nodes: Seq<WordNode>,
    g: Seq<u64>,
    open: Seq<bool>,
    best: int,
    k: int,
    nb: int,
    t: u64,
)
    requires
        g.len() == nodes.len(),
        open.len() == nodes.len(),
        0 <= best < nodes.len(),
        0 <= k < nodes[best].connected@.len(),
        nb == nodes[best].connected@[k],
        0 <= nb < nodes.len(),
        connections_in_range(nodes),
        nb != best,
        t == g[best] + step_cost(nodes, best, nb),
        t < g[nb],
        forall|u: int, k2: int|
            0 <= u < nodes.len() && !open[u] && g[u] < UNREACHED && 0 <= k2 < nodes[u].connected@.len() && (u
                != best || k2 < k) ==> g[#[trigger] nodes[u].connected@[k2] as int] <= g[u] + step_cost(
                nodes,
                u,
                nodes[u].connected@[k2] as int,
            ),
    ensures
        forall|u: int, k2: int|
            0 <= u < nodes.len() && !open.update(nb, true)[u] && g.update(nb, t)[u] < UNREACHED && 0 <= k2
                < nodes[u].connected@.len() && (u != best || k2 < k + 1) ==> g.update(
                nb,
                t,
            )[#[trigger] nodes[u].connected@[k2] as int] <= g.update(nb, t)[u] + step_cost(
                nodes,
                u,
                nodes[u].connected@[k2] as int,
            ),
{
    let g2 = g.update(nb, t);
    let open2 = open.update(nb, true);
    assert forall|u: int, k2: int|
        0 <= u < nodes.len() && !open2[u] && g2[u] < UNREACHED && 0 <= k2 < nodes[u].connected@.len() && (u
            != best || k2 < k + 1) implies g2[#[trigger] nodes[u].connected@[k2] as int] <= g2[u] + step_cost(
        nodes,
        u,
        nodes[u].connected@[k2] as int,
    ) by {
        let x = nodes[u].connected@[k2] as int;
        assert(0 <= x < nodes.len());
        assert(u != nb);
        assert(g2[u] == g[u]);
        if u == best && k2 == k {
            assert(x == nb);
        } else {
            assert(g[x] <= g[u] + step_cost(nodes, u, x));
            if x == nb {
                assert(g2[x] == t);
            } else {
                assert(g2[x] == g[x]);
            }
        }
    }
}

/// Skipping connection `k` of `best`, whose far end costs no more through
/// `best`, keeps the state.
pub proof fn lemma_expand_keep(
    nodes: Seq<WordNode>,
    s: int,
    e: int,
    best: int,
    k: int,
    g: Seq<u64>,
    open: Seq<bool>,
    came: Seq<usize>,
)
    requires
        expanding(nodes, s, e, best, k, g, open, came),
        k < nodes[best].connected@.len(),
        g[nodes[best].connected@[k] as int] <= g[best] + step_cost(nodes, best, nodes[best].connected@[k] as int),
    ensures
        expanding(nodes, s, e, best, k + 1, g, open, came),
{
    reveal(expanding);
}

/// Taking `best` off the frontier starts its expansion.
pub proof fn lemma_expand_start(
    nodes: Seq<WordNode>,
    s: int,
    e: int,
    best: int,
    g: Seq<u64>,
    open: Seq<bool>,
    came: Seq<usize>,
)
    requires
        search_state(nodes, s, e, g, open, came),
        relaxed(nodes, g, open),
        0 <= best < nodes.len(),
        open[best],
        word_of(nodes, best) != e,
    ensures
        expanding(nodes, s, e, best, 0, g, open.update(best, false), came),
        g[best] <= 4 * WORD_SPACE,
{
    reveal(expanding);
    lemma_int_range(0, nodes.len() as int);
    lemma_len_subset(reached_set(g), set_int_range(0, nodes.len() as int));
}

/// A finished expansion leaves a state as between rounds, fully relaxed.
pub proof fn lemma_expand_done(
    nodes: Seq<WordNode>,
    s: int,
    e: int,
    best: int,
    g: Seq<u64>,
    open: Seq<bool>,
    came: Seq<usize>,
)
    requires
        expanding(nodes, s, e, best, nodes[best].connected@.len() as int, g, open, came),
    ensures
        search_state(nodes, s, e, g, open, came),
        relaxed(nodes, g, open),
{
    reveal(expanding);
}

/// Expands `best`: takes it off the frontier and lowers the cost of every
/// node it connects to that it reaches more cheaply, recording `best` as that
/// node's predecessor and putting it back on the frontier.
#[verifier::rlimit(100)]
fn relax(
    nodes: &Vec<WordNode>,
    s: usize,
    end: Word,
    best: usize,
    g: &mut Vec<u64>,
    open: &mut Vec<bool>,
    came: &mut Vec<usize>,
)
    requires
        search_state(nodes@, s as int, end@, old(g)@, old(open)@, old(came)@),
        relaxed(nodes@, old(g)@, old(open)@),
        best < nodes.len(),
        old(open)@[best as int],
        word_of(nodes@, best as int) != end@,
    ensures
        search_state(nodes@, s as int, end@, final(g)@, final(open)@, final(came)@),
        relaxed(nodes@, final(g)@, final(open)@),
        total(final(g)@) < total(old(g)@) || (final(g)@ == old(g)@ && open_count(final(open)@) < open_count(
            old(open)@,
        )),
        total(final(g)@) >= 0,
        open_count(final(open)@) >= 0,
        (SearchState { g: final(g)@, open: final(open)@, came: final(came)@ }) == expand(
            nodes@,
            best as int,
            SearchState { g: old(g)@, open: old(open)@, came: old(came)@ },
        ),
{
    let ghost st0 = SearchState { g: g@, open: open@, came: came@ };
    let n = nodes.len();
    let ghost g_start = g@;
    let ghost open_start = open@;
    open.set(best, false);
    let ghost open_mid = open@;
    let gb = g[best];
    let mut changed = false;
    let mut k: usize = 0;
    proof {
        lemma_expand_start(nodes@, s as int, end@, best as int, g_start, open_start, came@);
        assert(relax_upto(nodes@, best as int, st0, 0) == (SearchState { g: g@, open: open@, came: came@ }));
    }
    while k < nodes[best].connected.len()
        invariant
            expanding(nodes@, s as int, end@, best as int, k as int, g@, open@, came@),
            n == nodes.len(),
            best < n,
            k <= nodes@[best as int].connected@.len(),
            g.len() == n,
            open.len() == n,
            came.len() == n,
            connections_in_range(nodes@),
            gb <= 4 * WORD_SPACE,
            g@[best as int] == gb,
            st0.g[best as int] == gb,
            changed ==> total(g@) < total(g_start),
            !changed ==> g@ == g_start && open@ == open_mid,
            (SearchState { g: g@, open: open@, came: came@ }) == relax_upto(nodes@, best as int, st0, k as int),
        decreases nodes@[best as int].connected@.len() - k,
    {
        let nb = nodes[best].connected[k];
        let t = gb + nodes[best].word.distance(nodes[nb].word) as u64;
        if t < g[nb] {
            proof {
                assert(nodes@[best as int].connected@[k as int] == nb);
                lemma_expand_lower(nodes@, s as int, end@, best as int, k as int, g@, open@, came@, t);
                assert(relax_upto(nodes@, best as int, st0, k + 1) == (SearchState {
                    g: g@.update(nb as int, t),
                    open: open@.update(nb as int, true),
                    came: came@.update(nb as int, best),
                }));
            }
            came.set(nb, best);
            g.set(nb, t);
            open.set(nb, true);
            changed = true;
        } else {
            proof {
                assert(nodes@[best as int].connected@[k as int] == nb);
                lemma_expand_keep(nodes@, s as int, end@, best as int, k as int, g@, open@, came@);
                assert(relax_upto(nodes@, best as int, st0, k + 1) == (SearchState { g: g@, open: open@, came: came@ }));
            }
        }
        k = k + 1;
    }
    proof {
        lemma_expand_done(nodes@, s as int, end@, best as int, g@, open@, came@);
        lemma_open_count_clear(open_start, best as int);
        lemma_total_nonneg(g@);
        lemma_open_count_nonneg(open@);
    }
}

/// The state a search from node `s` starts in: only `s` reached, at cost
/// zero, and on the frontier.
pub open spec fn initial(n: int, s: int) -> SearchState {
    SearchState {
        g: Seq::new(n as nat, |v: int| if v == s { 0u64 } else { UNREACHED }),
        open: Seq::new(n as nat, |v: int| v == s),
        came: Seq::new(n as nat, |v: int| NO_PREV),
    }
}

/// What the search toward word `e` returns from state `st` within `fuel`
/// further rounds, if it ends by then: `None` inside when the frontier runs
/// empty, else the words of the walk to the first node of word `e` picked.
pub open spec fn run(nodes: Seq<WordNode>, e: int, st: SearchState, fuel: nat) -> Option<Option<Seq<int>>>
    decreases fuel,
{
    let b = pick(nodes, st.g, st.open, e);
    if b == nodes.len() {
        Some(None)
    } else if word_of(nodes, b) == e {
        Some(Some(trail(nodes, st.g, st.came, b)))
    } else if fuel == 0 {
        None
    } else {
        run(nodes, e, expand(nodes, b, st), (fuel - 1) as nat)
    }
}

/// The node holding word `a`, when there is one.
pub open spec fn node_of(nodes: Seq<WordNode>, a: int) -> int {
    choose|u: int| 0 <= u < nodes.len() && #[trigger] word_of(nodes, u) == a
}

/// Whether `r` is what the search from word `a` to word `e` returns.
pub open spec fn search_result(nodes: Seq<WordNode>, a: int, e: int, r: Result<Option<Seq<int>>, SearchError>) -> bool {
    if !has_node(nodes, a) || !has_node(nodes, e) {
        r == Err::<Option<Seq<int>>, SearchError>(SearchError::StartOrEndNotInGraph)
    } else {
        r matches Ok(o) && exists|fuel: nat|
            #[trigger] run(nodes, e, initial(nodes.len() as int, node_of(nodes, a)), fuel) == Some(o)
    }
}

/// A search result with each path given by its encoded words.
pub open spec fn result_values(r: Result<Option<Vec<Word>>, SearchError>) -> Result<Option<Seq<int>>, SearchError> {
    match r {
        Ok(Some(ws)) => Ok(Some(word_values(ws@))),
        Ok(None) => Ok(None),
        Err(e) => Err(e),
    }
}

/// A search that ends within two amounts of fuel ends the same way.
pub proof fn lemma_run_agree(nodes: Seq<WordNode>, e: int, st: SearchState, f1: nat, f2: nat)
    requires
        run(nodes, e, st, f1) is Some,
        run(nodes, e, st, f2) is Some,
    ensures
        run(nodes, e, st, f1) == run(nodes, e, st, f2),
    decreases f1,
{
    let b = pick(nodes, st.g, st.open, e);
    if b != nodes.len() && word_of(nodes, b) != e {
        lemma_run_agree(nodes, e, expand(nodes, b, st), (f1 - 1) as nat, (f2 - 1) as nat);
    }
}

/// The search is deterministic: for the same graph and words, any two results
/// that it may return are equal.
pub proof fn lemma_search_deterministic(
    nodes: Seq<WordNode>,
    a: int,
    e: int,
    r1: Result<Option<Seq<int>>, SearchError>,
    r2: Result<Option<Seq<int>>, SearchError>,
)
    requires
        search_result(nodes, a, e, r1),
        search_result(nodes, a, e, r2),
    ensures
        r1 == r2,
{
    if has_node(nodes, a) && has_node(nodes, e) {
        let st = initial(nodes.len() as int, node_of(nodes, a));
        let f1 = choose|fuel: nat| #[trigger] run(nodes, e, st, fuel) == Some(r1->Ok_0);
        let f2 = choose|fuel: nat| #[trigger] run(nodes, e, st, fuel) == Some(r2->Ok_0);
        lemma_run_agree(nodes, e, st, f1, f2);
    }
}

/// Finds a cheapest walk from `start` to `end` by best-first search: the
/// frontier node with the least reached cost plus letter distance to `end` is
/// expanded next, the lowest index winning ties. Returns the words of the walk,
/// `None` when no walk exists, or an error when either word holds no node.
pub fn weave(start: Word, end: Word, nodes: &Vec<WordNode>) -> (r: Result<Option<Vec<Word>>, SearchError>)
    requires
        well_formed(nodes@),
    ensures
        r is Err <==> !has_node(nodes@, start@) || !has_node(nodes@, end@),
        r matches Ok(None) <==> (has_node(nodes@, start@) && has_node(nodes@, end@) && !reachable(
            nodes@,
            start@,
            end@,
        )),
        r matches Ok(Some(ws)) ==> exists|p: Seq<int>|
            is_cheapest(nodes@, p, start@, end@) && word_values(ws@) == #[trigger] path_words(nodes@, p),
        search_result(nodes@, start@, end@, result_values(r)),
{
    let n = nodes.len();
    proof {
        lemma_nodes_bounded(nodes@);
    }
    let s = match find_node(nodes, start) {
        Some(u) => u,
        None => return Err(SearchError::StartOrEndNotInGraph),
    };
    if find_node(nodes, end).is_none() {
        return Err(SearchError::StartOrEndNotInGraph);
    }
    let mut open: Vec<bool> = vec![false; n];
    let mut g: Vec<u64> = vec![UNREACHED; n];
    let mut came: Vec<usize> = vec![NO_PREV; n];
    open.set(s, true);
    g.set(s, 0);
    let ghost init = initial(n as int, s as int);
    let ghost mut rounds: nat = 0;
    proof {
        assert(reached_set(g@) =~= set![s as int]);
        assert(g@ =~= init.g);
        assert(open@ =~= init.open);
        assert(came@ =~= init.came);
        assert(node_of(nodes@, start@) == s);
    }
    loop
        invariant
            init == initial(n as int, node_of(nodes@, start@)),
            forall|f: nat| #[trigger] run(nodes@, end@, init, f + rounds) == run(
                nodes@,
                end@,
                SearchState { g: g@, open: open@, came: came@ },
                f,
            ),
            n == nodes.len(),
            word_of(nodes@, s as int) == start@,
            has_node(nodes@, end@),
            search_state(nodes@, s as int, end@, g@, open@, came@),
            relaxed(nodes@, g@, open@),
        decreases total(g@), open_count(open@),
    {
        proof {
            lemma_int_range(0, n as int);
            lemma_len_subset(reached_set(g@), set_int_range(0, n as int));
        }
        let best = select_best(nodes, end, &g, &open);
        if best == n {
            proof {
                assert forall|q: Seq<int>| #[trigger] connects(nodes@, q, start@, end@) implies false by {
                    lemma_all_reached(nodes@, g@, open@, s as int, q);
                }
            }
            proof {
                assert(run(nodes@, end@, init, 0 + rounds) == Some(None::<Seq<int>>));
            }
            return Ok(None);
        }
        if nodes[best].word.value() == end.value() {
            let res = rebuild_path(nodes, s, &g, &came, best);
            proof {
                let p = choose|p: Seq<int>|
                    {
                        &&& is_path(nodes@, p)
                        &&& p[0] == s
                        &&& p.last() == best
                        &&& path_cost(nodes@, p) <= g@[best as int]
                        &&& word_values(res@) == #[trigger] path_words(nodes@, p)
                    };
                assert forall|q: Seq<int>| #[trigger] connects(nodes@, q, start@, end@) implies path_cost(nodes@, p)
                    <= path_cost(nodes@, q) by {
                    lemma_goal_cheapest(nodes@, s as int, end@, g@, open@, best as int, q);
                }
                assert(is_cheapest(nodes@, p, start@, end@));
                assert(run(nodes@, end@, init, 0 + rounds) == Some(Some(word_values(res@))));
            }
            return Ok(Some(res));
        }
        let ghost before = SearchState { g: g@, open: open@, came: came@ };
        relax(nodes, s, end, best, &mut g, &mut open, &mut came);
        proof {
            assert forall|f: nat| #[trigger] run(nodes@, end@, init, f + (rounds + 1)) == run(
                nodes@,
                end@,
                SearchState { g: g@, open: open@, came: came@ },
                f,
            ) by {
                assert(run(nodes@, end@, init, (f + 1) + rounds) == run(nodes@, end@, before, f + 1));
                assert(f + (rounds + 1) == (f + 1) + rounds);
            }
            rounds = rounds + 1;
        }
    }
}

/// Sum of a sequence of costs.
pub open spec fn total(g: Seq<u64>) -> int
    decreases g.len(),
{
    if g.len() == 0 {
        0
    } else {
        total(g.drop_last()) + g.last()
    }
}

/// Number of frontier marks set.
pub open spec fn open_count(o: Seq<bool>) -> int
    decreases o.len(),
{
    if o.len() == 0 {
        0
    } else {
        open_count(o.drop_last()) + if o.last() {
            1int
        } else {
            0int
        }
    }
}

/// Replacing one cost changes the sum by the difference.
pub proof fn lemma_total_update(g: Seq<u64>, i: int, x: u64)
    requires
        0 <= i < g.len(),
    ensures
        total(g.update(i, x)) == total(g) - g[i] + x,
        total(g) >= 0,
    decreases g.len(),
{
    if i < g.len() - 1 {
        lemma_total_update(g.drop_last(), i, x);
        assert(g.update(i, x).drop_last() =~= g.drop_last().update(i, x));
    } else {
        assert(g.update(i, x).drop_last() =~= g.drop_last());
        lemma_total_nonneg(g.drop_last());
    }
}

/// A sum of costs is never negative.
pub proof fn lemma_total_nonneg(g: Seq<u64>)
    ensures
        total(g) >= 0,
    decreases g.len(),
{
    if g.len() > 0 {
        lemma_total_nonneg(g.drop_last());
    }
}

/// Clearing a set frontier mark lowers the count by one.
pub proof fn lemma_open_count_clear(o: Seq<bool>, i: int)
    requires
        0 <= i < o.len(),
        o[i],
    ensures
        open_count(o.update(i, false)) == open_count(o) - 1,
        open_count(o.update(i, false)) >= 0,
    decreases o.len(),
{
    if i < o.len() - 1 {
        lemma_open_count_clear(o.drop_last(), i);
        assert(o.update(i, false).drop_last() =~= o.drop_last().update(i, false));
    } else {
        assert(o.update(i, false).drop_last() =~= o.drop_last());
        lemma_open_count_nonneg(o.drop_last());
    }
}

/// A count of frontier marks is never negative.
pub proof fn lemma_open_count_nonneg(o: Seq<bool>)
    ensures
        open_count(o) >= 0,
    decreases o.len(),
{
    if o.len() > 0 {
        lemma_open_count_nonneg(o.drop_last());
    }
}

} // verus!
