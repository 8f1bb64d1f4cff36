//! The artist tree: a bounded-depth directed graph of similar artists,
//! assembled level by level from the resolver with threshold filtering and
//! duplicate suppression, and scored by multiplying edge weights along the
//! path from the root.
//!
//! The graph is an arena: a growable node table (index 0 is the root), and
//! edges as (from, to, weight) triples. Every node except the root has
//! exactly one incoming edge, added when the node was, so the edge into
//! node `k+1` is edge `k`.

use vstd::prelude::*;

use crate::error::LastfmError;
use crate::lastfm::spec_cached_map;
use crate::lastfm::LastfmArtist;
use crate::lastfm::LastfmModel;
use crate::lastfm::Resolved;
use crate::simmap::SimMap;
use crate::store::spec_resolve_canonical;
use crate::store::strings_view;
use crate::store::Store;
use crate::store::StoreModel;

verus! {

/// One directed edge of the tree: node `from` points to node `to` with an
/// integer similarity weight.
#[derive(Debug)]
pub struct TreeEdge {
    pub from: usize,
    pub to: usize,
    pub weight: i64,
}

/// The mathematical value of a [`TreeEdge`].
pub ghost struct EdgeModel {
    pub from: int,
    pub to: int,
    pub weight: int,
}

impl View for TreeEdge {
    type V = EdgeModel;

    open spec fn view(&self) -> EdgeModel {
        EdgeModel { from: self.from as int, to: self.to as int, weight: self.weight as int }
    }
}

/// The edge models of a vector of edges.
pub open spec fn edges_view(s: Seq<TreeEdge>) -> Seq<EdgeModel> {
    s.map_values(|e: TreeEdge| e@)
}

/// The mathematical value of an [`ArtistTree`].
pub ghost struct TreeModel {
    pub root: Seq<char>,
    pub nodes: Seq<Seq<char>>,
    pub edges: Seq<EdgeModel>,
    pub threshold: int,
    pub depth: int,
}

/// Whether `label` is a node of the tree.
pub open spec fn spec_tree_contains(nodes: Seq<Seq<char>>, label: Seq<char>) -> bool {
    exists|i: int| 0 <= i < nodes.len() && nodes[i] == label
}

/// The position of the first node labelled `label`.
pub open spec fn spec_first_index(nodes: Seq<Seq<char>>, label: Seq<char>) -> Option<int>
    decreases nodes.len(),
{
    if nodes.len() == 0 {
        None
    } else if nodes[0] == label {
        Some(0int)
    } else {
        match spec_first_index(nodes.drop_first(), label) {
            Some(i) => Some(i + 1),
            None => None,
        }
    }
}

/// No artist name appears more than once as a node label.
pub open spec fn nodes_distinct(nodes: Seq<Seq<char>>) -> bool {
    forall|i: int, j: int|
        #![trigger nodes[i], nodes[j]]
        0 <= i < j < nodes.len() ==> nodes[i] != nodes[j]
}

/// The arena shape: every node after the root has exactly one incoming
/// edge, added together with it, pointing back to an earlier node; and
/// every materialized edge passed the threshold and is a valid similarity.
pub open spec fn edges_shape(
    nodes: Seq<Seq<char>>,
    edges: Seq<EdgeModel>,
    threshold: int,
) -> bool {
    &&& edges.len() == (if nodes.len() == 0 {
        0int
    } else {
        nodes.len() - 1
    })
    &&& forall|k: int|
        0 <= k < edges.len() ==> ((#[trigger] edges[k]).to == k + 1 && 0 <= edges[k].from <= k
            && threshold <= edges[k].weight <= 100)
}

/// A well-formed tree: a valid threshold, distinct node labels, the arena
/// edge shape, and the root at position 0.
pub open spec fn tree_shape_ok(
    root: Seq<char>,
    nodes: Seq<Seq<char>>,
    edges: Seq<EdgeModel>,
    threshold: int,
) -> bool {
    &&& 0 <= threshold <= 100
    &&& nodes_distinct(nodes)
    &&& edges_shape(nodes, edges, threshold)
    &&& nodes.len() > 0 ==> nodes[0] == root
}

/// The first-index search finds exactly the position that a left-to-right
/// scan stops at.
pub proof fn lemma_first_index_at(nodes: Seq<Seq<char>>, label: Seq<char>, i: int)
    requires
        0 <= i <= nodes.len(),
        forall|k: int| 0 <= k < i ==> nodes[k] != label,
        i < nodes.len() ==> nodes[i] == label,
    ensures
        spec_first_index(nodes, label) == (if i < nodes.len() {
            Some(i)
        } else {
            None::<int>
        }),
    decreases nodes.len(),
{
    if nodes.len() == 0 {
    } else if nodes[0] == label {
        assert(i == 0);
    } else {
        assert(i >= 1);
        assert(forall|k: int| 0 <= k < nodes.len() - 1 ==> nodes.drop_first()[k] == nodes[k + 1]);
        lemma_first_index_at(nodes.drop_first(), label, i - 1);
    }
}

/// The first-index search hits exactly when the label is a node.
pub proof fn lemma_first_index_props(nodes: Seq<Seq<char>>, label: Seq<char>)
    ensures
        match spec_first_index(nodes, label) {
            Some(i) => 0 <= i < nodes.len() && nodes[i] == label,
            None => !spec_tree_contains(nodes, label),
        },
    decreases nodes.len(),
{
    if nodes.len() > 0 && nodes[0] != label {
        lemma_first_index_props(nodes.drop_first(), label);
        if spec_first_index(nodes.drop_first(), label) is None {
            assert forall|i: int| 0 <= i < nodes.len() implies nodes[i] != label by {
                if i >= 1 {
                    assert(nodes.drop_first()[i - 1] == nodes[i]);
                }
            }
        }
    }
}

/// The similarity weights along the path from the root to node `idx`,
/// root-side first, read off the parent chain.
pub open spec fn spec_path_weights(edges: Seq<EdgeModel>, idx: int) -> Seq<int>
    decreases
            (if idx >= 0 {
                idx
            } else {
                0int
            }),
{
    if idx <= 0 || idx > edges.len() {
        Seq::empty()
    } else {
        let e = edges[idx - 1];
        let f = if 0 <= e.from < idx {
            e.from
        } else {
            0int
        };
        spec_path_weights(edges, f) + seq![e.weight]
    }
}

/// The multiplicative similarity fold: starting from the identity scale
/// 100, each edge weight `w` takes the accumulator to `acc * w / 100`,
/// with truncating integer division.
pub open spec fn spec_fold_sim(ws: Seq<int>) -> int
    decreases ws.len(),
{
    if ws.len() == 0 {
        100
    } else {
        spec_fold_sim(ws.drop_last()) * ws.last() / 100
    }
}

/// The effective similarity of a node to the root: the fold of the edge
/// weights along its path from the root.
pub open spec fn spec_similarity_to(t: TreeModel, label: Seq<char>) -> int {
    spec_fold_sim(spec_path_weights(t.edges, spec_first_index(t.nodes, label).unwrap()))
}

/// A bounded-depth directed graph of similar artists around a root artist.
/// Node labels are canonical names; the root is node 0; every edge carries
/// an integer similarity that met the threshold.
#[derive(Debug)]
pub struct ArtistTree {
    root: String,
    nodes: Vec<String>,
    edges: Vec<TreeEdge>,
    threshold: i64,
    depth: u8,
}

impl View for ArtistTree {
    type V = TreeModel;

    closed spec fn view(&self) -> TreeModel {
        TreeModel {
            root: self.root@,
            nodes: strings_view(self.nodes@),
            edges: edges_view(self.edges@),
            threshold: self.threshold as int,
            depth: self.depth as int,
        }
    }
}

impl ArtistTree {
    #[verifier::type_invariant]
    spec fn inv(self) -> bool {
        tree_shape_ok(self@.root, self@.nodes, self@.edges, self@.threshold)
    }

    /// A fresh, unbuilt tree around `root`, with the default similarity
    /// threshold 70 (of 100) and the default depth 2.
    pub fn new(root: &str) -> (t: ArtistTree)
        ensures
            t@.root == root@,
            t@.nodes == Seq::<Seq<char>>::empty(),
            t@.edges == Seq::<EdgeModel>::empty(),
            t@.threshold == 70,
            t@.depth == 2,
    {
        let t = ArtistTree {
            root: root.to_owned(),
            nodes: Vec::new(),
            edges: Vec::new(),
            threshold: 70,
            depth: 2,
        };
        proof {
            assert(t@.nodes =~= Seq::<Seq<char>>::empty());
            assert(t@.edges =~= Seq::<EdgeModel>::empty());
        }
        t
    }

    /// The same unbuilt tree with another similarity threshold, scaled to
    /// 0..=100.
    pub fn with_threshold(self, threshold: i64) -> (t: ArtistTree)
        requires
            0 <= threshold <= 100,
            self@.nodes.len() == 0,
        ensures
            t@ == (TreeModel { threshold: threshold as int, ..self@ }),
    {
        proof {
            use_type_invariant(&self);
        }
        ArtistTree { threshold, ..self }
    }

    /// The same unbuilt tree with another expansion depth.
    pub fn with_depth(self, depth: u8) -> (t: ArtistTree)
        ensures
            t@ == (TreeModel { depth: depth as int, ..self@ }),
    {
        proof {
            use_type_invariant(&self);
        }
        ArtistTree { depth, ..self }
    }

    /// The root artist's name: canonical once the tree has been built.
    pub fn root(&self) -> (r: &String)
        ensures
            r@ == self@.root,
    {
        &self.root
    }

    /// The node labels, in insertion order; the root is first.
    pub fn nodes(&self) -> (r: &Vec<String>)
        ensures
            strings_view(r@) == self@.nodes,
    {
        &self.nodes
    }

    /// The edges, in insertion order: edge `k` points into node `k + 1`.
    pub fn edges(&self) -> (r: &Vec<TreeEdge>)
        ensures
            edges_view(r@) == self@.edges,
    {
        &self.edges
    }

    /// The scaled similarity threshold, 0..=100.
    pub fn threshold(&self) -> (r: i64)
        ensures
            r as int == self@.threshold,
    {
        self.threshold
    }

    /// The expansion depth.
    pub fn depth(&self) -> (r: u8)
        ensures
            r as int == self@.depth,
    {
        self.depth
    }

    /// The index of the node labelled `node_label`, if any.
    fn get_node_index(&self, node_label: &str) -> (r: Option<usize>)
        ensures
            match r {
                Some(i) => i < self.nodes.len() && spec_first_index(self@.nodes, node_label@)
                    == Some(i as int),
                None => spec_first_index(self@.nodes, node_label@) is None,
            },
    {
        let key = node_label.to_owned();
        let n = self.nodes.len();
        let mut i: usize = 0;
        while i < n
            invariant
                0 <= i <= n,
                n == self.nodes.len(),
                forall|k: int| 0 <= k < i ==> self@.nodes[k] != key@,
                key@ == node_label@,
            decreases n - i,
        {
            if self.nodes[i].eq(&key) {
                proof {
                    lemma_first_index_at(self@.nodes, node_label@, i as int);
                }
                return Some(i);
            }
            i = i + 1;
        }
        proof {
            lemma_first_index_at(self@.nodes, node_label@, n as int);
        }
        None
    }

    /// The effective similarity of `child` to the root: walk the unique
    /// path from the root and fold the edge weights multiplicatively,
    /// starting from 100, truncating at each step. The law that a two-hop
    /// path with weights `w1`, `w2` scores `(100*w1/100)*w2/100` is this
    /// contract applied twice.
    #[verifier::loop_isolation(false)]
    pub fn get_child_similarity(&self, child: &str) -> (r: i64)
        requires
            spec_tree_contains(self@.nodes, child@),
        ensures
            r as int == spec_similarity_to(self@, child@),
            0 <= r <= 100,
    {
        proof {
            use_type_invariant(&*self);
            lemma_first_index_props(self@.nodes, child@);
        }
        let idx: usize = match self.get_node_index(child) {
            Some(i) => i,
            None => vstd::pervasive::unreached(),
        };
        let ghost total = spec_path_weights(self@.edges, idx as int);
        // collect the weights walking up the parent chain (child-side first)
        let mut ws: Vec<i64> = Vec::new();
        let mut cur: usize = idx;
        proof {
            assert(spec_path_weights(self@.edges, idx as int) =~= spec_path_weights(
                self@.edges,
                cur as int,
            ) + ws@.map_values(|x: i64| x as int).reverse());
        }
        while cur != 0
            invariant
                cur < self.nodes.len(),
                total =~= spec_path_weights(self@.edges, cur as int) + ws@.map_values(
                    |x: i64| x as int,
                ).reverse(),
                forall|k: int| 0 <= k < ws@.len() ==> 0 <= #[trigger] ws@[k] <= 100,
            decreases cur,
        {
            let ghost old_ws = ws@;
            let e_from = self.edges[cur - 1].from;
            let e_weight = self.edges[cur - 1].weight;
            proof {
                assert(self@.edges[cur - 1] == self.edges@[cur - 1]@);
                assert(0 <= self@.edges[cur - 1].from <= cur - 1);
            }
            ws.push(e_weight);
            proof {
                assert(ws@.map_values(|x: i64| x as int).reverse() =~= seq![e_weight as int]
                    + old_ws.map_values(|x: i64| x as int).reverse());
                assert(spec_path_weights(self@.edges, cur as int) =~= spec_path_weights(
                    self@.edges,
                    e_from as int,
                ) + seq![e_weight as int]);
                assert(total =~= spec_path_weights(self@.edges, e_from as int) + ws@.map_values(
                    |x: i64| x as int,
                ).reverse());
            }
            cur = e_from;
        }
        proof {
            assert(spec_path_weights(self@.edges, 0) =~= Seq::<int>::empty());
            assert(total =~= ws@.map_values(|x: i64| x as int).reverse());
        }
        // fold the weights from the root side
        let len = ws.len();
        let mut acc: i64 = 100;
        let mut k: usize = len;
        proof {
            assert(total.take(0) =~= Seq::<int>::empty());
        }
        while k > 0
            invariant
                0 <= k <= len,
                len == ws@.len(),
                0 <= acc <= 100,
                acc as int == spec_fold_sim(total.take(len - k)),
            decreases k,
        {
            let w = ws[k - 1];
            proof {
                assert(total[len - k] == ws@.map_values(|x: i64| x as int).reverse()[len - k]);
                assert(total[len - k] == w as int);
                assert(0 <= w <= 100);
                assert(total.take(len - k + 1).drop_last() =~= total.take(len - k));
                assert(total.take(len - k + 1).last() == total[len - k]);
                assert(0 <= acc * w <= 10000) by (nonlinear_arith)
                    requires
                        0 <= acc <= 100,
                        0 <= w <= 100,
                ;
                assert(0 <= acc * w / 100 <= 100);
            }
            acc = acc * w / 100;
            k = k - 1;
        }
        proof {
            assert(total.take(len as int) =~= total);
        }
        acc
    }
}

/// Law: the similarity fold compounds multiplicatively with truncation.
/// Over a two-hop path root→A→B with edge weights `w1` and `w2` the score
/// is `(100*w1/100)*w2/100`: weights 100 and 50 give 50, and weights 80
/// and 50 give 40.
pub proof fn lemma_two_hop_fold(w1: int, w2: int)
    ensures
        spec_fold_sim(seq![w1, w2]) == ((100 * w1 / 100) * w2) / 100,
        spec_fold_sim(seq![100int, 50int]) == 50,
        spec_fold_sim(seq![80int, 50int]) == 40,
{
    lemma_two_hop_instance(w1, w2);
    lemma_two_hop_instance(100, 50);
    lemma_two_hop_instance(80, 50);
}

/// One concrete two-hop fold.
proof fn lemma_two_hop_instance(w1: int, w2: int)
    ensures
        spec_fold_sim(seq![w1, w2]) == ((100 * w1 / 100) * w2) / 100,
{
    assert(seq![w1, w2].drop_last() =~= seq![w1]);
    assert(seq![w1].drop_last() =~= Seq::<int>::empty());
    assert(spec_fold_sim(Seq::<int>::empty()) == 100);
    assert(seq![w1].last() == w1);
    assert(spec_fold_sim(seq![w1]) == 100 * w1 / 100);
    assert(seq![w1, w2].last() == w2);
    assert(spec_fold_sim(seq![w1, w2]) == spec_fold_sim(seq![w1]) * w2 / 100);
}

/// Law: a tree is deterministic in its inputs — any two completed builds
/// over equal stores, roots, depths and thresholds carry identical node
/// sequences, identical edges, and the same canonical root. Node insertion
/// order is pinned by the build function, so renderings are stable.
pub proof fn lemma_build_deterministic(
    m: StoreModel,
    root: Seq<char>,
    depth: int,
    threshold: int,
    t1: TreeModel,
    t2: TreeModel,
)
    requires
        spec_build(m, root, depth, threshold) == Some((t1.root, t1.nodes, t1.edges)),
        spec_build(m, root, depth, threshold) == Some((t2.root, t2.nodes, t2.edges)),
    ensures
        t1.root == t2.root,
        t1.nodes == t2.nodes,
        t1.edges == t2.edges,
{
}

// ---------------------------------------------------------------------------
// The build itself
// ---------------------------------------------------------------------------
/// One expansion pass of a parent's children over the current graph: a
/// child is added — with one edge from the parent — exactly when its
/// similarity meets the threshold and it is not yet a node anywhere in the
/// tree; a child already present is skipped entirely (duplicate and cycle
/// suppression).
pub open spec fn spec_expand_children(
    nodes: Seq<Seq<char>>,
    edges: Seq<EdgeModel>,
    pidx: int,
    entries: Seq<(Seq<char>, int)>,
    threshold: int,
) -> (Seq<Seq<char>>, Seq<EdgeModel>)
    decreases entries.len(),
{
    if entries.len() == 0 {
        (nodes, edges)
    } else {
        let c = entries[0].0;
        let w = entries[0].1;
        if w >= threshold && !spec_tree_contains(nodes, c) {
            spec_expand_children(
                nodes.push(c),
                edges.push(EdgeModel { from: pidx, to: nodes.len() as int, weight: w }),
                pidx,
                entries.drop_first(),
                threshold,
            )
        } else {
            spec_expand_children(nodes, edges, pidx, entries.drop_first(), threshold)
        }
    }
}

/// Expanding one frontier artist: its cached child map filtered into the
/// graph; nothing (a fetch is needed) when the artist is not cached.
pub open spec fn spec_expand_artist(
    m: StoreModel,
    nodes: Seq<Seq<char>>,
    edges: Seq<EdgeModel>,
    parent: Seq<char>,
    threshold: int,
) -> Option<(Seq<Seq<char>>, Seq<EdgeModel>)> {
    match spec_cached_map(m, parent) {
        None => None,
        Some(entries) => match spec_first_index(nodes, parent) {
            None => None,
            Some(pidx) => Some(spec_expand_children(nodes, edges, pidx, entries, threshold)),
        },
    }
}

/// Expanding a whole frontier, left to right.
pub open spec fn spec_expand_frontier(
    m: StoreModel,
    nodes: Seq<Seq<char>>,
    edges: Seq<EdgeModel>,
    frontier: Seq<Seq<char>>,
    threshold: int,
) -> Option<(Seq<Seq<char>>, Seq<EdgeModel>)>
    decreases frontier.len(),
{
    if frontier.len() == 0 {
        Some((nodes, edges))
    } else {
        match spec_expand_artist(m, nodes, edges, frontier[0], threshold) {
            None => None,
            Some((n2, e2)) => spec_expand_frontier(m, n2, e2, frontier.drop_first(), threshold),
        }
    }
}

/// The remaining levels of a build: each level's frontier is every node
/// label present when the level starts.
pub open spec fn spec_build_levels(
    m: StoreModel,
    nodes: Seq<Seq<char>>,
    edges: Seq<EdgeModel>,
    threshold: int,
    levels_left: nat,
) -> Option<(Seq<Seq<char>>, Seq<EdgeModel>)>
    decreases levels_left,
{
    if levels_left == 0 {
        Some((nodes, edges))
    } else {
        match spec_expand_frontier(m, nodes, edges, nodes, threshold) {
            None => None,
            Some((n2, e2)) => spec_build_levels(m, n2, e2, threshold, (levels_left - 1) as nat),
        }
    }
}

/// The whole build, entirely from the cache: resolve the raw root to its
/// canonical name, seed the graph with it, then expand `depth` levels.
/// Nothing (the network is needed) when the root or any expanded artist is
/// not cached.
pub open spec fn spec_build(m: StoreModel, raw_root: Seq<char>, depth: int, threshold: int) -> Option<
    (Seq<char>, Seq<Seq<char>>, Seq<EdgeModel>),
> {
    match spec_resolve_canonical(m, raw_root) {
        None => None,
        Some(c) => match spec_build_levels(
            m,
            seq![c],
            Seq::empty(),
            threshold,
            (if depth >= 0 {
                depth
            } else {
                0int
            }) as nat,
        ) {
            None => None,
            Some((n, e)) => Some((c, n, e)),
        },
    }
}

// ---------------------------------------------------------------------------
// The level-by-level builder
// ---------------------------------------------------------------------------
/// The mathematical value of a [`TreeBuilder`].
pub ghost struct BuilderModel {
    pub root: Seq<char>,
    pub nodes: Seq<Seq<char>>,
    pub edges: Seq<EdgeModel>,
    pub threshold: int,
    pub depth: int,
    pub level: int,
    pub frontier: Seq<Seq<char>>,
    pub pos: int,
    pub canonized: bool,
}

/// A well-formed builder: a well-formed partial tree; before
/// canonicalization the graph is empty, afterwards the canonical root is
/// node 0, the level is within bounds, and the frontier names only nodes.
pub open spec fn builder_wf(b: BuilderModel) -> bool {
    &&& 0 <= b.threshold <= 100
    &&& 0 <= b.depth
    &&& nodes_distinct(b.nodes)
    &&& edges_shape(b.nodes, b.edges, b.threshold)
    &&& if b.canonized {
        &&& b.nodes.len() >= 1
        &&& b.nodes[0] == b.root
        &&& 1 <= b.level <= b.depth + 1
        &&& 0 <= b.pos <= b.frontier.len()
        &&& forall|i: int|
            0 <= i < b.frontier.len() ==> spec_tree_contains(b.nodes, #[trigger] b.frontier[i])
    } else {
        b.nodes.len() == 0 && b.edges.len() == 0 && b.frontier.len() == 0 && b.pos == 0
    }
}

/// A finished build: canonicalized, every level expanded.
pub open spec fn spec_done(b: BuilderModel) -> bool {
    b.canonized && b.level > b.depth
}

/// The artist the builder will ask the resolver for next: the raw root
/// before canonicalization, else the next unexpanded frontier artist.
pub open spec fn spec_pending(b: BuilderModel) -> Option<Seq<char>> {
    if !b.canonized {
        Some(b.root)
    } else if b.level <= b.depth && b.pos < b.frontier.len() {
        Some(b.frontier[b.pos])
    } else {
        None
    }
}

/// What finishing the build from state `b`, entirely from the cache of
/// `m`, would produce: the canonical root with the final node and edge
/// tables; or nothing if some artist still needs the network.
pub open spec fn spec_resume(m: StoreModel, b: BuilderModel) -> Option<
    (Seq<char>, Seq<Seq<char>>, Seq<EdgeModel>),
> {
    if !b.canonized {
        spec_build(m, b.root, b.depth, b.threshold)
    } else if b.level > b.depth {
        Some((b.root, b.nodes, b.edges))
    } else {
        match spec_expand_frontier(m, b.nodes, b.edges, b.frontier.skip(b.pos), b.threshold) {
            None => None,
            Some((n2, e2)) => match spec_build_levels(
                m,
                n2,
                e2,
                b.threshold,
                (b.depth - b.level) as nat,
            ) {
                None => None,
                Some((n3, e3)) => Some((b.root, n3, e3)),
            },
        }
    }
}

/// The builder state right after canonicalizing to `c`: the graph seeded
/// with the canonical root, the first level's frontier exactly the root.
pub open spec fn spec_canonized_state(b: BuilderModel, c: Seq<char>) -> BuilderModel {
    BuilderModel {
        root: c,
        nodes: seq![c],
        edges: Seq::empty(),
        frontier: seq![c],
        pos: 0,
        level: 1,
        canonized: true,
        ..b
    }
}

/// The position of the first node labelled `label` in a node table.
fn find_label(nodes: &Vec<String>, label: &String) -> (r: Option<usize>)
    ensures
        match r {
            Some(i) => i < nodes.len() && spec_first_index(strings_view(nodes@), label@) == Some(
                i as int,
            ),
            None => spec_first_index(strings_view(nodes@), label@) is None,
        },
{
    let n = nodes.len();
    let mut i: usize = 0;
    while i < n
        invariant
            0 <= i <= n,
            n == nodes.len(),
            forall|k: int| 0 <= k < i ==> strings_view(nodes@)[k] != label@,
        decreases n - i,
    {
        if nodes[i].eq(label) {
            proof {
                lemma_first_index_at(strings_view(nodes@), label@, i as int);
            }
            return Some(i);
        }
        i = i + 1;
    }
    proof {
        lemma_first_index_at(strings_view(nodes@), label@, n as int);
    }
    None
}

/// Whether a node table already holds `label`.
fn contains_label(nodes: &Vec<String>, label: &String) -> (r: bool)
    ensures
        r == spec_tree_contains(strings_view(nodes@), label@),
{
    proof {
        lemma_first_index_props(strings_view(nodes@), label@);
    }
    match find_label(nodes, label) {
        Some(_) => true,
        None => false,
    }
}

/// An in-progress build: the partial tree, the current level, and the
/// frontier snapshot taken when the level started. The builder never
/// touches the network itself; when it pauses, the caller fetches the
/// pending artist's payload and hands it to `supply`.
pub struct TreeBuilder {
    root: String,
    nodes: Vec<String>,
    edges: Vec<TreeEdge>,
    threshold: i64,
    depth: u8,
    level: u32,
    frontier: Vec<String>,
    pos: usize,
    canonized: bool,
}

impl View for TreeBuilder {
    type V = BuilderModel;

    closed spec fn view(&self) -> BuilderModel {
        BuilderModel {
            root: self.root@,
            nodes: strings_view(self.nodes@),
            edges: edges_view(self.edges@),
            threshold: self.threshold as int,
            depth: self.depth as int,
            level: self.level as int,
            frontier: strings_view(self.frontier@),
            pos: self.pos as int,
            canonized: self.canonized,
        }
    }
}

/// The outcome of a cache-only build pass: a complete tree, or a paused
/// build that needs one fetch.
pub enum TreeOutcome {
    /// The whole tree was assembled from the store.
    Complete(ArtistTree),
    /// The build paused at an uncached artist; fetch it and resume.
    Pending(TreeBuilder),
}

impl TreeBuilder {
    /// Expand one parent's child map into the graph: each child whose
    /// similarity meets the threshold and which is not yet a node anywhere
    /// in the tree is appended, with one edge from the parent.
    #[verifier::loop_isolation(false)]
    fn expand(&mut self, pidx: usize, map: &SimMap)
        requires
            0 <= old(self)@.threshold <= 100,
            nodes_distinct(old(self)@.nodes),
            edges_shape(old(self)@.nodes, old(self)@.edges, old(self)@.threshold),
            pidx < old(self)@.nodes.len(),
            forall|k: int| 0 <= k < map@.len() ==> 0 <= (#[trigger] map@[k]).1 <= 100,
        ensures
            nodes_distinct(final(self)@.nodes),
            edges_shape(final(self)@.nodes, final(self)@.edges, final(self)@.threshold),
            final(self)@.nodes == spec_expand_children(
                old(self)@.nodes,
                old(self)@.edges,
                pidx as int,
                map@,
                old(self)@.threshold,
            ).0,
            final(self)@.edges == spec_expand_children(
                old(self)@.nodes,
                old(self)@.edges,
                pidx as int,
                map@,
                old(self)@.threshold,
            ).1,
            old(self)@.nodes.len() <= final(self)@.nodes.len(),
            forall|k: int|
                0 <= k < old(self)@.nodes.len() ==> final(self)@.nodes[k] == old(self)@.nodes[k],
            final(self)@.root == old(self)@.root,
            final(self)@.threshold == old(self)@.threshold,
            final(self)@.depth == old(self)@.depth,
            final(self)@.level == old(self)@.level,
            final(self)@.frontier == old(self)@.frontier,
            final(self)@.pos == old(self)@.pos,
            final(self)@.canonized == old(self)@.canonized,
    {
        let ghost goal = spec_expand_children(
            old(self)@.nodes,
            old(self)@.edges,
            pidx as int,
            map@,
            old(self)@.threshold,
        );
        let entries = map.entries();
        let n = entries.len();
        let mut i: usize = 0;
        proof {
            assert(crate::simmap::entries_view(entries@).skip(0) =~= map@);
        }
        while i < n
            invariant
                0 <= i <= n,
                n == entries.len(),
                crate::simmap::entries_view(entries@) == map@,
                nodes_distinct(self@.nodes),
                edges_shape(self@.nodes, self@.edges, self@.threshold),
                pidx < self@.nodes.len(),
                old(self)@.nodes.len() <= self@.nodes.len(),
                forall|k: int|
                    0 <= k < old(self)@.nodes.len() ==> self@.nodes[k] == old(self)@.nodes[k],
                spec_expand_children(
                    self@.nodes,
                    self@.edges,
                    pidx as int,
                    map@.skip(i as int),
                    self@.threshold,
                ) == goal,
                self@.root == old(self)@.root,
                self@.threshold == old(self)@.threshold,
                self@.depth == old(self)@.depth,
                self@.level == old(self)@.level,
                self@.frontier == old(self)@.frontier,
                self@.pos == old(self)@.pos,
                self@.canonized == old(self)@.canonized,
            decreases n - i,
        {
            proof {
                assert(map@.skip(i as int).drop_first() =~= map@.skip(i as int + 1));
                assert(map@.skip(i as int)[0] == map@[i as int]);
                assert(map@[i as int] == crate::simmap::entries_view(entries@)[i as int]);
            }
            let sim = entries[i].1;
            if sim >= self.threshold && !contains_label(&self.nodes, &entries[i].0) {
                let ghost pre_nodes = self@.nodes;
                let ghost pre_edges = self@.edges;
                let to = self.nodes.len();
                let child = entries[i].0.clone();
                self.nodes.push(child);
                self.edges.push(TreeEdge { from: pidx, to, weight: sim });
                proof {
                    assert(self@.nodes =~= pre_nodes.push(map@[i as int].0));
                    assert(self@.edges =~= pre_edges.push(
                        EdgeModel {
                            from: pidx as int,
                            to: pre_nodes.len() as int,
                            weight: sim as int,
                        },
                    ));
                    assert(nodes_distinct(self@.nodes)) by {
                        assert forall|a: int, b: int|
                            #![trigger self@.nodes[a], self@.nodes[b]]
                            0 <= a < b < self@.nodes.len() implies self@.nodes[a]
                            != self@.nodes[b] by {
                            if b == pre_nodes.len() {
                                assert(self@.nodes[a] == pre_nodes[a]);
                                if self@.nodes[a] == map@[i as int].0 {
                                    assert(spec_tree_contains(pre_nodes, map@[i as int].0));
                                }
                            } else {
                                assert(self@.nodes[a] == pre_nodes[a]);
                                assert(self@.nodes[b] == pre_nodes[b]);
                            }
                        }
                    }
                    assert(edges_shape(self@.nodes, self@.edges, self@.threshold)) by {
                        assert forall|k: int|
                            0 <= k < self@.edges.len() implies ((#[trigger] self@.edges[k]).to == k
                            + 1 && 0 <= self@.edges[k].from <= k && self@.threshold
                            <= self@.edges[k].weight <= 100) by {
                            if k < pre_edges.len() {
                                assert(self@.edges[k] == pre_edges[k]);
                            }
                        }
                    }
                }
            }
            i = i + 1;
        }
        proof {
            assert(map@.skip(n as int) =~= Seq::<(Seq<char>, int)>::empty());
        }
    }

    /// Run the build forward as far as the cache allows: expand frontier
    /// artists while they are cached, advancing level by level. Returns
    /// `Ok(true)` when the tree is complete, `Ok(false)` when an uncached
    /// artist needs a fetch (see `pending_artist`), and `NoApiKey` when a
    /// fetch is needed but no key is configured. A fetch is only ever
    /// requested for an artist the store cannot resolve — a cached artist
    /// never reaches the network again.
    #[verifier::loop_isolation(false)]
    pub fn advance(&mut self, store: &Store) -> (r: Result<bool, LastfmError>)
        requires
            builder_wf(old(self)@),
        ensures
            builder_wf(final(self)@),
            final(self)@.threshold == old(self)@.threshold,
            final(self)@.depth == old(self)@.depth,
            spec_resume(store@, final(self)@) == spec_resume(store@, old(self)@),
            match r {
                Ok(done) => done == spec_done(final(self)@) && (done ==> spec_resume(
                    store@,
                    old(self)@,
                ) == Some(
                    (final(self)@.root, final(self)@.nodes, final(self)@.edges),
                )) && (!done ==> spec_resume(store@, old(self)@) is None && store@.api_key is Some
                    && spec_pending(final(self)@) is Some && spec_resolve_canonical(
                    store@,
                    spec_pending(final(self)@).unwrap(),
                ) is None),
                Err(e) => e == LastfmError::NoApiKey && store@.api_key is None && spec_resume(
                    store@,
                    old(self)@,
                ) is None && spec_pending(final(self)@) is Some && spec_resolve_canonical(
                    store@,
                    spec_pending(final(self)@).unwrap(),
                ) is None,
            },
    {
        loop
            invariant
                builder_wf(self@),
                self@.threshold == old(self)@.threshold,
                self@.depth == old(self)@.depth,
                spec_resume(store@, self@) == spec_resume(store@, old(self)@),
            decreases (if self.canonized {
                0int
            } else {
                1int
            }), self@.depth + 1 - self@.level, self@.frontier.len() - self@.pos,
        {
            if !self.canonized {
                match store.canonical_name(&self.root) {
                    Some(c) => {
                        let ghost pre = self@;
                        self.root = c;
                        let mut ns: Vec<String> = Vec::new();
                        ns.push(self.root.clone());
                        self.nodes = ns;
                        let mut fr: Vec<String> = Vec::new();
                        fr.push(self.root.clone());
                        self.frontier = fr;
                        self.pos = 0;
                        self.level = 1;
                        self.canonized = true;
                        proof {
                            assert(self@.nodes =~= seq![self@.root]);
                            assert(self@.frontier =~= seq![self@.root]);
                            assert(self@.edges =~= Seq::<EdgeModel>::empty());
                            assert(spec_tree_contains(self@.nodes, self@.frontier[0]));
                            lemma_canonize_step(store@, pre.root, self@.root, pre.depth, pre.threshold, self@);
                        }
                    },
                    None => {
                        match store.get_api_key() {
                            Some(_) => {
                                return Ok(false);
                            },
                            None => {
                                return Err(LastfmError::NoApiKey);
                            },
                        }
                    },
                }
            } else if self.level > self.depth as u32 {
                return Ok(true);
            } else if self.pos >= self.frontier.len() {
                let ghost pre = self@;
                proof {
                    assert(pre.frontier.skip(pre.pos) =~= Seq::<Seq<char>>::empty());
                    assert(spec_expand_frontier(
                        store@,
                        pre.nodes,
                        pre.edges,
                        pre.frontier.skip(pre.pos),
                        pre.threshold,
                    ) == Some((pre.nodes, pre.edges)));
                }
                self.level = self.level + 1;
                if self.level <= self.depth as u32 {
                    self.frontier = crate::store::clone_string_vec(&self.nodes);
                    self.pos = 0;
                    proof {
                        assert(self@.frontier == self@.nodes);
                        assert(self@.frontier.skip(0) =~= self@.nodes);
                        assert forall|i: int|
                            0 <= i < self@.frontier.len() implies spec_tree_contains(
                            self@.nodes,
                            #[trigger] self@.frontier[i],
                        ) by {
                            assert(self@.nodes[i] == self@.frontier[i]);
                        }
                        assert(spec_resume(store@, self@) == spec_resume(store@, pre));
                    }
                } else {
                    proof {
                        assert(spec_resume(store@, self@) == spec_resume(store@, pre));
                    }
                }
            } else {
                let parent = self.frontier[self.pos].clone();
                let ghost pre = self@;
                proof {
                    assert(pre.frontier.skip(pre.pos)[0] == pre.frontier[pre.pos]);
                    assert(pre.frontier.skip(pre.pos).drop_first() =~= pre.frontier.skip(
                        pre.pos + 1,
                    ));
                    assert(spec_tree_contains(pre.nodes, pre.frontier[pre.pos]));
                }
                match store.get_similar_artists(parent.as_str()) {
                    Err(e) => {
                        proof {
                            assert(spec_cached_map(store@, parent@) is None);
                            assert(spec_expand_artist(
                                store@,
                                pre.nodes,
                                pre.edges,
                                pre.frontier[pre.pos],
                                pre.threshold,
                            ) is None);
                        }
                        return Err(e);
                    },
                    Ok(Resolved::NeedsFetch(_)) => {
                        proof {
                            assert(spec_cached_map(store@, parent@) is None);
                            assert(spec_expand_artist(
                                store@,
                                pre.nodes,
                                pre.edges,
                                pre.frontier[pre.pos],
                                pre.threshold,
                            ) is None);
                        }
                        return Ok(false);
                    },
                    Ok(Resolved::Cached(map)) => {
                        let pidx: usize = match find_label(&self.nodes, &parent) {
                            Some(i) => i,
                            None => {
                                proof {
                                    lemma_first_index_props(self@.nodes, parent@);
                                }
                                vstd::pervasive::unreached()
                            },
                        };
                        self.expand(pidx, &map);
                        self.pos = self.pos + 1;
                        proof {
                            assert(spec_expand_artist(
                                store@,
                                pre.nodes,
                                pre.edges,
                                pre.frontier[pre.pos],
                                pre.threshold,
                            ) == Some((self@.nodes, self@.edges)));
                            assert(builder_wf(self@)) by {
                                assert forall|i: int|
                                    0 <= i < self@.frontier.len() implies spec_tree_contains(
                                    self@.nodes,
                                    #[trigger] self@.frontier[i],
                                ) by {
                                    let w = choose|j: int|
                                        0 <= j < pre.nodes.len() && pre.nodes[j]
                                            == pre.frontier[i];
                                    assert(self@.nodes[w] == pre.frontier[i]);
                                }
                            }
                            assert(spec_resume(store@, self@) == spec_resume(store@, pre));
                        }
                    },
                }
            }
        }
    }

    /// The artist a paused build is waiting on.
    pub fn pending_artist(&self) -> (r: Option<String>)
        ensures
            match r {
                Some(p) => spec_pending(self@) == Some(p@),
                None => spec_pending(self@) is None,
            },
    {
        if !self.canonized {
            Some(self.root.clone())
        } else if self.level <= self.depth as u32 && self.pos < self.frontier.len() {
            Some(self.frontier[self.pos].clone())
        } else {
            None
        }
    }

    /// Hand an already-parsed payload to the build: write it back to the
    /// store, then canonicalize the root (before canonicalization) or check
    /// that the queried artist now resolves (after). Succeeds exactly when
    /// the ingested payload makes the pending artist resolvable; otherwise
    /// the payload answered a different artist and the build fails as a
    /// parse error, with the builder untouched.
    pub fn supply_parsed(&mut self, store: &mut Store, artist: &LastfmArtist) -> (r: Result<
        (),
        LastfmError,
    >)
        requires
            builder_wf(old(self)@),
            spec_pending(old(self)@) is Some,
            crate::lastfm::lastfm_wf(artist@),
        ensures
            builder_wf(final(self)@),
            final(self)@.threshold == old(self)@.threshold,
            final(self)@.depth == old(self)@.depth,
            final(store)@ == crate::lastfm::spec_ingest(old(store)@, artist@),
            match r {
                Ok(()) => {
                    &&& if old(self)@.canonized {
                        *final(self) == *old(self) && spec_resolve_canonical(
                            final(store)@,
                            spec_pending(old(self)@).unwrap(),
                        ) is Some
                    } else {
                        final(self)@ == spec_canonized_state(old(self)@, artist@.canonical)
                    }
                    &&& match spec_pending(final(self)@) {
                        Some(p) => spec_resolve_canonical(final(store)@, p) is Some,
                        None => spec_done(final(self)@),
                    }
                },
                Err(e) => {
                    &&& e == LastfmError::ParseError
                    &&& *final(self) == *old(self)
                    &&& old(self)@.canonized
                    &&& spec_resolve_canonical(
                        final(store)@,
                        spec_pending(old(self)@).unwrap(),
                    ) is None
                },
            },
    {
        let _map = store.ingest_similar(artist);
        proof {
            crate::lastfm::lemma_ingest_canonicalizes(old(store)@, artist@);
        }
        let ghost artist_model = artist@;
        if !self.canonized {
            self.root = artist.canonical_name.clone();
            let mut ns: Vec<String> = Vec::new();
            ns.push(self.root.clone());
            self.nodes = ns;
            let mut fr: Vec<String> = Vec::new();
            fr.push(self.root.clone());
            self.frontier = fr;
            self.pos = 0;
            self.level = 1;
            self.canonized = true;
            proof {
                assert(self@.nodes =~= seq![self@.root]);
                assert(self@.frontier =~= seq![self@.root]);
                assert(self@.edges =~= Seq::<EdgeModel>::empty());
                assert(spec_tree_contains(self@.nodes, self@.frontier[0]));
                assert(self@.root == artist_model.canonical);
                assert(self@ == spec_canonized_state(old(self)@, artist_model.canonical));
            }
            Ok(())
        } else {
            let pending = self.frontier[self.pos].clone();
            match store.canonical_name(pending.as_str()) {
                Some(_) => Ok(()),
                None => Err(LastfmError::ParseError),
            }
        }
    }

    /// Hand a fetched payload to the build: parse it, then proceed as
    /// `supply_parsed` — the exact behaviour for every parsed value stands
    /// there; this adapter only adds the parse step, whose failure is a
    /// parse error with builder and store untouched.
    pub fn supply(&mut self, store: &mut Store, payload: &str) -> (r: Result<(), LastfmError>)
        requires
            builder_wf(old(self)@),
            spec_pending(old(self)@) is Some,
        ensures
            builder_wf(final(self)@),
            final(self)@.threshold == old(self)@.threshold,
            final(self)@.depth == old(self)@.depth,
            match r {
                Ok(()) => {
                    &&& exists|a: LastfmModel| #![auto]
                        crate::lastfm::lastfm_wf(a) && final(store)@
                            == crate::lastfm::spec_ingest(old(store)@, a) && (if old(
                            self,
                        )@.canonized {
                            *final(self) == *old(self)
                        } else {
                            final(self)@ == spec_canonized_state(old(self)@, a.canonical)
                        })
                    &&& match spec_pending(final(self)@) {
                        Some(p) => spec_resolve_canonical(final(store)@, p) is Some,
                        None => spec_done(final(self)@),
                    }
                },
                Err(e) => {
                    &&& e == LastfmError::ParseError
                    &&& *final(self) == *old(self)
                    &&& (final(store)@ == old(store)@ || (old(self)@.canonized && exists|
                        a: LastfmModel,
                    | #![auto]
                        crate::lastfm::lastfm_wf(a) && final(store)@
                            == crate::lastfm::spec_ingest(old(store)@, a)
                            && spec_resolve_canonical(
                            final(store)@,
                            spec_pending(old(self)@).unwrap(),
                        ) is None))
                },
            },
    {
        let parsed = match crate::lastfm::parse_similar_artists(payload) {
            Ok(a) => a,
            Err(e) => {
                return Err(e);
            },
        };
        let ghost parsed_model = parsed@;
        let r = self.supply_parsed(store, &parsed);
        proof {
            if r is Ok {
                assert(crate::lastfm::lastfm_wf(parsed_model) && store@
                    == crate::lastfm::spec_ingest(old(store)@, parsed_model) && (if old(
                    self,
                )@.canonized {
                    *self == *old(self)
                } else {
                    self@ == spec_canonized_state(old(self)@, parsed_model.canonical)
                }));
            } else {
                assert(crate::lastfm::lastfm_wf(parsed_model) && store@
                    == crate::lastfm::spec_ingest(old(store)@, parsed_model)
                    && spec_resolve_canonical(store@, spec_pending(old(self)@).unwrap())
                    is None);
            }
        }
        r
    }

    /// Turn a finished build into its tree.
    pub fn finish(self) -> (t: ArtistTree)
        requires
            builder_wf(self@),
            spec_done(self@),
        ensures
            t@.root == self@.root,
            t@.nodes == self@.nodes,
            t@.edges == self@.edges,
            t@.threshold == self@.threshold,
            t@.depth == self@.depth,
    {
        ArtistTree {
            root: self.root,
            nodes: self.nodes,
            edges: self.edges,
            threshold: self.threshold,
            depth: self.depth,
        }
    }
}

/// Canonicalizing the root turns the whole-build continuation into the
/// canonized state's continuation.
proof fn lemma_canonize_step(
    m: StoreModel,
    raw: Seq<char>,
    c: Seq<char>,
    depth: int,
    threshold: int,
    s2: BuilderModel,
)
    requires
        0 <= depth,
        spec_resolve_canonical(m, raw) == Some(c),
        s2 == (BuilderModel {
            root: c,
            nodes: seq![c],
            edges: Seq::<EdgeModel>::empty(),
            threshold: threshold,
            depth: depth,
            level: 1,
            frontier: seq![c],
            pos: 0,
            canonized: true,
        }),
    ensures
        spec_resume(m, s2) == spec_build(m, raw, depth, threshold),
{
    if depth == 0 {
        assert(spec_build_levels(m, seq![c], Seq::<EdgeModel>::empty(), threshold, 0nat) == Some(
            (seq![c], Seq::<EdgeModel>::empty()),
        ));
    } else {
        assert(s2.frontier.skip(0) =~= seq![c]);
    }
}

impl ArtistTree {
    /// Assemble the tree from the store alone: resolve the root to its
    /// canonical name (which becomes the tree's root, at node 0), then
    /// expand `depth` levels, filtering children by the threshold and
    /// never adding a node or an edge for an artist already in the tree.
    /// When every artist on the way is cached the result is `Complete` —
    /// served entirely from the store, with zero network involvement;
    /// the first uncached artist pauses the build as `Pending` (fetch it,
    /// `supply` the payload, `advance` again), or fails it with `NoApiKey`
    /// when no credential is configured.
    pub fn build_tree(self, store: &Store) -> (r: Result<TreeOutcome, LastfmError>)
        ensures
            match r {
                Ok(TreeOutcome::Complete(t)) => {
                    &&& spec_build(store@, self@.root, self@.depth, self@.threshold) == Some(
                        (t@.root, t@.nodes, t@.edges),
                    )
                    &&& t@.threshold == self@.threshold
                    &&& t@.depth == self@.depth
                    &&& nodes_distinct(t@.nodes)
                    &&& edges_shape(t@.nodes, t@.edges, t@.threshold)
                    &&& t@.nodes.len() > 0 && t@.nodes[0] == t@.root
                },
                Ok(TreeOutcome::Pending(b)) => {
                    &&& spec_build(store@, self@.root, self@.depth, self@.threshold) is None
                    &&& store@.api_key is Some
                    &&& builder_wf(b@)
                    &&& spec_pending(b@) is Some
                    &&& spec_resolve_canonical(store@, spec_pending(b@).unwrap()) is None
                    &&& b@.threshold == self@.threshold
                    &&& b@.depth == self@.depth
                },
                Err(e) => {
                    &&& e == LastfmError::NoApiKey
                    &&& store@.api_key is None
                    &&& spec_build(store@, self@.root, self@.depth, self@.threshold) is None
                },
            },
    {
        proof {
            use_type_invariant(&self);
        }
        let mut b = TreeBuilder {
            root: self.root,
            nodes: Vec::new(),
            edges: Vec::new(),
            threshold: self.threshold,
            depth: self.depth,
            level: 1,
            frontier: Vec::new(),
            pos: 0,
            canonized: false,
        };
        proof {
            assert(b@.nodes =~= Seq::<Seq<char>>::empty());
            assert(b@.edges =~= Seq::<EdgeModel>::empty());
            assert(b@.frontier =~= Seq::<Seq<char>>::empty());
        }
        match b.advance(store) {
            Ok(true) => Ok(TreeOutcome::Complete(b.finish())),
            Ok(false) => Ok(TreeOutcome::Pending(b)),
            Err(e) => Err(e),
        }
    }
}

/// Every materialized edge met the threshold.
pub open spec fn edges_thresholded(edges: Seq<EdgeModel>, threshold: int) -> bool {
    forall|k: int| 0 <= k < edges.len() ==> threshold <= (#[trigger] edges[k]).weight
}

/// One expansion pass keeps node labels distinct and adds only edges that
/// met the threshold.
proof fn lemma_expand_children_props(
    nodes: Seq<Seq<char>>,
    edges: Seq<EdgeModel>,
    pidx: int,
    entries: Seq<(Seq<char>, int)>,
    threshold: int,
)
    requires
        nodes_distinct(nodes),
        edges_thresholded(edges, threshold),
    ensures
        nodes_distinct(spec_expand_children(nodes, edges, pidx, entries, threshold).0),
        edges_thresholded(spec_expand_children(nodes, edges, pidx, entries, threshold).1, threshold),
    decreases entries.len(),
{
    if entries.len() > 0 {
        let c = entries[0].0;
        let w = entries[0].1;
        if w >= threshold && !spec_tree_contains(nodes, c) {
            let n2 = nodes.push(c);
            let e2 = edges.push(EdgeModel { from: pidx, to: nodes.len() as int, weight: w });
            assert(nodes_distinct(n2)) by {
                assert forall|a: int, b: int|
                    #![trigger n2[a], n2[b]]
                    0 <= a < b < n2.len() implies n2[a] != n2[b] by {
                    if b == nodes.len() {
                        assert(n2[a] == nodes[a]);
                        if n2[a] == c {
                            assert(spec_tree_contains(nodes, c));
                        }
                    } else {
                        assert(n2[a] == nodes[a]);
                        assert(n2[b] == nodes[b]);
                    }
                }
            }
            assert(edges_thresholded(e2, threshold)) by {
                assert forall|k: int|
                    0 <= k < e2.len() implies threshold <= (#[trigger] e2[k]).weight by {
                    if k < edges.len() {
                        assert(e2[k] == edges[k]);
                    }
                }
            }
            lemma_expand_children_props(n2, e2, pidx, entries.drop_first(), threshold);
        } else {
            lemma_expand_children_props(nodes, edges, pidx, entries.drop_first(), threshold);
        }
    }
}

/// Expanding a whole frontier keeps both properties.
proof fn lemma_expand_frontier_props(
    m: StoreModel,
    nodes: Seq<Seq<char>>,
    edges: Seq<EdgeModel>,
    frontier: Seq<Seq<char>>,
    threshold: int,
)
    requires
        nodes_distinct(nodes),
        edges_thresholded(edges, threshold),
    ensures
        match spec_expand_frontier(m, nodes, edges, frontier, threshold) {
            Some((n2, e2)) => nodes_distinct(n2) && edges_thresholded(e2, threshold),
            None => true,
        },
    decreases frontier.len(),
{
    if frontier.len() > 0 {
        match spec_expand_artist(m, nodes, edges, frontier[0], threshold) {
            None => {},
            Some((n2, e2)) => {
                match spec_cached_map(m, frontier[0]) {
                    None => {},
                    Some(entries) => {
                        match spec_first_index(nodes, frontier[0]) {
                            None => {},
                            Some(pidx) => {
                                lemma_expand_children_props(
                                    nodes,
                                    edges,
                                    pidx,
                                    entries,
                                    threshold,
                                );
                            },
                        }
                    },
                }
                lemma_expand_frontier_props(m, n2, e2, frontier.drop_first(), threshold);
            },
        }
    }
}

/// Every level of a build keeps both properties.
proof fn lemma_build_levels_props(
    m: StoreModel,
    nodes: Seq<Seq<char>>,
    edges: Seq<EdgeModel>,
    threshold: int,
    levels_left: nat,
)
    requires
        nodes_distinct(nodes),
        edges_thresholded(edges, threshold),
    ensures
        match spec_build_levels(m, nodes, edges, threshold, levels_left) {
            Some((n2, e2)) => nodes_distinct(n2) && edges_thresholded(e2, threshold),
            None => true,
        },
    decreases levels_left,
{
    if levels_left > 0 {
        lemma_expand_frontier_props(m, nodes, edges, nodes, threshold);
        match spec_expand_frontier(m, nodes, edges, nodes, threshold) {
            None => {},
            Some((n2, e2)) => {
                lemma_build_levels_props(m, n2, e2, threshold, (levels_left - 1) as nat);
            },
        }
    }
}

/// Law: duplicate suppression. Whatever the store holds, a completed build
/// never carries an artist name twice among its node labels — a child seen
/// anywhere in the tree is never re-added as a node.
pub proof fn lemma_build_dedup(
    m: StoreModel,
    raw_root: Seq<char>,
    depth: int,
    threshold: int,
    c: Seq<char>,
    ns: Seq<Seq<char>>,
    es: Seq<EdgeModel>,
)
    requires
        spec_build(m, raw_root, depth, threshold) == Some((c, ns, es)),
    ensures
        nodes_distinct(ns),
{
    let root = spec_resolve_canonical(m, raw_root).unwrap();
    assert(nodes_distinct(seq![root]));
    assert(edges_thresholded(Seq::<EdgeModel>::empty(), threshold));
    lemma_build_levels_props(
        m,
        seq![root],
        Seq::empty(),
        threshold,
        (if depth >= 0 {
            depth
        } else {
            0int
        }) as nat,
    );
}

/// Law: threshold filtering. Whatever the store holds, a completed build
/// materializes no edge whose similarity lies below the threshold, so a
/// child connected only by such an edge does not enter the tree through it.
pub proof fn lemma_build_threshold_filtering(
    m: StoreModel,
    raw_root: Seq<char>,
    depth: int,
    threshold: int,
    c: Seq<char>,
    ns: Seq<Seq<char>>,
    es: Seq<EdgeModel>,
)
    requires
        spec_build(m, raw_root, depth, threshold) == Some((c, ns, es)),
    ensures
        edges_thresholded(es, threshold),
{
    let root = spec_resolve_canonical(m, raw_root).unwrap();
    assert(nodes_distinct(seq![root]));
    assert(edges_thresholded(Seq::<EdgeModel>::empty(), threshold));
    lemma_build_levels_props(
        m,
        seq![root],
        Seq::empty(),
        threshold,
        (if depth >= 0 {
            depth
        } else {
            0int
        }) as nat,
    );
}

} // verus!
