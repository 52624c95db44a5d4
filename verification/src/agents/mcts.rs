//! The tree of Monte Carlo Tree Search: expansion, random playouts and
//! backpropagation of their results.
use vstd::prelude::*;

use rand::rngs::ThreadRng;

use crate::othello::{Game, Play, Player};
use crate::othello::laws::{
    lemma_plays_are_valid, lemma_move_progress, moves_left_bound, play_line, valid_line,
};
use crate::rng::{random_below, shuffle_plays, thread_rng};

verus! {

broadcast use vstd::seq_lib::group_to_multiset_ensures;

/// Represents a node in the MCTS Tree.
pub struct Node {
    /// The index of the parent node in the `MCTSTree.arena`.
    pub parent: Option<usize>,
    /// The indexes of child nodes in the `MCTSTree.arena`.
    pub children: Vec<usize>,
    /// Vector of unexpanded moves.
    pub unexpanded_moves: Vec<Play>,
    /// Playouts through this node won (or tied) by the side that moved into it.
    pub wins: u32,
    /// Playouts through this node.
    pub visits: u32,
    pub state: Game,
}

impl Node {
    /// Creates a new `Node` with the specified `Game` state. The moves still
    /// to expand are all the moves of `state`, shuffled.
    pub fn new(state: Game, parent: Option<usize>) -> (n: Self)
        ensures
            n.parent == parent,
            n.children@.len() == 0,
            n.unexpanded_moves@.to_multiset() == state.spec_plays().to_multiset(),
            n.wins == 0,
            n.visits == 0,
            n.state == state,
    {
        let mut plays = state.generate_plays();
        let mut rng = thread_rng();
        // shuffle plays
        shuffle_plays(&mut plays, &mut rng);
        Self { parent, children: Vec::new(), unexpanded_moves: plays, wins: 0, visits: 0, state }
    }

    pub fn is_terminal(&self) -> (b: bool)
        ensures
            b == (self.state.spec_game_state() != Player::InProgress),
    {
        self.state.game_state() != Player::InProgress
    }

    pub fn is_fully_expanded(&self) -> (b: bool)
        ensures
            b == (self.unexpanded_moves@.len() == 0),
    {
        self.unexpanded_moves.len() == 0
    }
}

pub struct MctsSearchResult {
    pub search_iterations: u32,
}

/// Node `j` lies on the way from node `i` up to the root (`i` included).
pub open spec fn on_path(nodes: Seq<Node>, i: int, j: int) -> bool
    decreases i,
{
    if i < 0 || i >= nodes.len() {
        false
    } else if i == j {
        true
    } else {
        match nodes[i].parent {
            Some(p) => if (p as int) < i {
                on_path(nodes, p as int, j)
            } else {
                false
            },
            None => false,
        }
    }
}

/// `child` is the position after its previous move, a valid move in `parent`.
#[verifier::opaque]
pub open spec fn move_leads(parent: Game, child: Game) -> bool {
    &&& parent.spec_is_valid_play(child.previous_move)
    &&& child == parent.spec_make_play(child.previous_move)
}

/// `play` is a valid move in `g`.
#[verifier::opaque]
pub open spec fn valid_in(g: Game, play: Play) -> bool {
    g.spec_is_valid_play(play)
}

/// The moves into the children of node `i`, in the order of the children.
pub open spec fn child_moves(nodes: Seq<Node>, i: int) -> Seq<Play> {
    nodes[i].children@.map_values(|c: usize| nodes[c as int].state.previous_move)
}

/// The moves into the children and the moves left to expand are, together,
/// exactly the moves of the position `g` (as many times each).
#[verifier::opaque]
pub open spec fn moves_complete(expanded: Seq<Play>, left: Seq<Play>, g: Game) -> bool {
    (expanded + left).to_multiset() == g.spec_plays().to_multiset()
}

/// The conditions on node `i` of a search tree stored in an arena: the root
/// (index 0) has no parent; every other node has an earlier parent that
/// lists it among its children, has no more visits than it, and reaches its
/// state by a valid move from the parent's state; children come later and
/// name the node as their parent; wins never exceed visits; the moves left
/// to expand are valid in the node's state, and they and the moves into the
/// children are exactly the moves of the node's state; no child is listed
/// twice (and, naming the node as its parent, it is listed nowhere else).
pub open spec fn node_ok(nodes: Seq<Node>, i: int) -> bool {
    &&& (i == 0 ==> nodes[i].parent is None)
    &&& (i > 0 ==> match nodes[i].parent {
        Some(p) => {
            &&& (p as int) < i
            &&& nodes[p as int].children@.contains(i as usize)
            &&& nodes[i].visits <= nodes[p as int].visits
            &&& move_leads(nodes[p as int].state, nodes[i].state)
        },
        None => false,
    })
    &&& forall|k: int|
        0 <= k < nodes[i].children@.len() ==> {
            let c = #[trigger] nodes[i].children@[k] as int;
            &&& i < c < nodes.len()
            &&& nodes[c].parent == Some(i as usize)
        }
    &&& nodes[i].wins <= nodes[i].visits
    &&& forall|k: int|
        0 <= k < nodes[i].unexpanded_moves@.len() ==> valid_in(
            nodes[i].state,
            #[trigger] nodes[i].unexpanded_moves@[k],
        )
    &&& moves_complete(child_moves(nodes, i), nodes[i].unexpanded_moves@, nodes[i].state)
    &&& nodes[i].children@.no_duplicates()
}

/// A search tree stored in an arena: at least the root, every node as `node_ok` says.
pub open spec fn tree_wf(nodes: Seq<Node>) -> bool {
    &&& nodes.len() >= 1
    &&& forall|i: int| 0 <= i < nodes.len() ==> #[trigger] node_ok(nodes, i)
}

/// Represents a MCTS Tree. Owns all the nodes in the tree.
pub struct Mcts {
    arena: Vec<Node>,
    /// The index of the root `Node`.
    root_node_index: usize,
    /// The maximum number of iterations to run the search for.
    max_iterations: u32,
    rng: ThreadRng,
}

impl Mcts {
    /// The nodes of the tree, the root first.
    pub closed spec fn nodes(&self) -> Seq<Node> {
        self.arena@
    }

    /// The tree is well formed (see `tree_wf`) and rooted at index 0.
    pub closed spec fn wf(&self) -> bool {
        &&& tree_wf(self.arena@)
        &&& self.root_node_index == 0
    }

    pub closed spec fn spec_max_iterations(&self) -> u32 {
        self.max_iterations
    }

    pub fn new(state: Game, max_iterations: u32) -> (t: Self)
        ensures
            t.wf(),
            t.nodes().len() == 1,
            t.nodes()[0].state == state,
            t.nodes()[0].visits == 0,
            t.nodes()[0].wins == 0,
            t.nodes()[0].children@.len() == 0,
            t.nodes()[0].unexpanded_moves@.to_multiset() == state.spec_plays().to_multiset(),
            t.spec_max_iterations() == max_iterations,
    {
        let mut arena = Vec::new();
        let node = Node::new(state, None);
        arena.push(node);
        proof {
            lemma_fresh_moves_valid(state, arena@[0].unexpanded_moves@);
            reveal(moves_complete);
            assert(child_moves(arena@, 0) + arena@[0].unexpanded_moves@ =~= arena@[0].unexpanded_moves@);
            assert(node_ok(arena@, 0));
        }
        Mcts { arena, root_node_index: 0, rng: thread_rng(), max_iterations }
    }

    /// A well-formed search tree has the shape `tree_wf` describes.
    pub proof fn lemma_wf_tree(&self)
        requires
            self.wf(),
        ensures
            tree_wf(self.nodes()),
    {
    }

    /// The index of the root node.
    pub fn root_node_index(&self) -> (r: usize)
        requires
            self.wf(),
        ensures
            r == 0,
    {
        self.root_node_index
    }

    /// The maximum number of iterations the tree was made with.
    pub fn max_iterations(&self) -> (r: u32)
        ensures
            r == self.spec_max_iterations(),
    {
        self.max_iterations
    }

    /// The node at `index`.
    pub fn get_node(&self, index: usize) -> (n: &Node)
        requires
            index < self.nodes().len(),
        ensures
            *n == self.nodes()[index as int],
    {
        &self.arena[index]
    }

    /// Clones `state` and mutates the game with `play`.
    fn advance_state(state: &Game, play: Play) -> (g: Game)
        ensures
            g == state.spec_make_play(play),
    {
        let mut tmp_state = *state;
        tmp_state.make_play(play);
        tmp_state
    }
}

/// The arenas hold the same tree; only visit and win counts may differ.
pub open spec fn same_shape(a: Seq<Node>, b: Seq<Node>) -> bool {
    &&& a.len() == b.len()
    &&& forall|j: int|
        0 <= j < a.len() ==> {
            &&& (#[trigger] b[j]).parent == a[j].parent
            &&& b[j].children@ == a[j].children@
            &&& b[j].unexpanded_moves@ == a[j].unexpanded_moves@
            &&& b[j].state == a[j].state
        }
}

/// Only the nodes up from `i` to the root lie on its path, `i` first.
proof fn lemma_on_path_below(nodes: Seq<Node>, i: int, j: int)
    requires
        on_path(nodes, i, j),
    ensures
        0 <= j <= i < nodes.len(),
    decreases i,
{
    if i != j {
        match nodes[i].parent {
            Some(p) => {
                lemma_on_path_below(nodes, p as int, j);
            },
            None => {},
        }
    }
}

/// The parent index of node `i` (0 for the root).
pub open spec fn parent_of(nodes: Seq<Node>, i: int) -> int {
    match nodes[i].parent {
        Some(p) => p as int,
        None => 0,
    }
}

/// No node has more visits than the root.
proof fn lemma_visits_below_root(nodes: Seq<Node>, i: int)
    requires
        tree_wf(nodes),
        0 <= i < nodes.len(),
    ensures
        nodes[i].visits <= nodes[0].visits,
    decreases i,
{
    assert(node_ok(nodes, i));
    if i > 0 {
        lemma_visits_below_root(nodes, parent_of(nodes, i));
    }
}

/// One node keeps its conditions when only the counts change, as long as
/// it has no more visits than its parent and its wins stay within visits.
proof fn lemma_node_ok_same_shape(a: Seq<Node>, b: Seq<Node>, i: int)
    requires
        node_ok(a, i),
        same_shape(a, b),
        0 <= i < a.len(),
        i > 0 ==> b[i].visits <= b[parent_of(a, i)].visits,
        b[i].wins <= b[i].visits,
    ensures
        node_ok(b, i),
{
    assert(b[i].parent == a[i].parent);
    if i > 0 {
        let p = parent_of(a, i);
        assert(b[p].children@ == a[p].children@);
        assert(b[p].state == a[p].state);
    }
    assert forall|k: int| 0 <= k < b[i].children@.len() implies {
        let c = #[trigger] b[i].children@[k] as int;
        &&& i < c < b.len()
        &&& b[c].parent == Some(i as usize)
    } by {
        let c = a[i].children@[k] as int;
        assert(b[c].parent == a[c].parent);
    }
    assert forall|k: int| 0 <= k < b[i].unexpanded_moves@.len() implies valid_in(
        b[i].state,
        #[trigger] b[i].unexpanded_moves@[k],
    ) by {
        assert(valid_in(a[i].state, a[i].unexpanded_moves@[k]));
    }
    assert(child_moves(b, i) =~= child_moves(a, i)) by {
        assert forall|k: int| 0 <= k < a[i].children@.len() implies child_moves(b, i)[k] == child_moves(a, i)[k] by {
            let c = a[i].children@[k] as int;
            assert(b[c].state == a[c].state);
        }
    }
}

/// A well-formed tree stays well formed when only the counts change, as
/// long as visits do not grow down the tree and wins stay within visits.
proof fn lemma_wf_same_shape(a: Seq<Node>, b: Seq<Node>)
    requires
        tree_wf(a),
        same_shape(a, b),
        forall|i: int| 0 < i < b.len() ==> (#[trigger] b[i]).visits <= b[parent_of(a, i)].visits,
        forall|i: int| 0 <= i < b.len() ==> (#[trigger] b[i]).wins <= b[i].visits,
    ensures
        tree_wf(b),
{
    assert forall|i: int| 0 <= i < b.len() implies #[trigger] node_ok(b, i) by {
        assert(node_ok(a, i));
        assert(b[i].wins <= b[i].visits);
        lemma_node_ok_same_shape(a, b, i);
    }
}

/// Paths to the root depend only on the parent links.
proof fn lemma_on_path_same_shape(a: Seq<Node>, b: Seq<Node>, i: int, j: int)
    requires
        same_shape(a, b),
    ensures
        on_path(a, i, j) == on_path(b, i, j),
    decreases i,
{
    if 0 <= i < a.len() && i != j {
        assert(b[i].parent == a[i].parent);
        match a[i].parent {
            Some(p) => {
                if (p as int) < i {
                    lemma_on_path_same_shape(a, b, p as int, j);
                }
            },
            None => {},
        }
    }
}

/// The path from any node to the root is closed under taking parents.
proof fn lemma_on_path_parent(nodes: Seq<Node>, x: int, i: int)
    requires
        tree_wf(nodes),
        on_path(nodes, x, i),
        i > 0,
    ensures
        on_path(nodes, x, parent_of(nodes, i)),
    decreases x,
{
    assert(node_ok(nodes, x));
    lemma_on_path_below(nodes, x, i);
    if x != i {
        lemma_on_path_parent(nodes, parent_of(nodes, x), i);
        if x != parent_of(nodes, i) {
            assert(on_path(nodes, x, parent_of(nodes, i)) == on_path(nodes, parent_of(nodes, x), parent_of(nodes, i)));
        }
    } else {
        assert(node_ok(nodes, i));
        assert(on_path(nodes, parent_of(nodes, i), parent_of(nodes, i)));
    }
}

/// Adding one visit along the path from `index` to the root keeps the tree well formed.
proof fn lemma_wf_after_path_count(a: Seq<Node>, b: Seq<Node>, index: int)
    requires
        tree_wf(a),
        same_shape(a, b),
        forall|j: int|
            0 <= j < a.len() ==> (#[trigger] b[j]).visits == a[j].visits + if on_path(a, index, j) {
                1int
            } else {
                0int
            },
        forall|j: int|
            0 <= j < a.len() ==> (#[trigger] b[j]).wins <= a[j].wins + if on_path(a, index, j) {
                1int
            } else {
                0int
            },
    ensures
        tree_wf(b),
{
    assert forall|i: int| 0 < i < b.len() implies (#[trigger] b[i]).visits <= b[parent_of(a, i)].visits by {
        assert(node_ok(a, i));
        let q = parent_of(a, i);
        assert(b[q].visits == a[q].visits + if on_path(a, index, q) { 1int } else { 0int });
        if on_path(a, index, i) {
            lemma_on_path_parent(a, index, i);
        }
    }
    assert forall|i: int| 0 <= i < b.len() implies (#[trigger] b[i]).wins <= b[i].visits by {
        assert(node_ok(a, i));
    }
    lemma_wf_same_shape(a, b);
}

/// Moving the last move left to expand into a new last child keeps the
/// moves of the node accounted for.
proof fn lemma_expand_moves_complete(a: Seq<Node>, b: Seq<Node>, i: int, n: usize)
    requires
        tree_wf(a),
        0 <= i < a.len(),
        n == a.len(),
        b.len() == n + 1,
        a[i].unexpanded_moves@.len() > 0,
        b[i].state == a[i].state,
        b[i].unexpanded_moves@ == a[i].unexpanded_moves@.drop_last(),
        b[i].children@ == a[i].children@.push(n),
        b[n as int].state.previous_move == a[i].unexpanded_moves@.last(),
        forall|c: int| 0 <= c < a.len() ==> #[trigger] b[c].state == a[c].state,
    ensures
        moves_complete(child_moves(b, i), b[i].unexpanded_moves@, b[i].state),
{
    assert(node_ok(a, i));
    let u = a[i].unexpanded_moves@;
    let cm = child_moves(a, i);
    let x = u.last();
    assert(child_moves(b, i) =~= cm.push(x)) by {
        assert forall|k: int| 0 <= k < a[i].children@.len() implies child_moves(b, i)[k] == cm[k] by {
            let c = a[i].children@[k] as int;
            assert(c < a.len());
            assert(b[c].state == a[c].state);
        }
        assert(child_moves(b, i)[cm.len() as int] == x);
    }
    assert(u =~= u.drop_last().push(x));
    vstd::seq_lib::lemma_multiset_commutative(cm.push(x), u.drop_last());
    vstd::seq_lib::lemma_multiset_commutative(cm, u);
    vstd::seq_lib::lemma_multiset_commutative(cm, seq![x]);
    vstd::seq_lib::lemma_multiset_commutative(u.drop_last(), seq![x]);
    assert(cm.push(x) =~= cm + seq![x]);
    assert(u.drop_last().push(x) =~= u.drop_last() + seq![x]);
    reveal(moves_complete);
    assert((cm.push(x) + u.drop_last()).to_multiset() =~= (cm + u).to_multiset());
}

/// The shuffled moves of a fresh node are all valid in its state.
proof fn lemma_fresh_moves_valid(state: Game, moves: Seq<Play>)
    requires
        moves.to_multiset() == state.spec_plays().to_multiset(),
    ensures
        forall|k: int| 0 <= k < moves.len() ==> valid_in(state, #[trigger] moves[k]),
{
    lemma_plays_are_valid(state);
    reveal(valid_in);
    assert forall|k: int| 0 <= k < moves.len() implies valid_in(state, #[trigger] moves[k]) by {
        let p = moves[k];
        assert(moves.contains(p));
        assert(moves.to_multiset().count(p) > 0);
        assert(state.spec_plays().to_multiset().count(p) > 0);
        assert(state.spec_plays().contains(p));
    }
}

/// The root lies on the path from every node.
proof fn lemma_root_on_path(nodes: Seq<Node>, x: int)
    requires
        tree_wf(nodes),
        0 <= x < nodes.len(),
    ensures
        on_path(nodes, x, 0),
    decreases x,
{
    assert(node_ok(nodes, x));
    if x > 0 {
        lemma_root_on_path(nodes, parent_of(nodes, x));
    }
}

/// The node a search step from node `i` simulates: the new child when `i`
/// has moves left to expand (it goes at the end of the arena), else `i`.
pub open spec fn simulated_index(nodes: Seq<Node>, i: int) -> int {
    if nodes[i].unexpanded_moves@.len() > 0 {
        nodes.len() as int
    } else {
        i
    }
}

/// `w` is how a game from `g` ends after some line of valid moves.
pub open spec fn playout_outcome(g: Game, w: Player) -> bool {
    &&& w != Player::InProgress
    &&& exists|line: Seq<Play>| valid_line(g, line) && #[trigger] play_line(g, line).spec_game_state() == w
}

/// The most visits among the first `n` children.
pub open spec fn max_child_visits(nodes: Seq<Node>, kids: Seq<usize>, n: int) -> u32
    decreases n,
{
    if n <= 0 {
        0
    } else {
        let a = max_child_visits(nodes, kids, n - 1);
        let v = nodes[kids[n - 1] as int].visits;
        if v > a {
            v
        } else {
            a
        }
    }
}

/// The first child at or after position `i` with `v` visits.
pub open spec fn first_child_with_visits(nodes: Seq<Node>, kids: Seq<usize>, v: u32, i: int) -> int
    decreases kids.len() - i,
{
    if i < 0 || i >= kids.len() {
        kids.len() as int
    } else if nodes[kids[i] as int].visits == v {
        i
    } else {
        first_child_with_visits(nodes, kids, v, i + 1)
    }
}

/// The move into the first most visited child of the root, or `Play(0)`
/// when no child of the root has a visit.
pub open spec fn most_visited_play(nodes: Seq<Node>) -> Play {
    let kids = nodes[0].children@;
    let best = max_child_visits(nodes, kids, kids.len() as int);
    if best == 0 {
        Play(0)
    } else {
        nodes[kids[first_child_with_visits(nodes, kids, best, 0)] as int].state.previous_move
    }
}

proof fn lemma_first_child_with_visits(nodes: Seq<Node>, kids: Seq<usize>, v: u32, i: int, k: int)
    requires
        0 <= i <= k < kids.len(),
        nodes[kids[k] as int].visits == v,
        forall|j: int| i <= j < k ==> nodes[#[trigger] kids[j] as int].visits != v,
    ensures
        first_child_with_visits(nodes, kids, v, i) == k,
    decreases k - i,
{
    if i < k {
        lemma_first_child_with_visits(nodes, kids, v, i + 1, k);
    }
}

proof fn lemma_max_child_visits_bound(nodes: Seq<Node>, kids: Seq<usize>, n: int, j: int)
    requires
        0 <= j < n <= kids.len(),
    ensures
        nodes[kids[j] as int].visits <= max_child_visits(nodes, kids, n),
    decreases n,
{
    if j < n - 1 {
        lemma_max_child_visits_bound(nodes, kids, n - 1, j);
    }
}

/// Some child has the most visits when that count is positive.
proof fn lemma_max_child_visits_attained(nodes: Seq<Node>, kids: Seq<usize>, n: int) -> (j: int)
    requires
        0 < n <= kids.len(),
        max_child_visits(nodes, kids, n) > 0,
    ensures
        0 <= j < n,
        nodes[kids[j] as int].visits == max_child_visits(nodes, kids, n),
    decreases n,
{
    let a = max_child_visits(nodes, kids, n - 1);
    if nodes[kids[n - 1] as int].visits > a {
        n - 1
    } else {
        lemma_max_child_visits_attained(nodes, kids, n - 1)
    }
}

/// The search for a visit count finds its first holder.
proof fn lemma_first_child_found(nodes: Seq<Node>, kids: Seq<usize>, v: u32, i: int, j: int)
    requires
        0 <= i <= j < kids.len(),
        nodes[kids[j] as int].visits == v,
    ensures
        i <= first_child_with_visits(nodes, kids, v, i) <= j,
        nodes[kids[first_child_with_visits(nodes, kids, v, i)] as int].visits == v,
        forall|m: int|
            i <= m < first_child_with_visits(nodes, kids, v, i) ==> nodes[#[trigger] kids[m] as int].visits
                != v,
    decreases j - i,
{
    if nodes[kids[i] as int].visits != v {
        lemma_first_child_found(nodes, kids, v, i + 1, j);
    }
}

/// Child position `k` of `kids` has the most visits among them, and is the
/// first that has so many.
pub open spec fn first_most_visited(nodes: Seq<Node>, kids: Seq<usize>, k: int) -> bool {
    &&& 0 <= k < kids.len()
    &&& forall|j: int|
        0 <= j < kids.len() ==> nodes[#[trigger] kids[j] as int].visits <= nodes[kids[k] as int].visits
    &&& forall|j: int| 0 <= j < k ==> nodes[#[trigger] kids[j] as int].visits < nodes[kids[k] as int].visits
}

/// Some child of the root has a visit.
pub open spec fn some_child_visited(nodes: Seq<Node>) -> bool {
    exists|j: int|
        0 <= j < nodes[0].children@.len() && nodes[#[trigger] nodes[0].children@[j] as int].visits > 0
}

/// The move MCTS picks comes from the first of the root's most visited
/// children, once any child has a visit; with no visit at all it is `Play(0)`.
pub proof fn lemma_most_visited_play(nodes: Seq<Node>) -> (k: int)
    requires
        nodes.len() >= 1,
    ensures
        !some_child_visited(nodes) ==> most_visited_play(nodes) == Play(0),
        some_child_visited(nodes) ==> first_most_visited(nodes, nodes[0].children@, k)
            && most_visited_play(nodes) == nodes[nodes[0].children@[k] as int].state.previous_move,
{
    let kids = nodes[0].children@;
    let n = kids.len() as int;
    let best = max_child_visits(nodes, kids, n);
    if some_child_visited(nodes) {
        let j0 = choose|j: int| 0 <= j < kids.len() && nodes[#[trigger] kids[j] as int].visits > 0;
        lemma_max_child_visits_bound(nodes, kids, n, j0);
        let j = lemma_max_child_visits_attained(nodes, kids, n);
        lemma_first_child_found(nodes, kids, best, 0, j);
        let k = first_child_with_visits(nodes, kids, best, 0);
        assert forall|m: int| 0 <= m < kids.len() implies nodes[#[trigger] kids[m] as int].visits
            <= nodes[kids[k] as int].visits by {
            lemma_max_child_visits_bound(nodes, kids, n, m);
        }
        assert forall|m: int| 0 <= m < k implies nodes[#[trigger] kids[m] as int].visits
            < nodes[kids[k] as int].visits by {
            lemma_max_child_visits_bound(nodes, kids, n, m);
        }
        k
    } else {
        if n > 0 && best > 0 {
            let j = lemma_max_child_visits_attained(nodes, kids, n);
            assert(nodes[kids[j] as int].visits > 0);
        }
        0
    }
}

impl Mcts {
    /// ### Monte Carlo Tree Search - step 4.
    /// Counts a playout won by `winner` on the node at `index` and on every
    /// node above it: one more visit each, and one more win where the side
    /// that moved into the node is not the loser (`player_to_move` is not
    /// the winner).
    fn backpropagate(&mut self, index: usize, winner: Player)
        requires
            old(self).wf(),
            index < old(self).nodes().len(),
            old(self).nodes()[0].visits < u32::MAX,
        ensures
            final(self).wf(),
            same_shape(old(self).nodes(), final(self).nodes()),
            final(self).spec_max_iterations() == old(self).spec_max_iterations(),
            forall|j: int|
                0 <= j < old(self).nodes().len() ==> (#[trigger] final(self).nodes()[j]).visits
                    == old(self).nodes()[j].visits + if on_path(old(self).nodes(), index as int, j) {
                    1int
                } else {
                    0int
                },
            forall|j: int|
                0 <= j < old(self).nodes().len() ==> (#[trigger] final(self).nodes()[j]).wins
                    == old(self).nodes()[j].wins + if on_path(old(self).nodes(), index as int, j)
                    && old(self).nodes()[j].state.player_to_move != winner {
                    1int
                } else {
                    0int
                },
        decreases index,
    {
        let ghost old_nodes = self.arena@;
        proof {
            lemma_visits_below_root(old_nodes, index as int);
            assert(node_ok(old_nodes, index as int));
        }
        let parent = self.arena[index].parent;
        match parent {
            Some(p) => {
                self.backpropagate(p, winner);
            },
            None => {},
        }
        let ghost mid = self.arena@;
        proof {
            assert forall|j: int| 0 <= j < old_nodes.len() implies on_path(old_nodes, index as int, j)
                == (j == index || match parent {
                Some(p) => on_path(old_nodes, p as int, j),
                None => false,
            }) by {}
            match parent {
                Some(p) => {
                    if on_path(old_nodes, p as int, index as int) {
                        lemma_on_path_below(old_nodes, p as int, index as int);
                    }
                },
                None => {},
            }
            assert(mid[index as int].visits == old_nodes[index as int].visits);
        }
        let visits = self.arena[index].visits;
        let wins = self.arena[index].wins;
        let to_move = self.arena[index].state.player_to_move;
        self.arena[index].visits = visits + 1;
        if to_move != winner {
            self.arena[index].wins = wins + 1;
        }
        proof {
            let b = self.arena@;
            assert forall|j: int| 0 <= j < old_nodes.len() implies (#[trigger] b[j]).visits
                == old_nodes[j].visits + if on_path(old_nodes, index as int, j) {
                1int
            } else {
                0int
            } by {
                if j != index {
                    assert(b[j] == mid[j]);
                }
            }
            assert forall|j: int| 0 <= j < old_nodes.len() implies (#[trigger] b[j]).wins
                == old_nodes[j].wins + if on_path(old_nodes, index as int, j)
                && old_nodes[j].state.player_to_move != winner {
                1int
            } else {
                0int
            } by {
                if j != index {
                    assert(b[j] == mid[j]);
                }
            }
            lemma_wf_after_path_count(old_nodes, b, index as int);
        }
    }
    /// Takes ownership of `node` and adds it to `self.arena`.
    /// # Arguments
    /// * `parent` - The index of the parent in `self.arena`.
    ///
    /// Returns the index of the newly added `Node`.
    fn add_node(&mut self, parent: usize, state: Game) -> (index: usize)
        ensures
            index == old(self).nodes().len(),
            final(self).nodes().len() == old(self).nodes().len() + 1,
            final(self).nodes().subrange(0, index as int) == old(self).nodes(),
            final(self).nodes()[index as int].parent == Some(parent),
            final(self).nodes()[index as int].children@.len() == 0,
            final(self).nodes()[index as int].unexpanded_moves@.to_multiset()
                == state.spec_plays().to_multiset(),
            final(self).nodes()[index as int].wins == 0,
            final(self).nodes()[index as int].visits == 0,
            final(self).nodes()[index as int].state == state,
            final(self).root_node_index == old(self).root_node_index,
            final(self).spec_max_iterations() == old(self).spec_max_iterations(),
    {
        let index = self.arena.len();
        let node = Node::new(state, Some(parent));  // root node does not have parent
        self.arena.push(node);
        proof {
            assert(self.arena@.subrange(0, index as int) =~= old(self).arena@);
        }
        index
    }

    /// ### Monte Carlo Tree Search - step 2.
    /// Pops the last move left to expand at node `index` and adds the node it
    /// leads to as the last child of `index`. Returns the index of the new `Node`.
    fn expand(&mut self, index: usize) -> (new_index: usize)
        requires
            old(self).wf(),
            index < old(self).nodes().len(),
            old(self).nodes()[index as int].unexpanded_moves@.len() > 0,
        ensures
            final(self).wf(),
            new_index == old(self).nodes().len(),
            final(self).nodes().len() == old(self).nodes().len() + 1,
            final(self).nodes()[new_index as int].parent == Some(index),
            final(self).nodes()[new_index as int].visits == 0,
            final(self).nodes()[new_index as int].wins == 0,
            final(self).nodes()[new_index as int].children@.len() == 0,
            final(self).nodes()[new_index as int].unexpanded_moves@.to_multiset()
                == final(self).nodes()[new_index as int].state.spec_plays().to_multiset(),
            final(self).nodes()[index as int].parent == old(self).nodes()[index as int].parent,
            final(self).nodes()[index as int].visits == old(self).nodes()[index as int].visits,
            final(self).nodes()[index as int].wins == old(self).nodes()[index as int].wins,
            final(self).nodes()[index as int].state == old(self).nodes()[index as int].state,
            forall|j: int|
                0 <= j < old(self).nodes().len() && j != index ==> #[trigger] final(self).nodes()[j]
                    == old(self).nodes()[j],
            final(self).nodes()[new_index as int].state == old(self).nodes()[index as int].state.spec_make_play(
                old(self).nodes()[index as int].unexpanded_moves@.last(),
            ),
            final(self).nodes()[index as int].unexpanded_moves@ == old(self).nodes()[index as int].unexpanded_moves@.drop_last(),
            final(self).nodes()[index as int].children@ == old(self).nodes()[index as int].children@.push(new_index),
            forall|j: int| 0 <= j < old(self).nodes().len() ==> (#[trigger] final(self).nodes()[j]).visits
                == old(self).nodes()[j].visits,
            final(self).spec_max_iterations() == old(self).spec_max_iterations(),
    {
        let ghost old_nodes = self.arena@;
        proof {
            assert(node_ok(old_nodes, index as int));
        }
        let last_move = self.arena[index].unexpanded_moves.pop();
        let ghost a1 = self.arena@;
        proof {
            assert(forall|j: int| 0 <= j < old_nodes.len() && j != index ==> #[trigger] a1[j] == old_nodes[j]);
        }
        let play = last_move.unwrap();
        let new_node_index = self.arena.len();
        let new_state = Self::advance_state(&self.arena[index].state, play);  // create new state from play
        self.add_node(index, new_state);  // create new Node
        let ghost a2 = self.arena@;
        proof {
            assert forall|j: int| 0 <= j < old_nodes.len() implies #[trigger] a2[j] == a1[j] by {
                assert(a2.subrange(0, new_node_index as int)[j] == a2[j]);
            }
        }
        self.arena[index].children.push(new_node_index);
        proof {
            let b = self.arena@;
            let n = new_node_index as int;
            assert(b.len() == old_nodes.len() + 1);
            assert(b[n] == a2[n]);
            assert(b[index as int].children@ == a1[index as int].children@.push(new_node_index));
            assert(b[index as int].children@[b[index as int].children@.len() - 1] == new_node_index);
            assert forall|j: int| 0 <= j < old_nodes.len() && j != index implies #[trigger] b[j] == old_nodes[j] by {
                assert(b[j] == a2[j]);
                assert(a2[j] == a1[j]);
            }
            assert(valid_in(old_nodes[index as int].state, play));
            lemma_fresh_moves_valid(new_state, b[n].unexpanded_moves@);
            assert forall|c: int| 0 <= c < old_nodes.len() implies #[trigger] b[c].state == old_nodes[c].state by {
                if c != index {
                    assert(b[c] == old_nodes[c]);
                }
            }
            assert(b[n].state.previous_move == play);
            assert forall|i: int| 0 <= i < b.len() implies #[trigger] node_ok(b, i) by {
                if i == n {
                    reveal(valid_in);
                    reveal(move_leads);
                    assert(b[index as int].children@.contains(new_node_index));
                    reveal(moves_complete);
                    assert(child_moves(b, n) + b[n].unexpanded_moves@ =~= b[n].unexpanded_moves@);
                } else {
                    assert(node_ok(old_nodes, i));
                    if i == index {
                        assert forall|k: int| 0 <= k < b[i].children@.len() implies {
                            let c = #[trigger] b[i].children@[k] as int;
                            &&& i < c < b.len()
                            &&& b[c].parent == Some(i as usize)
                        } by {
                            if k < old_nodes[i].children@.len() {
                                assert(b[i].children@[k] == old_nodes[i].children@[k]);
                            }
                        }
                        assert forall|k: int| 0 <= k < b[i].unexpanded_moves@.len() implies valid_in(
                            b[i].state,
                            #[trigger] b[i].unexpanded_moves@[k],
                        ) by {
                            assert(b[i].unexpanded_moves@[k] == old_nodes[i].unexpanded_moves@[k]);
                        }
                        if i > 0 {
                            let p = parent_of(old_nodes, i);
                            assert(b[p] == old_nodes[p]);
                        }
                        lemma_expand_moves_complete(old_nodes, b, i, new_node_index);
                        assert forall|x: int, y: int| 0 <= x < y < b[i].children@.len() implies b[i].children@[x]
                            != b[i].children@[y] by {
                            if y == old_nodes[i].children@.len() {
                                assert(old_nodes[i].children@[x] as int > i);
                                assert(old_nodes[i].children@[x] < new_node_index);
                            } else {
                                assert(old_nodes[i].children@[x] != old_nodes[i].children@[y]);
                            }
                        }
                    } else {
                        if i > 0 {
                            let p = parent_of(old_nodes, i);
                            if p == index {
                                assert(old_nodes[p].children@.contains(i as usize));
                                let k = choose|k: int| 0 <= k < old_nodes[p].children@.len() && old_nodes[p].children@[k] == i as usize;
                                assert(b[p].children@[k] == i as usize);
                            } else {
                                assert(b[p] == old_nodes[p]);
                            }
                        }
                        assert forall|k: int| 0 <= k < b[i].children@.len() implies {
                            let c = #[trigger] b[i].children@[k] as int;
                            &&& i < c < b.len()
                            &&& b[c].parent == Some(i as usize)
                        } by {
                            let c = old_nodes[i].children@[k] as int;
                            if c != index {
                                assert(b[c] == old_nodes[c]);
                            }
                        }
                        assert(child_moves(b, i) =~= child_moves(old_nodes, i)) by {
                            assert forall|k: int| 0 <= k < old_nodes[i].children@.len() implies child_moves(b, i)[k]
                                == child_moves(old_nodes, i)[k] by {
                                let c = old_nodes[i].children@[k] as int;
                                assert(b[c].state == old_nodes[c].state);
                            }
                        }
                    }
                }
            }
        }
        new_node_index
    }

    /// ### Monte Carlo Tree Search - step 3.
    /// Plays random valid moves from the state of node `index` until the
    /// game ends, and returns the outcome.
    fn simulate(&mut self, index: usize) -> (winner: Player)
        requires
            index < old(self).nodes().len(),
        ensures
            final(self).nodes() == old(self).nodes(),
            final(self).wf() == old(self).wf(),
            final(self).spec_max_iterations() == old(self).spec_max_iterations(),
            winner != Player::InProgress,
            exists|line: Seq<Play>|
                valid_line(old(self).nodes()[index as int].state, line) && #[trigger] play_line(
                    old(self).nodes()[index as int].state,
                    line,
                ).spec_game_state() == winner,
    {
        let mut state = self.arena[index].state;
        let ghost start = state;
        let ghost a0 = self.arena@;
        let ghost r0 = self.root_node_index;
        let ghost m0 = self.max_iterations;
        let ghost mut line: Seq<Play> = Seq::empty();
        while state.game_state() == Player::InProgress
            invariant
                self.arena@ == a0,
                self.root_node_index == r0,
                self.max_iterations == m0,
                valid_line(start, line),
                state == play_line(start, line),
            decreases moves_left_bound(state),
        {
            let plays = state.generate_plays();
            proof {
                lemma_plays_are_valid(state);
            }
            // select random move
            let rand_index = random_below(&mut self.rng, plays.len());
            let play = plays[rand_index];
            proof {
                lemma_move_progress(state, play);
                let next_line = line.push(play);
                assert(next_line.drop_last() =~= line);
                line = next_line;
            }
            state.make_play(play);
        }
        state.game_state()
    }

    /// One search step from the selected node `node_index`: a node with moves
    /// left to expand gets a new child by its last move left (step 2), which
    /// is simulated (step 3) and backpropagated (step 4); a fully expanded
    /// node is simulated and backpropagated itself. The playout ends in some
    /// outcome `w`; every node from the simulated one up to the root, and no
    /// other, gets one more visit, and one more win where the side to move is
    /// not `w`.
    pub fn iterate_from(&mut self, node_index: usize)
        requires
            old(self).wf(),
            node_index < old(self).nodes().len(),
            old(self).nodes()[0].visits < u32::MAX,
        ensures
            final(self).wf(),
            final(self).nodes()[0].visits == old(self).nodes()[0].visits + 1,
            ({
                let expanded = old(self).nodes()[node_index as int].unexpanded_moves@.len() > 0;
                let n = old(self).nodes().len() as int;
                let simulated = simulated_index(old(self).nodes(), node_index as int);
                let nodes = final(self).nodes();
                &&& nodes.len() == n + if expanded {
                    1int
                } else {
                    0int
                }
                &&& nodes[simulated].visits == (if expanded {
                    0int
                } else {
                    old(self).nodes()[simulated].visits as int
                }) + 1
                &&& forall|j: int|
                    0 <= j < n ==> (#[trigger] nodes[j]).visits == old(self).nodes()[j].visits + if on_path(
                        nodes,
                        simulated,
                        j,
                    ) {
                        1int
                    } else {
                        0int
                    }
                &&& exists|w: Player|
                    #[trigger] playout_outcome(nodes[simulated].state, w) && forall|j: int|
                        0 <= j < nodes.len() ==> (#[trigger] nodes[j]).wins == (if j < n {
                            old(self).nodes()[j].wins as int
                        } else {
                            0int
                        }) + if on_path(nodes, simulated, j) && nodes[j].state.player_to_move != w {
                            1int
                        } else {
                            0int
                        }
                &&& forall|j: int|
                    0 <= j < n ==> {
                        &&& (#[trigger] nodes[j]).parent == old(self).nodes()[j].parent
                        &&& nodes[j].state == old(self).nodes()[j].state
                        &&& (j != node_index || !expanded) ==> nodes[j].children@ == old(
                            self,
                        ).nodes()[j].children@ && nodes[j].unexpanded_moves@ == old(
                            self,
                        ).nodes()[j].unexpanded_moves@
                    }
                &&& expanded ==> {
                    let old_node = old(self).nodes()[node_index as int];
                    &&& nodes[n].parent == Some(node_index)
                    &&& nodes[n].state == old_node.state.spec_make_play(old_node.unexpanded_moves@.last())
                    &&& nodes[n].children@.len() == 0
                    &&& nodes[node_index as int].children@ == old_node.children@.push(n as usize)
                    &&& nodes[node_index as int].unexpanded_moves@ == old_node.unexpanded_moves@.drop_last()
                }
            }),
            final(self).spec_max_iterations() == old(self).spec_max_iterations(),
    {
        let ghost start = self.arena@;
        if self.get_node(node_index).is_fully_expanded() {
            // step 2 skip
            let winner = self.simulate(node_index);  // step 3
            proof {
                lemma_root_on_path(self.arena@, node_index as int);
            }
            self.backpropagate(node_index, winner);  // step 4
            proof {
                let b = self.arena@;
                assert forall|j: int| 0 <= j < start.len() implies on_path(start, node_index as int, j)
                    == on_path(b, node_index as int, j) by {
                    lemma_on_path_same_shape(start, b, node_index as int, j);
                }
                assert(on_path(start, node_index as int, node_index as int));
                assert(b[node_index as int].state == start[node_index as int].state);
                assert(playout_outcome(b[node_index as int].state, winner));
            }
        } else {
            let expanded_index = self.expand(node_index);  // step 2
            let ghost mid = self.arena@;
            let winner = self.simulate(expanded_index);  // step 3
            proof {
                lemma_root_on_path(self.arena@, expanded_index as int);
            }
            self.backpropagate(expanded_index, winner);  // step 4
            proof {
                let b = self.arena@;
                assert forall|j: int| 0 <= j < mid.len() implies on_path(mid, expanded_index as int, j)
                    == on_path(b, expanded_index as int, j) by {
                    lemma_on_path_same_shape(mid, b, expanded_index as int, j);
                }
                assert(on_path(mid, expanded_index as int, expanded_index as int));
                assert(mid[expanded_index as int].visits == 0);
                assert(b[expanded_index as int].state == mid[expanded_index as int].state);
                assert(playout_outcome(b[expanded_index as int].state, winner));
                assert forall|j: int| 0 <= j < start.len() implies #[trigger] mid[j].wins == start[j].wins
                    && mid[j].visits == start[j].visits by {
                    if j != node_index {
                        assert(mid[j] == start[j]);
                    }
                }
            }
        }
    }

    /// The move into the most visited child of the root (the first such
    /// child), or `Play(0)` when none of them has a visit. Once some child
    /// has a visit, the move is valid in the root's state.
    pub fn best_play(&self) -> (r: Play)
        requires
            self.wf(),
            self.nodes()[0].unexpanded_moves@.len() == 0,
        ensures
            r == most_visited_play(self.nodes()),
            max_child_visits(self.nodes(), self.nodes()[0].children@, self.nodes()[0].children@.len() as int)
                > 0 ==> self.nodes()[0].state.spec_is_valid_play(r),
            !some_child_visited(self.nodes()) ==> r == Play(0),
            some_child_visited(self.nodes()) ==> exists|k: int|
                #[trigger] first_most_visited(self.nodes(), self.nodes()[0].children@, k) && r == self.nodes()[
                self.nodes()[0].children@[k] as int].state.previous_move,
    {
        let ghost nodes = self.arena@;
        let root_node = self.get_node(self.root_node_index);
        let ghost kids = root_node.children@;
        let mut best_visits: u32 = 0;
        let mut best_play = Play(0);
        let ghost mut best_k: int = 0;
        let mut i: usize = 0;
        proof {
            assert(node_ok(nodes, 0));
        }
        while i < root_node.children.len()
            invariant
                nodes == self.arena@,
                tree_wf(nodes),
                kids == nodes[0].children@,
                *root_node == nodes[0],
                i <= kids.len(),
                best_visits == max_child_visits(nodes, kids, i as int),
                best_visits > 0 ==> {
                    &&& 0 <= best_k < i
                    &&& nodes[kids[best_k] as int].visits == best_visits
                    &&& best_play == nodes[kids[best_k] as int].state.previous_move
                    &&& forall|j: int| 0 <= j < best_k ==> nodes[#[trigger] kids[j] as int].visits < best_visits
                },
                best_visits == 0 ==> best_play == Play(0),
            decreases kids.len() - i,
        {
            let child_index = root_node.children[i];
            proof {
                assert(node_ok(nodes, 0));
                assert(kids[i as int] == child_index);
            }
            let child = self.get_node(child_index);
            if child.visits > best_visits {
                proof {
                    assert forall|j: int| 0 <= j < i implies nodes[#[trigger] kids[j] as int].visits < child.visits by {
                        lemma_max_child_visits_bound(nodes, kids, i as int, j);
                    }
                    best_k = i as int;
                }
                best_play = child.state.previous_move;
                best_visits = child.visits;
            }
            i = i + 1;
        }
        proof {
            let k = lemma_most_visited_play(nodes);
            if some_child_visited(nodes) {
                assert(first_most_visited(nodes, kids, k));
            }
            if best_visits > 0 {
                lemma_first_child_with_visits(nodes, kids, best_visits, 0, best_k);
                assert(node_ok(nodes, 0));
                let c = kids[best_k] as int;
                assert(node_ok(nodes, c));
                reveal(move_leads);
            }
        }
        best_play
    }
}

/// The stopping rule of the iteration-budgeted search: after `iterations`
/// iterations (at least one is always run), the search goes on while it is
/// below the budget.
pub fn iterations_continue(iterations: u32, iterations_budget: u32) -> (b: bool)
    ensures
        b == (iterations < iterations_budget),
{
    iterations < iterations_budget
}

/// The stopping rule of the time-budgeted search: after `iterations`
/// iterations and `elapsed_ms` milliseconds, the search goes on while it is
/// within the time budget and below the tree's maximum number of iterations.
pub fn search_continues(iterations: u32, elapsed_ms: u128, time_budget_ms: u128, max_iterations: u32) -> (b: bool)
    ensures
        b == (elapsed_ms <= time_budget_ms && iterations < max_iterations),
{
    !(elapsed_ms > time_budget_ms || iterations >= max_iterations)
}

} // verus!
