use vstd::prelude::*;

use crate::board::{
    apply_spec, is_playout_result, legal_moves_spec, move_view, moves_view, Board,
};
use crate::cell::{is_color, opposite_of, won_by, Cell, EndState, PlayerMove};
use rand::rngs::StdRng;
use crate::random::random_below;
use crate::text::{decimal, push_decimal};
use vstd::string::*;

verus! {

/// A node of a Monte-Carlo search tree, kept in an arena (`Tree`) and
/// linked to its parent and children by index.
pub struct Node {
    pub board: Board,
    /// The color to move at this node.
    pub color: Cell,
    pub nwins: u64,
    pub nvisits: u64,
    pub children: Vec<usize>,
    pub parent: Option<usize>,
    /// The move that led here; none at a root.
    pub player_move: Option<PlayerMove>,
    /// Set once the node is found to have no legal move.
    pub leaf: bool,
}

/// A search tree: an arena of nodes with the root at index 0.
pub struct Tree {
    pub nodes: Vec<Node>,
}

/// The tree is well formed: a root without parent at index 0; every other
/// node's parent comes before it and lists it among its children; every
/// child comes after its parent and names it as parent; wins never exceed
/// visits, and no node has more visits than its parent.
pub open spec fn tree_wf(t: Seq<Node>) -> bool {
    &&& t.len() >= 1
    &&& t[0].parent is None
    &&& forall|i: int| 0 <= i < t.len() ==> is_color(#[trigger] t[i].color)
    &&& forall|i: int| 0 <= i < t.len() ==> #[trigger] t[i].nwins <= t[i].nvisits
    &&& forall|i: int|
        0 < i < t.len() ==> (#[trigger] t[i].parent matches Some(p) && p < i && t[i].nvisits <= t[p as int].nvisits)
    &&& forall|i: int, k: int|
        0 <= i < t.len() && 0 <= k < t[i].children@.len() ==> ({
            let j = #[trigger] t[i].children@[k];
            i < j < t.len() && t[j as int].parent == Some(i as usize)
        })
}

/// Node `i` lies on the path from node `from` up to the root.
pub open spec fn on_path(t: Seq<Node>, from: int, i: int) -> bool
    decreases from,
{
    if i == from {
        true
    } else if 0 <= from < t.len() {
        match t[from].parent {
            Some(p) => 0 <= p < from && on_path(t, p as int, i),
            None => false,
        }
    } else {
        false
    }
}

/// A node where selection stops: not expanded yet, or without moves.
pub open spec fn is_frontier(n: Node) -> bool {
    n.children@.len() == 0 || n.leaf
}

/// Whether a playout result counts as a win at node `n`: a win for the side
/// that moved into `n`, the opponent of the side to move there.
pub open spec fn credits(n: Node, result: EndState) -> bool {
    won_by(result, opposite_of(n.color))
}

/// The ratio `w1 / v1` exceeds `w2 / v2` (both visit counts positive).
pub open spec fn ratio_gt(w1: int, v1: int, w2: int, v2: int) -> bool {
    w1 * v2 > w2 * v1
}

proof fn lemma_on_path_below(t: Seq<Node>, from: int, i: int)
    requires
        on_path(t, from, i),
    ensures
        i <= from,
    decreases from,
{
    if i != from {
        let p = t[from].parent->0;
        lemma_on_path_below(t, p as int, i);
    }
}

/// Every node has no more visits than the root.
proof fn lemma_visits_below_root(t: Seq<Node>, i: int)
    requires
        tree_wf(t),
        0 <= i < t.len(),
    ensures
        t[i].nvisits <= t[0].nvisits,
    decreases i,
{
    if i > 0 {
        let p = t[i].parent->0;
        lemma_visits_below_root(t, p as int);
    }
}

/// The root lies on every node's path.
proof fn lemma_root_on_path(t: Seq<Node>, i: int)
    requires
        tree_wf(t),
        0 <= i < t.len(),
    ensures
        on_path(t, i, 0),
    decreases i,
{
    if i > 0 {
        let p = t[i].parent->0;
        lemma_root_on_path(t, p as int);
    }
}

impl Node {
    /// A fresh node: no visits, no children, no parent.
    pub fn new(board: Board, color: Cell, player_move: Option<PlayerMove>) -> (r: Node)
        ensures
            r.board == board,
            r.color == color,
            r.nwins == 0,
            r.nvisits == 0,
            r.children@.len() == 0,
            r.parent is None,
            r.player_move == player_move,
            !r.leaf,
    {
        Node {
            board,
            color,
            nwins: 0,
            nvisits: 0,
            children: Vec::new(),
            parent: None,
            player_move,
            leaf: false,
        }
    }
}

impl Tree {
    /// A tree holding only its root.
    pub fn new(board: Board, color: Cell, player_move: Option<PlayerMove>) -> (r: Tree)
        requires
            is_color(color),
        ensures
            tree_wf(r.nodes@),
            r.nodes@.len() == 1,
            r.nodes@[0].board == board,
            r.nodes@[0].color == color,
            r.nodes@[0].nvisits == 0,
            r.nodes@[0].nwins == 0,
            r.nodes@[0].player_move == player_move,
    {
        let mut nodes: Vec<Node> = Vec::new();
        nodes.push(Node::new(board, color, player_move));
        Tree { nodes }
    }

    /// Visits and wins at the root.
    pub fn root_counts(&self) -> (r: (u64, u64))
        requires
            tree_wf(self.nodes@),
        ensures
            r.0 == self.nodes@[0].nwins,
            r.1 == self.nodes@[0].nvisits,
    {
        (self.nodes[0].nwins, self.nodes[0].nvisits)
    }

    /// Room for one more search round: the arena can take a full expansion
    /// and the root's visit counter one more visit.
    pub open spec fn has_room_spec(&self) -> bool {
        self.nodes@.len() + 64 < usize::MAX && self.nodes@[0].nvisits < u64::MAX
    }

    /// Whether there is room for one more search round.
    pub fn has_room(&self) -> (r: bool)
        requires
            tree_wf(self.nodes@),
        ensures
            r == self.has_room_spec(),
    {
        self.nodes.len() < usize::MAX - 64 && self.nodes[0].nvisits < u64::MAX
    }
}

/// The child at position `kk` of node `node` is the one that ranking picks,
/// given that every child has been visited: `keys` holds what `rank` gave
/// for each child (parent visits, child wins, child visits), and `kk` is the
/// first position with the largest key.
pub open spec fn is_ranked_choice<F: Fn(u64, u64, u64) -> u64>(
    t: Seq<Node>,
    node: int,
    rank: F,
    keys: Seq<u64>,
    kk: int,
) -> bool {
    let ch = t[node].children@;
    &&& keys.len() == ch.len()
    &&& 0 <= kk < ch.len()
    &&& forall|k: int|
        0 <= k < ch.len() ==> call_ensures(
            rank,
            (t[node].nvisits, t[ch[k] as int].nwins, t[ch[k] as int].nvisits),
            #[trigger] keys[k],
        )
    &&& forall|k: int| 0 <= k < ch.len() ==> #[trigger] keys[k] <= keys[kk]
    &&& forall|k: int| 0 <= k < kk ==> #[trigger] keys[k] < keys[kk]
}

/// `c` is the child of `node` that selection descends into: the first child
/// without visits if there is one, otherwise the first child with the
/// largest `rank` key.
pub open spec fn is_selected_child<F: Fn(u64, u64, u64) -> u64>(t: Seq<Node>, node: int, c: int, rank: F) -> bool {
    let ch = t[node].children@;
    exists|kk: int|
        0 <= kk < ch.len() && ch[kk] == c && (if exists|k: int|
            0 <= k < ch.len() && #[trigger] t[ch[k] as int].nvisits == 0 {
            t[c].nvisits == 0 && forall|k: int| 0 <= k < kk ==> #[trigger] t[ch[k] as int].nvisits != 0
        } else {
            exists|keys: Seq<u64>| is_ranked_choice(t, node, rank, keys, kk)
        })
}

/// Every step of the path from `from` up to `r` is a selection step: each
/// node on it below `from` is the selected child of its parent, and that
/// parent was neither unexpanded nor without moves.
pub open spec fn is_selection_path<F: Fn(u64, u64, u64) -> u64>(t: Seq<Node>, from: int, r: int, rank: F) -> bool {
    forall|i: int|
        #![trigger on_path(t, r, i), on_path(t, i, from)]
        0 <= i < t.len() && i != from && on_path(t, r, i) && on_path(t, i, from) ==> {
            let p = t[i].parent->0 as int;
            &&& t[i].parent is Some
            &&& !is_frontier(t[p])
            &&& is_selected_child(t, p, i, rank)
        }
}

impl Node {
    /// The child of `node` that selection descends into: the first child
    /// without visits if there is one (unvisited children come first);
    /// otherwise the first child with the largest `rank` key.
    pub fn select_child<F: Fn(u64, u64, u64) -> u64>(tree: &Tree, node: usize, rank: &F) -> (r: usize)
        requires
            tree_wf(tree.nodes@),
            node < tree.nodes@.len(),
            tree.nodes@[node as int].children@.len() > 0,
            forall|a: u64, b: u64, c: u64| call_requires(*rank, (a, b, c)),
        ensures
            is_selected_child(tree.nodes@, node as int, r as int, *rank),
    {
        let ghost t = tree.nodes@;
        let children = &tree.nodes[node].children;
        let ghost ch = children@;
        let n = children.len();
        let mut k: usize = 0;
        while k < n
            invariant
                k <= n,
                n == ch.len(),
                children@ == ch,
                t == tree.nodes@,
                ch == t[node as int].children@,
                tree_wf(t),
                node < t.len(),
                forall|j: int| 0 <= j < k ==> #[trigger] t[ch[j] as int].nvisits != 0,
            decreases n - k,
        {
            let c = children[k];
            if tree.nodes[c].nvisits == 0 {
                return c;
            }
            k += 1;
        }
        let parent_visits = tree.nodes[node].nvisits;
        let c0 = children[0];
        let mut best_k: usize = 0;
        let mut best_key = rank(parent_visits, tree.nodes[c0].nwins, tree.nodes[c0].nvisits);
        let ghost mut keys: Seq<u64> = seq![best_key];
        k = 1;
        while k < n
            invariant
                1 <= k <= n,
                n == ch.len(),
                children@ == ch,
                t == tree.nodes@,
                ch == t[node as int].children@,
                tree_wf(t),
                node < t.len(),
                parent_visits == t[node as int].nvisits,
                forall|a: u64, b: u64, c: u64| call_requires(*rank, (a, b, c)),
                keys.len() == k,
                best_k < k,
                best_key == keys[best_k as int],
                forall|j: int|
                    0 <= j < k ==> call_ensures(
                        *rank,
                        (t[node as int].nvisits, t[ch[j] as int].nwins, t[ch[j] as int].nvisits),
                        #[trigger] keys[j],
                    ),
                forall|j: int| 0 <= j < k ==> #[trigger] keys[j] <= best_key,
                forall|j: int| 0 <= j < best_k ==> #[trigger] keys[j] < best_key,
            decreases n - k,
        {
            let c = children[k];
            let key = rank(parent_visits, tree.nodes[c].nwins, tree.nodes[c].nvisits);
            proof {
                keys = keys.push(key);
            }
            if key > best_key {
                best_k = k;
                best_key = key;
            }
            k += 1;
        }
        proof {
            assert(is_ranked_choice(t, node as int, *rank, keys, best_k as int));
        }
        children[best_k]
    }

    /// Descends from `node` by `select_child` until a node that is not
    /// expanded yet or has no moves.
    pub fn selection<F: Fn(u64, u64, u64) -> u64>(tree: &Tree, node: usize, rank: &F) -> (r: usize)
        requires
            tree_wf(tree.nodes@),
            node < tree.nodes@.len(),
            forall|a: u64, b: u64, c: u64| call_requires(*rank, (a, b, c)),
        ensures
            r < tree.nodes@.len(),
            is_frontier(tree.nodes@[r as int]),
            on_path(tree.nodes@, r as int, node as int),
            is_selection_path(tree.nodes@, node as int, r as int, *rank),
    {
        let mut cur = node;
        proof {
            let t = tree.nodes@;
            assert forall|i: int|
                #![trigger on_path(t, node as int, i), on_path(t, i, node as int)]
                0 <= i < t.len() && i != node && on_path(t, node as int, i) && on_path(t, i, node as int) implies false by {
                lemma_on_path_below(t, node as int, i);
                lemma_on_path_below(t, i, node as int);
            }
        }
        while tree.nodes[cur].children.len() > 0 && !tree.nodes[cur].leaf
            invariant
                tree_wf(tree.nodes@),
                cur < tree.nodes@.len(),
                node <= cur,
                on_path(tree.nodes@, cur as int, node as int),
                is_selection_path(tree.nodes@, node as int, cur as int, *rank),
                forall|a: u64, b: u64, c: u64| call_requires(*rank, (a, b, c)),
            decreases tree.nodes@.len() - cur,
        {
            let next = Node::select_child(tree, cur, rank);
            proof {
                let t = tree.nodes@;
                let kk = choose|kk: int| 0 <= kk < t[cur as int].children@.len() && t[cur as int].children@[kk] == next;
                assert(t[cur as int].children@[kk] == next);
                assert(t[next as int].parent == Some(cur));
                assert forall|i: int|
                    #![trigger on_path(t, next as int, i), on_path(t, i, node as int)]
                    0 <= i < t.len() && i != node && on_path(t, next as int, i) && on_path(t, i, node as int) implies {
                    let p = t[i].parent->0 as int;
                    &&& t[i].parent is Some
                    &&& !is_frontier(t[p])
                    &&& is_selected_child(t, p, i, *rank)
                } by {
                    if i != next {
                        assert(on_path(t, cur as int, i));
                    }
                }
            }
            cur = next;
        }
        cur
    }
}

/// A node on the path from `from` also has its parent on that path.
proof fn lemma_on_path_parent(t: Seq<Node>, from: int, i: int)
    requires
        tree_wf(t),
        0 <= from < t.len(),
        0 < i < t.len(),
        on_path(t, from, i),
    ensures
        on_path(t, from, t[i].parent->0 as int),
    decreases from,
{
    if i != from {
        let p = t[from].parent->0;
        lemma_on_path_parent(t, p as int, i);
    } else {
        let p = t[i].parent->0;
        assert(on_path(t, p as int, p as int));
    }
}

/// `n` is `o` with its counters raised by one visit, and by one win when
/// `win` holds.
pub open spec fn counted(o: Node, n: Node, visit: bool, win: bool) -> bool {
    &&& n.board == o.board
    &&& n.color == o.color
    &&& n.children == o.children
    &&& n.parent == o.parent
    &&& n.player_move == o.player_move
    &&& n.leaf == o.leaf
    &&& n.nvisits == o.nvisits + if visit {
        1int
    } else {
        0
    }
    &&& n.nwins == o.nwins + if visit && win {
        1int
    } else {
        0
    }
}

impl Node {
    /// Records a playout result from `node`: every node on the path from it
    /// to the root gets a visit, and a win where the result credits the side
    /// that moved into that node.
    pub fn back_propagate(tree: &mut Tree, node: usize, winresult: EndState)
        requires
            tree_wf(old(tree).nodes@),
            node < old(tree).nodes@.len(),
            old(tree).nodes@[0].nvisits < u64::MAX,
        ensures
            tree_wf(final(tree).nodes@),
            final(tree).nodes@.len() == old(tree).nodes@.len(),
            forall|i: int|
                0 <= i < old(tree).nodes@.len() ==> counted(
                    old(tree).nodes@[i],
                    #[trigger] final(tree).nodes@[i],
                    on_path(old(tree).nodes@, node as int, i),
                    credits(old(tree).nodes@[i], winresult),
                ),
    {
        let ghost t0 = tree.nodes@;
        let mut cur = node;
        loop
            invariant
                t0 == old(tree).nodes@,
                tree_wf(t0),
                cur < t0.len(),
                tree.nodes@.len() == t0.len(),
                on_path(t0, node as int, cur as int),
                t0[0].nvisits < u64::MAX,
                forall|i: int|
                    0 <= i < t0.len() ==> counted(
                        t0[i],
                        #[trigger] tree.nodes@[i],
                        on_path(t0, node as int, i) && !on_path(t0, cur as int, i),
                        credits(t0[i], winresult),
                    ),
            decreases cur,
        {
            proof {
                lemma_visits_below_root(t0, cur as int);
                assert(on_path(t0, cur as int, cur as int));
                assert(counted(t0[cur as int], tree.nodes@[cur as int], false, credits(t0[cur as int], winresult)));
            }
            let ghost before = tree.nodes@;
            let c = tree.nodes[cur].color;
            let credit = winresult.won(c.opposite());
            tree.nodes[cur].nvisits += 1;
            if credit {
                tree.nodes[cur].nwins += 1;
            }
            match tree.nodes[cur].parent {
                Some(p) => {
                    proof {
                        assert(p < cur);
                        assert forall|i: int| 0 <= i < t0.len() implies counted(
                            t0[i],
                            #[trigger] tree.nodes@[i],
                            on_path(t0, node as int, i) && !on_path(t0, p as int, i),
                            credits(t0[i], winresult),
                        ) by {
                            if i == cur {
                                if on_path(t0, p as int, i) {
                                    lemma_on_path_below(t0, p as int, i);
                                }
                            } else {
                                assert(on_path(t0, cur as int, i) == on_path(t0, p as int, i));
                                assert(tree.nodes@[i] == before[i]);
                            }
                        }
                        assert(on_path(t0, node as int, p as int)) by {
                            if cur > 0 {
                                lemma_on_path_parent(t0, node as int, cur as int);
                            }
                        }
                    }
                    cur = p;
                },
                None => {
                    proof {
                        assert(cur == 0);
                        assert forall|i: int| 0 <= i < t0.len() implies counted(
                            t0[i],
                            #[trigger] tree.nodes@[i],
                            on_path(t0, node as int, i),
                            credits(t0[i], winresult),
                        ) by {
                            if i != 0 {
                                assert(!on_path(t0, 0, i));
                                assert(tree.nodes@[i] == before[i]);
                            }
                        }
                        assert forall|i: int| 0 < i < t0.len() implies (#[trigger] tree.nodes@[i].parent matches Some(
                            q,
                        ) && q < i && tree.nodes@[i].nvisits <= tree.nodes@[q as int].nvisits) by {
                            let q = t0[i].parent->0;
                            if on_path(t0, node as int, i) {
                                lemma_on_path_parent(t0, node as int, i);
                            }
                        }
                        assert forall|i: int, k: int|
                            0 <= i < t0.len() && 0 <= k < tree.nodes@[i].children@.len() implies ({
                            let j = #[trigger] tree.nodes@[i].children@[k];
                            i < j < tree.nodes@.len() && tree.nodes@[j as int].parent == Some(i as usize)
                        }) by {
                            assert(tree.nodes@[i].children@ == t0[i].children@);
                            let j = t0[i].children@[k];
                            assert(t0[j as int].parent == Some(i as usize));
                        }
                    }
                    return;
                },
            }
        }
    }
}

/// Node `n` is the fresh child reached from a node with board `b` and `c` to
/// move, by `c`'s legal move number `j`, under parent `parent`.
pub open spec fn is_expanded_child(n: Node, b: Seq<Cell>, c: Cell, j: int, parent: usize) -> bool {
    let m = legal_moves_spec(b, c)[j];
    &&& n.board@ == apply_spec(b, m.0, m.1, c)
    &&& n.color == opposite_of(c)
    &&& n.nwins == 0
    &&& n.nvisits == 0
    &&& n.children@.len() == 0
    &&& n.parent == Some(parent)
    &&& !n.leaf
    &&& n.player_move matches Some(pm) && move_view(pm) == m
}

impl Node {
    /// Expands `node`, not expanded yet: a child for every legal move of the
    /// side to move, all at once, in move order; returns one of them chosen at
    /// random. A node without legal moves is marked as a leaf and returned.
    pub fn expansion(tree: &mut Tree, node: usize, rng: &mut StdRng) -> (r: usize)
        requires
            tree_wf(old(tree).nodes@),
            node < old(tree).nodes@.len(),
            old(tree).nodes@[node as int].children@.len() == 0,
            old(tree).nodes@.len() + 64 < usize::MAX,
        ensures
            ({
                let t0 = old(tree).nodes@;
                let t1 = final(tree).nodes@;
                let n0 = t0[node as int];
                let ms = legal_moves_spec(n0.board@, n0.color);
                &&& tree_wf(t1)
                &&& t1.len() == t0.len() + ms.len()
                &&& ms.len() <= 64
                &&& forall|i: int| 0 <= i < t0.len() && i != node ==> #[trigger] t1[i] == t0[i]
                &&& t1[node as int].board == n0.board
                &&& t1[node as int].color == n0.color
                &&& t1[node as int].nwins == n0.nwins
                &&& t1[node as int].nvisits == n0.nvisits
                &&& t1[node as int].parent == n0.parent
                &&& t1[node as int].player_move == n0.player_move
                &&& if ms.len() == 0 {
                    &&& r == node
                    &&& t1[node as int].leaf
                    &&& t1[node as int].children@.len() == 0
                } else {
                    &&& t0.len() <= r < t1.len()
                    &&& t1[node as int].leaf == n0.leaf
                    &&& t1[node as int].children@ == Seq::new(ms.len(), |j: int| (t0.len() + j) as usize)
                    &&& forall|j: int|
                        0 <= j < ms.len() ==> is_expanded_child(
                            #[trigger] t1[t0.len() + j],
                            n0.board@,
                            n0.color,
                            j,
                            node,
                        )
                }
            }),
    {
        let ghost t0 = tree.nodes@;
        let color = tree.nodes[node].color;
        let board = tree.nodes[node].board;
        let allowed = board.allowed_moves(color);
        let ghost ms = legal_moves_spec(board@, color);
        proof {
            crate::board::lemma_moves_upto_len(board@, color, 64);
        }
        if allowed.len() == 0 {
            tree.nodes[node].leaf = true;
            proof {
                assert forall|i: int, k: int|
                    0 <= i < tree.nodes@.len() && 0 <= k < tree.nodes@[i].children@.len() implies ({
                    let j = #[trigger] tree.nodes@[i].children@[k];
                    i < j < tree.nodes@.len() && tree.nodes@[j as int].parent == Some(i as usize)
                }) by {
                    let j = t0[i].children@[k];
                    assert(t0[j as int].parent == Some(i as usize));
                }
            }
            return node;
        }
        let start = tree.nodes.len();
        let mut i: usize = 0;
        while i < allowed.len()
            invariant
                t0 == old(tree).nodes@,
                tree_wf(t0),
                tree_wf(tree.nodes@),
                node < t0.len(),
                start == t0.len(),
                t0.len() + 64 < usize::MAX,
                color == t0[node as int].color,
                board == t0[node as int].board,
                ms == legal_moves_spec(board@, color),
                ms.len() <= 64,
                moves_view(allowed@) == ms,
                i <= ms.len(),
                tree.nodes@.len() == start + i,
                forall|j: int| 0 <= j < t0.len() && j != node ==> #[trigger] tree.nodes@[j] == t0[j],
                tree.nodes@[node as int].board == board,
                tree.nodes@[node as int].color == color,
                tree.nodes@[node as int].nwins == t0[node as int].nwins,
                tree.nodes@[node as int].nvisits == t0[node as int].nvisits,
                tree.nodes@[node as int].parent == t0[node as int].parent,
                tree.nodes@[node as int].player_move == t0[node as int].player_move,
                tree.nodes@[node as int].leaf == t0[node as int].leaf,
                tree.nodes@[node as int].children@ == Seq::new(i as nat, |j: int| (start + j) as usize),
                forall|j: int|
                    0 <= j < i ==> is_expanded_child(#[trigger] tree.nodes@[start + j], board@, color, j, node),
            decreases ms.len() - i,
        {
            proof {
                assert(ms[i as int] == move_view(allowed@[i as int]));
            }
            let child_board = board.with_move(&allowed[i], color);
            let mv = (allowed[i].0, allowed[i].1.clone());
            let mut child = Node::new(child_board, color.opposite(), Some(mv));
            child.parent = Some(node);
            let ghost before = tree.nodes@;
            tree.nodes.push(child);
            let ghost mid = tree.nodes@;
            tree.nodes[node].children.push(start + i);
            proof {
                let t = tree.nodes@;
                assert(is_expanded_child(t[start + i], board@, color, i as int, node));
                assert(t[node as int].children@ =~= Seq::new((i + 1) as nat, |j: int| (start + j) as usize));
                assert forall|j: int| 0 <= j < i + 1 implies is_expanded_child(
                    #[trigger] t[start + j],
                    board@,
                    color,
                    j,
                    node,
                ) by {
                    if j < i {
                        assert(t[start + j] == before[start + j]);
                    }
                }
                assert forall|j: int| 0 < j < t.len() implies (#[trigger] t[j].parent matches Some(q) && q < j
                    && t[j].nvisits <= t[q as int].nvisits) by {
                    if j < start + i {
                        assert(t[j].parent == before[j].parent);
                        let q = before[j].parent->0;
                        if q == node {
                            assert(t[q as int].nvisits == before[q as int].nvisits);
                        } else {
                            assert(t[q as int] == before[q as int]);
                        }
                    }
                }
                assert forall|a: int, k: int| 0 <= a < t.len() && 0 <= k < t[a].children@.len() implies ({
                    let j = #[trigger] t[a].children@[k];
                    a < j < t.len() && t[j as int].parent == Some(a as usize)
                }) by {
                    if a == node {
                        let j = t[a].children@[k];
                        assert(j == start + k);
                    } else if a < start + i {
                        assert(t[a] == before[a]);
                        let j = before[a].children@[k];
                        assert(before[j as int].parent == Some(a as usize));
                        assert(j < start + i);
                    }
                }
                assert forall|j: int| 0 <= j < t.len() implies is_color(#[trigger] t[j].color) by {
                    if j < start + i {
                        assert(t[j].color == before[j].color);
                    }
                }
                assert forall|j: int| 0 <= j < t.len() implies #[trigger] t[j].nwins <= t[j].nvisits by {
                    if j < start + i {
                        assert(t[j].nwins == before[j].nwins);
                    }
                }
            }
            i += 1;
        }
        let k = random_below(rng, allowed.len());
        start + k
    }

    /// A random playout from this node's position; see `Board::simauto`.
    pub fn simulate(&self, is_anti: bool, rng: &mut StdRng) -> (r: EndState)
        requires
            is_color(self.color),
        ensures
            r != EndState::Unknown,
            is_playout_result(self.board@, self.color, r, is_anti),
    {
        Board::simauto(self.board, self.color, is_anti, rng)
    }
}

/// The win ratio of node `n` for choosing among children, as a fraction:
/// `wins / visits` when both are positive, else zero (`0 / 1`).
pub open spec fn standing(n: Node) -> (int, int) {
    if n.nvisits > 0 && n.nwins > 0 {
        (n.nwins as int, n.nvisits as int)
    } else {
        (0, 1)
    }
}

/// Trees that agree on the parent links of nodes `0..=from` agree on the
/// path from `from`.
proof fn lemma_on_path_same(t0: Seq<Node>, t1: Seq<Node>, from: int, i: int)
    requires
        0 <= from < t0.len(),
        from < t1.len(),
        forall|j: int| 0 <= j <= from ==> #[trigger] t1[j].parent == t0[j].parent,
    ensures
        on_path(t0, from, i) == on_path(t1, from, i),
    decreases from,
{
    if i != from {
        match t0[from].parent {
            Some(p) => {
                if 0 <= p < from {
                    lemma_on_path_same(t0, t1, p as int, i);
                }
            },
            None => {},
        }
    }
}

/// `t1` is `t0` after one search round that selected node `s`, played out
/// from node `e` with result `res`: `s` was reached by selection steps from
/// the root; if it was not expanded yet it got one fresh child per legal
/// move (a leaf mark when there is none) and `e` is one of those children,
/// else `e` is `s`; the result is that of a playout from `e`; and every node
/// on the path from `e` to the root got a visit, and a win where the result
/// credits it.
pub open spec fn is_round_of<F: Fn(u64, u64, u64) -> u64>(
    t0: Seq<Node>,
    t1: Seq<Node>,
    rank: F,
    is_anti: bool,
    s: int,
    e: int,
    res: EndState,
) -> bool {
    let n0 = t0[s];
    let ms = legal_moves_spec(n0.board@, n0.color);
    let grows = n0.children@.len() == 0;
    &&& 0 <= s < t0.len()
    &&& is_frontier(n0)
    &&& is_selection_path(t0, 0, s, rank)
    &&& 0 <= e < t1.len()
    &&& is_playout_result(t1[e].board@, t1[e].color, res, is_anti)
    &&& t1.len() == t0.len() + if grows {
        ms.len() as int
    } else {
        0
    }
    &&& if grows && ms.len() > 0 {
        t0.len() <= e < t1.len()
    } else {
        e == s
    }
    &&& forall|i: int|
        0 <= i < t0.len() && i != s ==> counted(
            t0[i],
            #[trigger] t1[i],
            on_path(t0, s, i),
            credits(t0[i], res),
        )
    &&& t1[s].nvisits == n0.nvisits + 1
    &&& t1[s].nwins == n0.nwins + if credits(n0, res) {
        1int
    } else {
        0
    }
    &&& t1[s].board == n0.board
    &&& t1[s].color == n0.color
    &&& t1[s].parent == n0.parent
    &&& t1[s].player_move == n0.player_move
    &&& grows && ms.len() > 0 ==> forall|j: int|
        0 <= j < ms.len() ==> {
            let c = #[trigger] t1[t0.len() + j];
            let visited = t0.len() + j == e;
            &&& c.nvisits == if visited {
                1int
            } else {
                0
            }
            &&& c.nwins == if visited && credits(c, res) {
                1int
            } else {
                0
            }
            &&& is_expanded_child(
                Node { nvisits: 0, nwins: 0, ..c },
                n0.board@,
                n0.color,
                j,
                s as usize,
            )
        }
}

/// `t1` is `t0` after one search round; see `is_round_of`.
pub open spec fn is_round<F: Fn(u64, u64, u64) -> u64>(t0: Seq<Node>, t1: Seq<Node>, rank: F, is_anti: bool) -> bool {
    exists|s: int, e: int, res: EndState| #[trigger] is_round_of(t0, t1, rank, is_anti, s, e, res)
}

/// `ts` are the trees of a search from a fresh root on board `b0` with `c0`
/// to move: the first is that root alone, and each later tree is the one
/// before after one round.
pub open spec fn is_search_trace<F: Fn(u64, u64, u64) -> u64>(
    ts: Seq<Seq<Node>>,
    b0: Seq<Cell>,
    c0: Cell,
    rank: F,
    is_anti: bool,
) -> bool {
    &&& ts.len() >= 1
    &&& ts[0].len() == 1
    &&& ts[0][0].board@ == b0
    &&& ts[0][0].color == c0
    &&& ts[0][0].nvisits == 0
    &&& ts[0][0].nwins == 0
    &&& forall|j: int| 0 <= j < ts.len() - 1 ==> #[trigger] is_round(ts[j], ts[j + 1], rank, is_anti)
}

impl Tree {
    /// One round of search from the root: selection, expansion of the node
    /// reached if it is not expanded yet, a random playout from the node that
    /// expansion returns, and back-propagation of the result; see
    /// `is_round_of`. The root gains exactly one visit.
    pub fn iterate<F: Fn(u64, u64, u64) -> u64>(&mut self, rank: &F, is_anti: bool, rng: &mut StdRng)
        requires
            tree_wf(old(self).nodes@),
            old(self).has_room_spec(),
            forall|a: u64, b: u64, c: u64| call_requires(*rank, (a, b, c)),
        ensures
            tree_wf(final(self).nodes@),
            final(self).nodes@.len() <= old(self).nodes@.len() + 64,
            final(self).nodes@[0].nvisits == old(self).nodes@[0].nvisits + 1,
            final(self).nodes@[0].board == old(self).nodes@[0].board,
            final(self).nodes@[0].color == old(self).nodes@[0].color,
            final(self).nodes@[0].player_move == old(self).nodes@[0].player_move,
            is_round(old(self).nodes@, final(self).nodes@, *rank, is_anti),
    {
        let ghost t0 = self.nodes@;
        let selected = Node::selection(self, 0, rank);
        let expanded = if self.nodes[selected].children.len() == 0 {
            Node::expansion(self, selected, rng)
        } else {
            selected
        };
        let ghost mid = self.nodes@;
        let result = self.nodes[expanded].simulate(is_anti, rng);
        proof {
            lemma_root_on_path(self.nodes@, expanded as int);
        }
        Node::back_propagate(self, expanded, result);
        proof {
            let t1 = self.nodes@;
            let s = selected as int;
            let e = expanded as int;
            if e != s {
                let n0 = t0[s];
                let j0 = e - t0.len();
                assert(is_expanded_child(mid[t0.len() + j0], n0.board@, n0.color, j0, selected));
                assert(mid[e].parent == Some(selected));
            }
            assert forall|j: int| 0 <= j <= s implies #[trigger] mid[j].parent == t0[j].parent by {
                if j != s {
                    assert(mid[j] == t0[j]);
                }
            }
            assert forall|i: int| 0 <= i < t0.len() implies on_path(mid, e, i) == on_path(t0, s, i) by {
                lemma_on_path_same(t0, mid, s, i);
            }
            assert forall|i: int| 0 <= i < t0.len() && i != s implies counted(
                t0[i],
                #[trigger] t1[i],
                on_path(t0, s, i),
                credits(t0[i], result),
            ) by {
                assert(mid[i] == t0[i]);
                assert(counted(mid[i], t1[i], on_path(mid, e, i), credits(mid[i], result)));
            }
            assert(on_path(mid, e, s)) by {
                assert(on_path(t0, s, s));
            }
            assert(counted(mid[s], t1[s], on_path(mid, e, s), credits(mid[s], result)));
            let n0 = t0[s];
            let ms = legal_moves_spec(n0.board@, n0.color);
            if n0.children@.len() == 0 && ms.len() > 0 {
                assert forall|j: int| 0 <= j < ms.len() implies {
                    let c = #[trigger] t1[t0.len() + j];
                    let visited = t0.len() + j == e;
                    &&& c.nvisits == if visited {
                        1int
                    } else {
                        0
                    }
                    &&& c.nwins == if visited && credits(c, result) {
                        1int
                    } else {
                        0
                    }
                    &&& is_expanded_child(Node { nvisits: 0, nwins: 0, ..c }, n0.board@, n0.color, j, selected)
                } by {
                    let k = t0.len() + j;
                    assert(is_expanded_child(mid[k], n0.board@, n0.color, j, selected));
                    assert(counted(mid[k], t1[k], on_path(mid, e, k), credits(mid[k], result)));
                    if k != e && on_path(mid, e, k) {
                        lemma_on_path_below(mid, s, k);
                    }
                }
            }
            assert(is_round_of(t0, t1, *rank, is_anti, s, e, result));
            assert(is_round(t0, t1, *rank, is_anti));
        }
    }
}

impl Node {
    /// The child of `node` with the best win ratio: the first child whose
    /// ratio is positive and highest, or the first child when no ratio is
    /// positive. Unvisited children never win.
    pub fn best_child(tree: &Tree, node: usize) -> (r: usize)
        requires
            tree_wf(tree.nodes@),
            node < tree.nodes@.len(),
            tree.nodes@[node as int].children@.len() > 0,
        ensures
            ({
                let t = tree.nodes@;
                let ch = t[node as int].children@;
                exists|kk: int|
                    0 <= kk < ch.len() && ch[kk] == r && (forall|k: int|
                        0 <= k < ch.len() ==> !ratio_gt(
                            standing(#[trigger] t[ch[k] as int]).0,
                            standing(t[ch[k] as int]).1,
                            standing(t[r as int]).0,
                            standing(t[r as int]).1,
                        )) && (forall|k: int|
                        0 <= k < kk ==> ratio_gt(
                            standing(t[r as int]).0,
                            standing(t[r as int]).1,
                            standing(#[trigger] t[ch[k] as int]).0,
                            standing(t[ch[k] as int]).1,
                        ))
            }),
    {
        let ghost t = tree.nodes@;
        let children = &tree.nodes[node].children;
        let ghost ch = children@;
        let mut best_k: usize = 0;
        let mut bw: u128 = 0;
        let mut bv: u128 = 1;
        let mut k: usize = 0;
        let c0 = children[0];
        if tree.nodes[c0].nvisits > 0 && tree.nodes[c0].nwins > 0 {
            bw = tree.nodes[c0].nwins as u128;
            bv = tree.nodes[c0].nvisits as u128;
        }
        k = 1;
        while k < children.len()
            invariant
                1 <= k <= ch.len(),
                children@ == ch,
                t == tree.nodes@,
                ch == t[node as int].children@,
                tree_wf(t),
                node < t.len(),
                best_k < k,
                bw == standing(t[ch[best_k as int] as int]).0,
                bv == standing(t[ch[best_k as int] as int]).1,
                bv >= 1,
                bw <= u64::MAX,
                bv <= u64::MAX,
                forall|j: int|
                    0 <= j < k ==> !ratio_gt(
                        standing(#[trigger] t[ch[j] as int]).0,
                        standing(t[ch[j] as int]).1,
                        bw as int,
                        bv as int,
                    ),
                forall|j: int|
                    0 <= j < best_k ==> ratio_gt(
                        bw as int,
                        bv as int,
                        standing(#[trigger] t[ch[j] as int]).0,
                        standing(t[ch[j] as int]).1,
                    ),
            decreases ch.len() - k,
        {
            let c = children[k];
            let w = tree.nodes[c].nwins as u128;
            let v = tree.nodes[c].nvisits as u128;
            proof {
                assert(w * bv <= 0xffff_ffff_ffff_ffffu128 * 0xffff_ffff_ffff_ffffu128) by (nonlinear_arith)
                    requires
                        w <= 0xffff_ffff_ffff_ffffu128,
                        bv <= 0xffff_ffff_ffff_ffffu128,
                ;
                assert(bw * v <= 0xffff_ffff_ffff_ffffu128 * 0xffff_ffff_ffff_ffffu128) by (nonlinear_arith)
                    requires
                        bw <= 0xffff_ffff_ffff_ffffu128,
                        v <= 0xffff_ffff_ffff_ffffu128,
                ;
            }
            if v > 0 && w > 0 && w * bv > bw * v {
                proof {
                    assert forall|j: int| 0 <= j < k implies ratio_gt(
                        w as int,
                        v as int,
                        standing(#[trigger] t[ch[j] as int]).0,
                        standing(t[ch[j] as int]).1,
                    ) by {
                        let (sw, sv) = standing(t[ch[j] as int]);
                        assert(sw * bv <= bw * sv);
                        assert(sv >= 1);
                        assert(w * bv > bw * v);
                        assert(w * sv > sw * v) by (nonlinear_arith)
                            requires
                                sw * bv <= bw * sv,
                                w * bv > bw * v,
                                bv >= 1,
                                sv >= 1,
                                v >= 1,
                                sw >= 0,
                                bw >= 0,
                        ;
                    }
                }
                best_k = k;
                bw = w;
                bv = v;
            } else {
                proof {
                    assert(w == t[c as int].nwins);
                    assert(v == t[c as int].nvisits);
                    if v > 0 && w > 0 {
                        assert(standing(t[c as int]) == (w as int, v as int));
                        assert(w * bv <= bw * v);
                    } else {
                        assert(standing(t[c as int]) == (0int, 1int));
                        assert(0 * bv == 0);
                    }
                    assert(!ratio_gt(standing(t[c as int]).0, standing(t[c as int]).1, bw as int, bv as int));
                }
            }
            k += 1;
        }
        children[best_k]
    }
}

/// `k` levels of indentation, two spaces each.
pub open spec fn indent_text(k: nat) -> Seq<char> {
    Seq::new(2 * k, |i: int| ' ')
}

/// The drawing of node `node` and its subtree at indentation `indent`:
/// `Node(wins/visits; [`, a newline, the children's drawings one level deeper
/// separated by a comma and a newline, a newline, and `])`.
pub open spec fn node_text(t: Seq<Node>, node: int, indent: nat) -> Seq<char>
    decreases t.len() - node, t[node].children@.len() + 1,
{
    if 0 <= node < t.len() {
        indent_text(indent) + seq!['N', 'o', 'd', 'e', '('] + decimal(t[node].nwins as nat) + seq!['/']
            + decimal(t[node].nvisits as nat) + seq![';', ' ', '[', '\n'] + children_text(
            t,
            node,
            indent + 1,
            t[node].children@.len() as int,
        ) + seq!['\n'] + indent_text(indent) + seq![']', ')']
    } else {
        Seq::empty()
    }
}

/// The drawings of the first `k` children of `node`, separated by a comma
/// and a newline.
pub open spec fn children_text(t: Seq<Node>, node: int, indent: nat, k: int) -> Seq<char>
    decreases t.len() - node, k,
{
    if k <= 0 || !(0 <= node < t.len()) || k > t[node].children@.len() {
        Seq::empty()
    } else {
        let c = t[node].children@[k - 1] as int;
        let prev = children_text(t, node, indent, k - 1);
        let sep = if k > 1 {
            seq![',', '\n']
        } else {
            Seq::empty()
        };
        if node < c < t.len() {
            prev + sep + node_text(t, c, indent)
        } else {
            prev
        }
    }
}

impl Node {
    /// A drawing of the subtree under `node` with its win and visit counts,
    /// indented by `indent` levels; see `node_text`.
    pub fn repr_node(tree: &Tree, node: usize, indent: usize) -> (r: String)
        requires
            tree_wf(tree.nodes@),
            node < tree.nodes@.len(),
            2 * (indent + tree.nodes@.len() - node) < usize::MAX,
        ensures
            r@ == node_text(tree.nodes@, node as int, indent as nat),
        decreases tree.nodes@.len() - node,
    {
        let ghost t = tree.nodes@;
        let mut out = indentation(indent);
        proof {
            reveal_strlit("Node(");
            reveal_strlit("/");
            reveal_strlit("; [\n");
            reveal_strlit(",\n");
            reveal_strlit("\n");
            reveal_strlit("])");
            assert(",\n"@ =~= seq![',', '\n']);
            assert("\n"@ =~= seq!['\n']);
        }
        out.append("Node(");
        push_decimal(&mut out, tree.nodes[node].nwins);
        out.append("/");
        push_decimal(&mut out, tree.nodes[node].nvisits);
        out.append("; [\n");
        let ghost head = out@;
        let children = &tree.nodes[node].children;
        let mut k: usize = 0;
        while k < children.len()
            invariant
                t == tree.nodes@,
                tree_wf(t),
                node < t.len(),
                2 * (indent + t.len() - node) < usize::MAX,
                children@ == t[node as int].children@,
                k <= children@.len(),
                out@ == head + children_text(t, node as int, (indent + 1) as nat, k as int),
            decreases children@.len() - k,
        {
            let c = children[k];
            proof {
                assert(node < c < t.len());
            }
            let sub = Node::repr_node(tree, c, indent + 1);
            proof {
                reveal_strlit(",\n");
                assert(",\n"@ =~= seq![',', '\n']);
            }
            let ghost before = out@;
            if k > 0 {
                out.append(",\n");
            }
            out.append(sub.as_str());
            proof {
                let sep: Seq<char> = if k > 0 {
                    seq![',', '\n']
                } else {
                    Seq::empty()
                };
                assert(children_text(t, node as int, (indent + 1) as nat, k + 1) == children_text(
                    t,
                    node as int,
                    (indent + 1) as nat,
                    k as int,
                ) + sep + node_text(t, c as int, (indent + 1) as nat));
                assert(out@ =~= before + sep + sub@);
                assert(out@ =~= head + children_text(t, node as int, (indent + 1) as nat, k + 1));
            }
            k += 1;
        }
        out.append("\n");
        let tail = indentation(indent);
        out.append(tail.as_str());
        out.append("])");
        proof {
            assert(out@ =~= node_text(t, node as int, indent as nat));
        }
        out
    }
}

/// `k` levels of indentation, two spaces each.
fn indentation(k: usize) -> (r: String)
    requires
        2 * k < usize::MAX,
    ensures
        r@ == indent_text(k as nat),
{
    proof {
        reveal_strlit("  ");
        assert("  "@ =~= seq![' ', ' ']);
    }
    let mut out = String::new();
    let mut i: usize = 0;
    while i < k
        invariant
            i <= k,
            out@ == indent_text(i as nat),
        decreases k - i,
    {
        proof {
            reveal_strlit("  ");
            assert("  "@ =~= seq![' ', ' ']);
        }
        out.append("  ");
        proof {
            assert(out@ =~= indent_text((i + 1) as nat));
        }
        i += 1;
    }
    out
}

} // verus!
