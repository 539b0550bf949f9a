use vstd::prelude::*;

use vstd::string::StringExecFns;

verus! {

/// Identifies a node of an [`Arena`] by its position in the arena's node vector.
#[derive(Clone, Copy)]
pub struct NodeId {
    pub index: usize,
}

/// A node of the arena: links to its children by index, and a payload.
pub struct Node<T> {
    pub parent: Option<NodeId>,
    pub left: Option<NodeId>,
    pub right: Option<NodeId>,
    pub data: T,
}

/// A binary tree whose nodes live in one vector and refer to each other by index.
pub struct Arena<T> {
    pub nodes: Vec<Node<T>>,
}

impl<T> View for Arena<T> {
    type V = Seq<Node<T>>;

    open spec fn view(&self) -> Seq<Node<T>> {
        self.nodes@
    }
}

/// An arena holds no more nodes than a `usize` counts.
pub broadcast proof fn lemma_arena_len<T>(arena: &Arena<T>)
    ensures
        #[trigger] arena@.len() <= usize::MAX,
{
    assert(arena.nodes.len() == arena.nodes@.len());
}

/// The id that refers to position `i`.
pub open spec fn id_of(i: int) -> NodeId {
    NodeId { index: i as usize }
}

/// Every id is the id of its own position.
pub broadcast proof fn lemma_id_of_index(id: NodeId)
    ensures
        #[trigger] id_of(id.index as int) == id,
{
}

/// A node that holds `data` and has no links.
pub open spec fn leaf<T>(data: T) -> Node<T> {
    Node { parent: None, left: None, right: None, data }
}

/// `nodes` with the payload of node `i` replaced by `data`.
pub open spec fn with_data<T>(nodes: Seq<Node<T>>, i: int, data: T) -> Seq<Node<T>> {
    nodes.update(i, Node { parent: nodes[i].parent, left: nodes[i].left, right: nodes[i].right, data })
}

/// `nodes` with the left link of node `i` replaced by `link`.
pub open spec fn with_left<T>(nodes: Seq<Node<T>>, i: int, link: Option<NodeId>) -> Seq<Node<T>> {
    nodes.update(i, Node { parent: nodes[i].parent, left: link, right: nodes[i].right, data: nodes[i].data })
}

/// `nodes` with the right link of node `i` replaced by `link`.
pub open spec fn with_right<T>(nodes: Seq<Node<T>>, i: int, link: Option<NodeId>) -> Seq<Node<T>> {
    nodes.update(i, Node { parent: nodes[i].parent, left: nodes[i].left, right: link, data: nodes[i].data })
}

/// A new leaf holding `data` appended and made the left child of node `p`.
pub open spec fn with_new_left<T>(nodes: Seq<Node<T>>, p: int, data: T) -> Seq<Node<T>> {
    with_left(nodes.push(leaf(data)), p, Some(id_of(nodes.len() as int)))
}

/// A new leaf holding `data` appended and made the right child of node `p`.
pub open spec fn with_new_right<T>(nodes: Seq<Node<T>>, p: int, data: T) -> Seq<Node<T>> {
    with_right(nodes.push(leaf(data)), p, Some(id_of(nodes.len() as int)))
}

/// A new node holding `data` appended between node `n` and its right child: it becomes the
/// right child of `n`, and the old right child, where there was one, becomes its left child.
pub open spec fn with_repeat_inserted<T>(nodes: Seq<Node<T>>, n: int, data: T) -> Seq<Node<T>> {
    let fresh = nodes.len() as int;
    let linked = with_right(nodes.push(leaf(data)), n, Some(id_of(fresh)));
    match nodes[n].right {
        Some(old_right) => with_left(linked, fresh, Some(id_of(old_right.index as int))),
        None => linked,
    }
}

/// A new node holding `data` appended, with node `x` as its left child.
pub open spec fn wrap<T>(nodes: Seq<Node<T>>, x: int, data: T) -> Seq<Node<T>> {
    with_left(nodes.push(leaf(data)), nodes.len() as int, Some(id_of(x)))
}

/// A link of node `i` that is either absent or points at an existing node of lower rank.
pub open spec fn link_below<T>(nodes: Seq<Node<T>>, rank: Seq<int>, i: int, link: Option<NodeId>) -> bool {
    match link {
        Some(c) => 0 <= c.index < nodes.len() && rank[c.index as int] < rank[i],
        None => true,
    }
}

/// `rank` gives each node a number below the number of nodes, and every link goes from a
/// node to an existing node of lower rank.
pub open spec fn ranked<T>(nodes: Seq<Node<T>>, rank: Seq<int>) -> bool {
    &&& rank.len() == nodes.len()
    &&& forall|i: int|
        #![trigger nodes[i]]
        0 <= i < nodes.len() ==> {
            &&& 0 <= rank[i] < nodes.len()
            &&& link_below(nodes, rank, i, nodes[i].left)
            &&& link_below(nodes, rank, i, nodes[i].right)
        }
}

/// Every link points at an existing node and no path of links comes back to where it
/// started: the nodes form a forest (where two parents share a child, a directed acyclic
/// graph).
pub open spec fn acyclic<T>(nodes: Seq<Node<T>>) -> bool {
    exists|rank: Seq<int>| ranked(nodes, rank)
}

/// Ranks raised by `small` below `pivot` and by `big` from `pivot` on.
pub open spec fn shifted(rank: Seq<int>, pivot: int, small: int, big: int) -> Seq<int> {
    Seq::new(rank.len(), |j: int| if rank[j] < pivot { rank[j] + small } else { rank[j] + big })
}

/// Appending a leaf keeps the nodes acyclic.
pub proof fn lemma_push_leaf_acyclic<T>(nodes: Seq<Node<T>>, data: T)
    requires
        acyclic(nodes),
    ensures
        acyclic(nodes.push(leaf(data))),
{
    let rank = choose|r: Seq<int>| ranked(nodes, r);
    assert(ranked(nodes, rank));
    let m = nodes.push(leaf(data));
    let r2 = shifted(rank, 0, 1, 1).push(0);
    assert forall|i: int| #![trigger m[i]] 0 <= i < m.len() implies {
        &&& 0 <= r2[i] < m.len()
        &&& link_below(m, r2, i, m[i].left)
        &&& link_below(m, r2, i, m[i].right)
    } by {
        if i < nodes.len() {
            assert(m[i] == nodes[i]);
        }
    }
    assert(ranked(m, r2));
}

/// Changing a payload keeps the nodes acyclic.
pub proof fn lemma_with_data_acyclic<T>(nodes: Seq<Node<T>>, i: int, data: T)
    requires
        acyclic(nodes),
        0 <= i < nodes.len(),
    ensures
        acyclic(with_data(nodes, i, data)),
{
    let rank = choose|r: Seq<int>| ranked(nodes, r);
    assert(ranked(nodes, rank));
    let m = with_data(nodes, i, data);
    assert forall|k: int| #![trigger m[k]] 0 <= k < m.len() implies {
        &&& 0 <= rank[k] < m.len()
        &&& link_below(m, rank, k, m[k].left)
        &&& link_below(m, rank, k, m[k].right)
    } by {
        assert(nodes[k].left == m[k].left && nodes[k].right == m[k].right);
    }
    assert(ranked(m, rank));
}

/// A new parent above an existing node keeps the nodes acyclic.
pub proof fn lemma_wrap_acyclic<T>(nodes: Seq<Node<T>>, x: int, data: T)
    requires
        acyclic(nodes),
        nodes.len() + 1 <= usize::MAX,
        0 <= x < nodes.len(),
    ensures
        acyclic(wrap(nodes, x, data)),
{
    let rank = choose|r: Seq<int>| ranked(nodes, r);
    assert(ranked(nodes, rank));
    let n = nodes.len() as int;
    let m = wrap(nodes, x, data);
    let r2 = rank.push(n);
    assert forall|i: int| #![trigger m[i]] 0 <= i < m.len() implies {
        &&& 0 <= r2[i] < m.len()
        &&& link_below(m, r2, i, m[i].left)
        &&& link_below(m, r2, i, m[i].right)
    } by {
        if i < n {
            assert(link_below(nodes, rank, i, nodes[i].left));
        } else {
            assert(link_below(nodes, rank, x, nodes[x].left));
        }
    }
    assert(ranked(m, r2));
}

/// A new leaf below an existing node keeps the nodes acyclic.
pub proof fn lemma_new_right_acyclic<T>(nodes: Seq<Node<T>>, p: int, data: T)
    requires
        acyclic(nodes),
        nodes.len() + 1 <= usize::MAX,
        0 <= p < nodes.len(),
    ensures
        acyclic(with_new_right(nodes, p, data)),
{
    let rank = choose|r: Seq<int>| ranked(nodes, r);
    assert(ranked(nodes, rank));
    let n = nodes.len() as int;
    let m = with_new_right(nodes, p, data);
    let r2 = shifted(rank, 0, 1, 1).push(0);
    assert forall|i: int| #![trigger m[i]] 0 <= i < m.len() implies {
        &&& 0 <= r2[i] < m.len()
        &&& link_below(m, r2, i, m[i].left)
        &&& link_below(m, r2, i, m[i].right)
    } by {
        if i < n {
            assert(link_below(nodes, rank, i, nodes[i].left));
            if let Some(c) = nodes[i].left {
                assert(rank[c.index as int] < rank[i]);
            }
            if let Some(c) = nodes[i].right {
                assert(rank[c.index as int] < rank[i]);
            }
        }
    }
    assert(ranked(m, r2));
}

/// A new node spliced in between node `k` and its right child keeps the nodes acyclic.
pub proof fn lemma_repeat_inserted_acyclic<T>(nodes: Seq<Node<T>>, k: int, data: T)
    requires
        acyclic(nodes),
        nodes.len() + 1 <= usize::MAX,
        0 <= k < nodes.len(),
    ensures
        acyclic(with_repeat_inserted(nodes, k, data)),
{
    let rank = choose|r: Seq<int>| ranked(nodes, r);
    assert(ranked(nodes, rank));
    let n = nodes.len() as int;
    let m = with_repeat_inserted(nodes, k, data);
    let r2 = shifted(rank, rank[k], 0, 1).push(rank[k]);
    assert(link_below(nodes, rank, k, nodes[k].left));
    assert forall|i: int| #![trigger m[i]] 0 <= i < m.len() implies {
        &&& 0 <= r2[i] < m.len()
        &&& link_below(m, r2, i, m[i].left)
        &&& link_below(m, r2, i, m[i].right)
    } by {
        if i < n {
            assert(link_below(nodes, rank, i, nodes[i].left));
            if let Some(c) = nodes[i].left {
                assert(rank[c.index as int] < rank[i]);
            }
            if let Some(c) = nodes[i].right {
                assert(rank[c.index as int] < rank[i]);
            }
        }
    }
    assert(ranked(m, r2));
}

/// A new node holding `top` with node `x` as its left child and a new leaf holding `data` as
/// its right child, spliced in below node `last` (as its left or its right child), keeps the
/// nodes acyclic when `x` is a child of `last`.
pub proof fn lemma_splice_pair_acyclic<T>(nodes: Seq<Node<T>>, x: int, last: int, top: T, data: T, as_left: bool)
    requires
        acyclic(nodes),
        nodes.len() + 2 <= usize::MAX,
        0 <= x < nodes.len(),
        0 <= last < nodes.len(),
        nodes[last].right == Some(id_of(x)) || nodes[last].left == Some(id_of(x)),
    ensures
        ({
            let n = nodes.len() as int;
            let pair = with_new_right(wrap(nodes, x, top), n, data);
            acyclic(if as_left {
                with_left(pair, last, Some(id_of(n)))
            } else {
                with_right(pair, last, Some(id_of(n)))
            })
        }),
{
    let rank = choose|r: Seq<int>| ranked(nodes, r);
    assert(ranked(nodes, rank));
    let n = nodes.len() as int;
    let pair = with_new_right(wrap(nodes, x, top), n, data);
    let m = if as_left {
        with_left(pair, last, Some(id_of(n)))
    } else {
        with_right(pair, last, Some(id_of(n)))
    };
    assert(link_below(nodes, rank, last, nodes[last].left));
    assert(rank[x] < rank[last]);
    let r2 = shifted(rank, rank[last], 1, 2).push(rank[last] + 1).push(0);
    assert forall|i: int| #![trigger m[i]] 0 <= i < m.len() implies {
        &&& 0 <= r2[i] < m.len()
        &&& link_below(m, r2, i, m[i].left)
        &&& link_below(m, r2, i, m[i].right)
    } by {
        if i < n {
            assert(link_below(nodes, rank, i, nodes[i].left));
            if let Some(c) = nodes[i].left {
                assert(rank[c.index as int] < rank[i]);
            }
            if let Some(c) = nodes[i].right {
                assert(rank[c.index as int] < rank[i]);
            }
        }
    }
    assert(ranked(m, r2));
}

/// The text that a payload stands for in postfix notation.
pub trait Render {
    /// The characters that `render` gives.
    spec fn spec_render(&self) -> Seq<char>;

    /// The payload written out as text.
    fn render(&self) -> (text: String)
        ensures
            text@ == self.spec_render(),
    ;
}

/// Whether `node` links to `id` on either side.
pub open spec fn links_to<T>(node: Node<T>, id: NodeId) -> bool {
    node.left == Some(id) || node.right == Some(id)
}

/// No id sits in two link slots: no node is the child of two nodes, nor both children of
/// one, so the nodes below any node form a tree.
pub open spec fn unshared<T>(nodes: Seq<Node<T>>) -> bool {
    &&& forall|p: int, q: int, id: NodeId|
        0 <= p < nodes.len() && 0 <= q < nodes.len() && p != q && #[trigger] links_to(nodes[p], id)
            && #[trigger] links_to(nodes[q], id) ==> false
    &&& forall|p: int| 0 <= p < nodes.len() && (#[trigger] nodes[p]).left is Some ==> nodes[p].left != nodes[p].right
}

/// Node `j` is node `i` or is found from it by following at most `fuel` links.
pub open spec fn reaches<T>(nodes: Seq<Node<T>>, i: int, j: int, fuel: nat) -> bool
    decreases fuel,
{
    if i == j {
        true
    } else if fuel == 0 || !(0 <= i < nodes.len()) {
        false
    } else {
        (match nodes[i].left {
            Some(c) => reaches(nodes, c.index as int, j, (fuel - 1) as nat),
            None => false,
        }) || (match nodes[i].right {
            Some(c) => reaches(nodes, c.index as int, j, (fuel - 1) as nat),
            None => false,
        })
    }
}

/// Node `j` is found from node `i` by following links.
pub open spec fn reachable<T>(nodes: Seq<Node<T>>, i: int, j: int) -> bool {
    exists|fuel: nat| reaches(nodes, i, j, fuel)
}

/// More fuel finds at least what less fuel found.
pub proof fn lemma_reaches_monotone<T>(nodes: Seq<Node<T>>, i: int, j: int, fuel: nat, more: nat)
    requires
        reaches(nodes, i, j, fuel),
        fuel <= more,
    ensures
        reaches(nodes, i, j, more),
    decreases fuel,
{
    if i != j {
        if let Some(c) = nodes[i].left {
            if reaches(nodes, c.index as int, j, (fuel - 1) as nat) {
                lemma_reaches_monotone(nodes, c.index as int, j, (fuel - 1) as nat, (more - 1) as nat);
            }
        }
        if let Some(c) = nodes[i].right {
            if reaches(nodes, c.index as int, j, (fuel - 1) as nat) {
                lemma_reaches_monotone(nodes, c.index as int, j, (fuel - 1) as nat, (more - 1) as nat);
            }
        }
    }
}

/// Every link of `nodes` points at an existing node.
pub open spec fn links_in_bounds<T>(nodes: Seq<Node<T>>) -> bool {
    forall|i: int| #![trigger nodes[i]] 0 <= i < nodes.len() ==> {
        &&& (nodes[i].left matches Some(c) ==> 0 <= c.index < nodes.len())
        &&& (nodes[i].right matches Some(c) ==> 0 <= c.index < nodes.len())
    }
}

proof fn lemma_repeat_inserted_finds_old<T>(nodes: Seq<Node<T>>, k: int, data: T, i: int, j: int, fuel: nat)
    requires
        links_in_bounds(nodes),
        0 <= k < nodes.len(),
        nodes.len() + 1 <= usize::MAX,
        i != nodes.len(),
        reaches(with_repeat_inserted(nodes, k, data), i, j, fuel),
    ensures
        j == nodes.len() || reaches(nodes, i, j, fuel),
    decreases fuel,
{
    let n = nodes.len() as int;
    let m = with_repeat_inserted(nodes, k, data);
    if i != j {
        assert(0 <= i < n);
        assert(id_of(n).index as int == n);
        if i != k {
            assert(m[i] == nodes[i]);
            if let Some(c) = nodes[i].left {
                if reaches(m, c.index as int, j, (fuel - 1) as nat) {
                    lemma_repeat_inserted_finds_old(nodes, k, data, c.index as int, j, (fuel - 1) as nat);
                }
            }
            if let Some(c) = nodes[i].right {
                if reaches(m, c.index as int, j, (fuel - 1) as nat) {
                    lemma_repeat_inserted_finds_old(nodes, k, data, c.index as int, j, (fuel - 1) as nat);
                }
            }
        } else {
            assert(m[k].left == nodes[k].left);
            if let Some(c) = nodes[k].left {
                if reaches(m, c.index as int, j, (fuel - 1) as nat) {
                    lemma_repeat_inserted_finds_old(nodes, k, data, c.index as int, j, (fuel - 1) as nat);
                }
            }
            assert(m[k].right == Some(id_of(n)));
            if reaches(m, n, j, (fuel - 1) as nat) && j != n {
                assert(m[n].right is None);
                if let Some(r) = nodes[k].right {
                    assert(m[n].left == Some(id_of(r.index as int)));
                    assert(id_of(r.index as int) == r);
                    assert(reaches(m, r.index as int, j, (fuel - 2) as nat));
                    lemma_repeat_inserted_finds_old(nodes, k, data, r.index as int, j, (fuel - 2) as nat);
                    if j != n {
                        lemma_reaches_monotone(nodes, r.index as int, j, (fuel - 2) as nat, (fuel - 1) as nat);
                    }
                } else {
                    assert(m[n].left is None);
                }
            }
        }
    }
}

proof fn lemma_repeat_inserted_keeps_paths<T>(nodes: Seq<Node<T>>, k: int, data: T, i: int, j: int, fuel: nat)
    requires
        links_in_bounds(nodes),
        0 <= k < nodes.len(),
        nodes.len() + 1 <= usize::MAX,
        reaches(nodes, i, j, fuel),
    ensures
        reaches(with_repeat_inserted(nodes, k, data), i, j, 2 * fuel),
    decreases fuel,
{
    let n = nodes.len() as int;
    let m = with_repeat_inserted(nodes, k, data);
    if i != j {
        assert(id_of(n).index as int == n);
        if let Some(c) = nodes[i].left {
            if reaches(nodes, c.index as int, j, (fuel - 1) as nat) {
                lemma_repeat_inserted_keeps_paths(nodes, k, data, c.index as int, j, (fuel - 1) as nat);
                lemma_reaches_monotone(m, c.index as int, j, (2 * fuel - 2) as nat, (2 * fuel - 1) as nat);
                assert(m[i].left == nodes[i].left);
            }
        }
        if let Some(c) = nodes[i].right {
            if reaches(nodes, c.index as int, j, (fuel - 1) as nat) {
                lemma_repeat_inserted_keeps_paths(nodes, k, data, c.index as int, j, (fuel - 1) as nat);
                if i != k {
                    lemma_reaches_monotone(m, c.index as int, j, (2 * fuel - 2) as nat, (2 * fuel - 1) as nat);
                    assert(m[i].right == nodes[i].right);
                } else {
                    assert(m[n].left == Some(id_of(c.index as int)));
                    assert(id_of(c.index as int) == c);
                    assert(reaches(m, n, j, (2 * fuel - 1) as nat));
                    assert(m[k].right == Some(id_of(n)));
                }
            }
        }
    }
}

/// Putting a node between node `k` and its right child keeps a tree a tree, and the nodes
/// found from `k` afterwards are those found before and the new node: nothing is detached.
pub proof fn lemma_repeat_inserted_shape<T>(nodes: Seq<Node<T>>, k: int, data: T)
    requires
        links_in_bounds(nodes),
        0 <= k < nodes.len(),
        nodes.len() + 1 <= usize::MAX,
    ensures
        links_in_bounds(with_repeat_inserted(nodes, k, data)),
        unshared(nodes) ==> unshared(with_repeat_inserted(nodes, k, data)),
        forall|j: int| reachable(with_repeat_inserted(nodes, k, data), k, j)
            <==> (reachable(nodes, k, j) || j == nodes.len()),
{
    let n = nodes.len() as int;
    let m = with_repeat_inserted(nodes, k, data);
    assert(id_of(n).index as int == n);
    assert forall|i: int| #![trigger m[i]] 0 <= i < m.len() implies {
        &&& (m[i].left matches Some(c) ==> 0 <= c.index < m.len())
        &&& (m[i].right matches Some(c) ==> 0 <= c.index < m.len())
    } by {
        if i < n {
            assert(nodes[i] == nodes[i]);
        } else {
            assert(nodes[k] == nodes[k]);
        }
    }
    if unshared(nodes) {
        assert forall|p: int, q: int, id: NodeId|
            0 <= p < m.len() && 0 <= q < m.len() && p != q && #[trigger] links_to(m[p], id)
                && #[trigger] links_to(m[q], id) implies false by {
            assert(nodes[k] == nodes[k]);
            if p < n {
                assert(nodes[p] == nodes[p]);
            }
            if q < n {
                assert(nodes[q] == nodes[q]);
            }
            if id == id_of(n) {
                assert(p == k && q == k);
            } else if nodes[k].right == Some(id) {
                assert(links_to(nodes[k], id));
                if p != n && p != k {
                    assert(links_to(nodes[p], id));
                }
                if q != n && q != k {
                    assert(links_to(nodes[q], id));
                }
            } else {
                if p != n && q != n {
                    assert(links_to(nodes[p], id) && links_to(nodes[q], id));
                }
            }
        }
        assert forall|p: int| 0 <= p < m.len() && (#[trigger] m[p]).left is Some implies m[p].left != m[p].right by {
            if p < n {
                assert(nodes[p] == nodes[p]);
            }
        }
    }
    assert forall|j: int| reachable(m, k, j) <==> (reachable(nodes, k, j) || j == n) by {
        if reachable(m, k, j) {
            let f = choose|f: nat| reaches(m, k, j, f);
            lemma_repeat_inserted_finds_old(nodes, k, data, k, j, f);
        }
        if reachable(nodes, k, j) {
            let f = choose|f: nat| reaches(nodes, k, j, f);
            lemma_repeat_inserted_keeps_paths(nodes, k, data, k, j, f);
        }
        if j == n {
            assert(m[k].right == Some(id_of(n)));
            assert(reaches(m, n, j, 0));
            assert(reaches(m, k, j, 1));
        }
    }
}

/// The postfix text of the subtree at node `i`: the left subtree, the right subtree, then the
/// node itself. `None` when a node on the way is missing or a path is longer than `fuel`.
pub open spec fn postfix_within<T: Render>(nodes: Seq<Node<T>>, i: int, fuel: nat) -> Option<Seq<char>>
    decreases fuel,
{
    if fuel == 0 || !(0 <= i < nodes.len()) {
        None
    } else {
        let l = match nodes[i].left {
            Some(c) => postfix_within(nodes, c.index as int, (fuel - 1) as nat),
            None => Some(Seq::<char>::empty()),
        };
        let r = match nodes[i].right {
            Some(c) => postfix_within(nodes, c.index as int, (fuel - 1) as nat),
            None => Some(Seq::<char>::empty()),
        };
        match (l, r) {
            (Some(ls), Some(rs)) => Some(ls + rs + nodes[i].data.spec_render()),
            _ => None,
        }
    }
}

/// The postfix text of the subtree at node `i`. No path of an acyclic arena holds more nodes
/// than the arena does, so `None` stands exactly for a missing node or a cycle below `i`.
pub open spec fn postfix_of<T: Render>(nodes: Seq<Node<T>>, i: int) -> Option<Seq<char>> {
    postfix_within(nodes, i, nodes.len())
}

/// More fuel never changes a traversal that finished.
pub proof fn lemma_postfix_fuel_monotone<T: Render>(nodes: Seq<Node<T>>, i: int, fuel: nat, more: nat)
    requires
        postfix_within(nodes, i, fuel) is Some,
        fuel <= more,
    ensures
        postfix_within(nodes, i, more) == postfix_within(nodes, i, fuel),
    decreases fuel,
{
    if fuel > 0 && 0 <= i < nodes.len() {
        if let Some(c) = nodes[i].left {
            lemma_postfix_fuel_monotone(nodes, c.index as int, (fuel - 1) as nat, (more - 1) as nat);
        }
        if let Some(c) = nodes[i].right {
            lemma_postfix_fuel_monotone(nodes, c.index as int, (fuel - 1) as nat, (more - 1) as nat);
        }
    }
}

/// In ranked nodes the traversal from node `i` finishes once the fuel exceeds the rank of `i`.
pub proof fn lemma_ranked_postfix<T: Render>(nodes: Seq<Node<T>>, rank: Seq<int>, i: int, fuel: nat)
    requires
        ranked(nodes, rank),
        0 <= i < nodes.len(),
        rank[i] < fuel,
    ensures
        postfix_within(nodes, i, fuel) is Some,
    decreases fuel,
{
    assert(link_below(nodes, rank, i, nodes[i].left));
    if let Some(c) = nodes[i].left {
        lemma_ranked_postfix(nodes, rank, c.index as int, (fuel - 1) as nat);
    }
    if let Some(c) = nodes[i].right {
        lemma_ranked_postfix(nodes, rank, c.index as int, (fuel - 1) as nat);
    }
}

/// In an acyclic arena the postfix text of every node is defined.
pub proof fn lemma_acyclic_postfix<T: Render>(nodes: Seq<Node<T>>, i: int)
    requires
        acyclic(nodes),
        0 <= i < nodes.len(),
    ensures
        postfix_of(nodes, i) is Some,
{
    let rank = choose|r: Seq<int>| ranked(nodes, r);
    assert(ranked(nodes, rank));
    assert(link_below(nodes, rank, i, nodes[i].left));
    lemma_ranked_postfix(nodes, rank, i, nodes.len());
}

impl<T> Arena<T> {
    /// An arena without nodes.
    pub fn new() -> (arena: Self)
        ensures
            arena@ == Seq::<Node<T>>::empty(),
    {
        Self { nodes: Vec::new() }
    }

    /// Whether the arena holds no node.
    pub fn is_empty(&self) -> (b: bool)
        ensures
            b == (self@.len() == 0),
    {
        self.nodes.len() == 0
    }

    /// Appends an unlinked node holding `data`; its id is the old number of nodes.
    pub fn new_node(&mut self, data: T) -> (id: NodeId)
        ensures
            id == id_of(old(self)@.len() as int),
            final(self)@ == old(self)@.push(leaf(data)),
            id.index == old(self)@.len(),
            final(self)@.len() == old(self)@.len() + 1,
            final(self)@[id.index as int].data == data,
            final(self)@[id.index as int].left is None,
            final(self)@[id.index as int].right is None,
            forall|j: int| 0 <= j < old(self)@.len() ==> #[trigger] final(self)@[j] == old(self)@[j],
    {
        let next_index = self.nodes.len();
        self.nodes.push(Node { parent: None, left: None, right: None, data: data });
        NodeId { index: next_index }
    }

    /// Replaces the payload of a node.
    pub fn change_payload(&mut self, node_id: &NodeId, data: T)
        requires
            node_id.index < old(self)@.len(),
        ensures
            final(self)@ == with_data(old(self)@, node_id.index as int, data),
            final(self)@.len() == old(self)@.len(),
            final(self)@[node_id.index as int].data == data,
            final(self)@[node_id.index as int].left == old(self)@[node_id.index as int].left,
            final(self)@[node_id.index as int].right == old(self)@[node_id.index as int].right,
            forall|j: int| 0 <= j < old(self)@.len() && j != node_id.index ==> #[trigger] final(self)@[j] == old(self)@[j],
    {
        self.nodes[node_id.index].data = data;
    }

    /// The payload of a node.
    pub fn get_payload(&mut self, node_id: &NodeId) -> (data: &T)
        requires
            node_id.index < old(self)@.len(),
        ensures
            *data == old(self)@[node_id.index as int].data,
            final(self)@ == old(self)@,
    {
        &self.nodes[node_id.index].data
    }

    /// The left child of a node.
    pub fn get_left_id(&mut self, parent_node_id: &NodeId) -> (left: Option<&NodeId>)
        requires
            parent_node_id.index < old(self)@.len(),
        ensures
            final(self)@ == old(self)@,
            match left {
                Some(l) => old(self)@[parent_node_id.index as int].left == Some(*l),
                None => old(self)@[parent_node_id.index as int].left is None,
            },
    {
        let parent_node: &Node<T> = &self.nodes[parent_node_id.index];
        parent_node.left.as_ref()
    }

    /// The right child of a node.
    pub fn get_right_id(&mut self, parent_node_id: &NodeId) -> (right: Option<&NodeId>)
        requires
            parent_node_id.index < old(self)@.len(),
        ensures
            final(self)@ == old(self)@,
            match right {
                Some(r) => old(self)@[parent_node_id.index as int].right == Some(*r),
                None => old(self)@[parent_node_id.index as int].right is None,
            },
    {
        let parent_node: &Node<T> = &self.nodes[parent_node_id.index];
        parent_node.right.as_ref()
    }

    /// Appends a node holding `data` and makes it the left child of the given node.
    pub fn add_left(&mut self, parent_node_id: &NodeId, data: T)
        requires
            parent_node_id.index < old(self)@.len(),
        ensures
            final(self)@ == with_new_left(old(self)@, parent_node_id.index as int, data),
            final(self)@.len() == old(self)@.len() + 1,
            final(self)@[parent_node_id.index as int].left is Some,
            final(self)@[parent_node_id.index as int].left->0.index == old(self)@.len(),
            final(self)@[parent_node_id.index as int].right == old(self)@[parent_node_id.index as int].right,
            final(self)@[parent_node_id.index as int].data == old(self)@[parent_node_id.index as int].data,
            final(self)@[old(self)@.len() as int].data == data,
            final(self)@[old(self)@.len() as int].left is None,
            final(self)@[old(self)@.len() as int].right is None,
            forall|j: int| 0 <= j < old(self)@.len() && j != parent_node_id.index ==> #[trigger] final(self)@[j] == old(self)@[j],
    {
        let new_node_id: NodeId = self.new_node(data);
        let parent_node: &mut Node<T> = &mut self.nodes[parent_node_id.index];
        parent_node.left = Some(new_node_id);
    }

    /// Appends a node holding `data`, makes it the right child of the given node, and returns
    /// its id.
    pub fn add_right(&mut self, parent_node_id: &NodeId, data: T) -> (id: NodeId)
        requires
            parent_node_id.index < old(self)@.len(),
        ensures
            id == id_of(old(self)@.len() as int),
            final(self)@ == with_new_right(old(self)@, parent_node_id.index as int, data),
            id.index == old(self)@.len(),
            final(self)@.len() == old(self)@.len() + 1,
            final(self)@[parent_node_id.index as int].right == Some(id),
            final(self)@[parent_node_id.index as int].left == old(self)@[parent_node_id.index as int].left,
            final(self)@[parent_node_id.index as int].data == old(self)@[parent_node_id.index as int].data,
            final(self)@[old(self)@.len() as int].data == data,
            final(self)@[old(self)@.len() as int].left is None,
            final(self)@[old(self)@.len() as int].right is None,
            forall|j: int| 0 <= j < old(self)@.len() && j != parent_node_id.index ==> #[trigger] final(self)@[j] == old(self)@[j],
    {
        let new_node_id: NodeId = self.new_node(data);
        let parent_node: &mut Node<T> = &mut self.nodes[parent_node_id.index];
        parent_node.right = Some(new_node_id);
        new_node_id.clone()
    }

    /// Makes `left_node_id` the left child of the given node.
    pub fn insert_left(&mut self, parent_node_id: &NodeId, left_node_id: NodeId)
        requires
            parent_node_id.index < old(self)@.len(),
        ensures
            final(self)@ == with_left(old(self)@, parent_node_id.index as int, Some(left_node_id)),
            final(self)@.len() == old(self)@.len(),
            final(self)@[parent_node_id.index as int].left == Some(left_node_id),
            final(self)@[parent_node_id.index as int].right == old(self)@[parent_node_id.index as int].right,
            final(self)@[parent_node_id.index as int].data == old(self)@[parent_node_id.index as int].data,
            forall|j: int| 0 <= j < old(self)@.len() && j != parent_node_id.index ==> #[trigger] final(self)@[j] == old(self)@[j],
    {
        let parent_node: &mut Node<T> = &mut self.nodes[parent_node_id.index];
        parent_node.left = Some(left_node_id);
    }

    /// Makes `right_node_id` the right child of the given node.
    pub fn insert_right(&mut self, parent_node_id: &NodeId, right_node_id: NodeId)
        requires
            parent_node_id.index < old(self)@.len(),
        ensures
            final(self)@ == with_right(old(self)@, parent_node_id.index as int, Some(right_node_id)),
            final(self)@.len() == old(self)@.len(),
            final(self)@[parent_node_id.index as int].right == Some(right_node_id),
            final(self)@[parent_node_id.index as int].left == old(self)@[parent_node_id.index as int].left,
            final(self)@[parent_node_id.index as int].data == old(self)@[parent_node_id.index as int].data,
            forall|j: int| 0 <= j < old(self)@.len() && j != parent_node_id.index ==> #[trigger] final(self)@[j] == old(self)@[j],
    {
        let parent_node: &mut Node<T> = &mut self.nodes[parent_node_id.index];
        parent_node.right = Some(right_node_id);
    }

    /// Appends a node holding `data` between the given node and its right child (see
    /// [`with_repeat_inserted`]).
    #[verifier::spinoff_prover]
    pub fn insert_repeat_node_into_node(&mut self, node_id: &NodeId, data: T)
        requires
            node_id.index < old(self)@.len(),
        ensures
            final(self)@ == with_repeat_inserted(old(self)@, node_id.index as int, data),
            final(self)@.len() == old(self)@.len() + 1,
            final(self)@[node_id.index as int].right is Some,
            final(self)@[node_id.index as int].right->0.index == old(self)@.len(),
            final(self)@[node_id.index as int].left == old(self)@[node_id.index as int].left,
            final(self)@[node_id.index as int].data == old(self)@[node_id.index as int].data,
            final(self)@[old(self)@.len() as int].data == data,
            final(self)@[old(self)@.len() as int].left == old(self)@[node_id.index as int].right,
            final(self)@[old(self)@.len() as int].right is None,
            forall|j: int| 0 <= j < old(self)@.len() && j != node_id.index ==> #[trigger] final(self)@[j] == old(self)@[j],
            acyclic(old(self)@) ==> acyclic(final(self)@),
            links_in_bounds(old(self)@) ==> links_in_bounds(final(self)@),
            links_in_bounds(old(self)@) && unshared(old(self)@) ==> unshared(final(self)@),
            links_in_bounds(old(self)@) ==> forall|j: int| reachable(final(self)@, node_id.index as int, j)
                <==> (reachable(old(self)@, node_id.index as int, j) || j == old(self)@.len()),
    {
        let ghost payload = data;
        let next_index = self.nodes.len();
        self.nodes.push(Node { parent: None, left: None, right: None, data: data });
        let old_right_option = self.nodes[node_id.index].right;
        self.nodes[node_id.index].right = Some(NodeId { index: next_index });
        match old_right_option {
            Some(old_right_node_id) => {
                self.nodes[next_index].left = Some(NodeId { index: old_right_node_id.index });
            },
            _ => {},
        }
        proof {
            assert(self@.len() == self.nodes.len());
            if acyclic(old(self)@) {
                lemma_repeat_inserted_acyclic(old(self)@, node_id.index as int, payload);
            }
            if links_in_bounds(old(self)@) {
                lemma_repeat_inserted_shape(old(self)@, node_id.index as int, payload);
                assert(self@ == with_repeat_inserted(old(self)@, node_id.index as int, payload));
                assert forall|j: int| reachable(self@, node_id.index as int, j)
                    <==> (reachable(old(self)@, node_id.index as int, j) || j == old(self)@.len()) by {
                    assert(reachable(with_repeat_inserted(old(self)@, node_id.index as int, payload), node_id.index as int, j)
                        <==> (reachable(old(self)@, node_id.index as int, j) || j == old(self)@.len()));
                }
            }
        }
    }
}

/// Appends to `string_buffer` the postfix text of the subtree at `parent_node_id`: each node
/// after both of its subtrees, the left one first.
pub fn recurse_postfix<T: Render>(arena: &Arena<T>, parent_node_id: &NodeId, string_buffer: &mut String)
    requires
        postfix_of(arena@, parent_node_id.index as int) is Some,
    ensures
        final(string_buffer)@ == old(string_buffer)@ + postfix_of(arena@, parent_node_id.index as int)->0,
{
    postfix_into(arena, parent_node_id, string_buffer, Ghost(arena@.len()));
}

fn postfix_into<T: Render>(arena: &Arena<T>, parent_node_id: &NodeId, string_buffer: &mut String, Ghost(fuel): Ghost<nat>)
    requires
        postfix_within(arena@, parent_node_id.index as int, fuel) is Some,
    ensures
        final(string_buffer)@ == old(string_buffer)@ + postfix_within(arena@, parent_node_id.index as int, fuel)->0,
    decreases fuel,
{
    let parent_node: &Node<T> = &arena.nodes[parent_node_id.index];
    match &parent_node.left {
        Some(l) => {
            postfix_into(arena, l, string_buffer, Ghost((fuel - 1) as nat));
        },
        None => {},
    }
    match &parent_node.right {
        Some(r) => {
            postfix_into(arena, r, string_buffer, Ghost((fuel - 1) as nat));
        },
        None => {},
    }
    let text = parent_node.data.render();
    string_buffer.append(text.as_str());
}

/// The postfix text of the subtree at `parent_node_id` (see [`recurse_postfix`]), or `None`
/// where a link points at a missing node or a path below the node runs into a cycle, on which
/// [`recurse_postfix`] would not end.
pub fn checked_postfix<T: Render>(arena: &Arena<T>, parent_node_id: &NodeId) -> (text: Option<String>)
    ensures
        match text {
            Some(t) => postfix_of(arena@, parent_node_id.index as int) == Some(t@),
            None => postfix_of(arena@, parent_node_id.index as int) is None,
        },
{
    let mut string_buffer = String::new();
    let fuel = arena.nodes.len();
    if postfix_within_checked(arena, parent_node_id, &mut string_buffer, fuel) {
        Some(string_buffer)
    } else {
        None
    }
}

fn postfix_within_checked<T: Render>(arena: &Arena<T>, parent_node_id: &NodeId, string_buffer: &mut String, fuel: usize) -> (done: bool)
    ensures
        done == (postfix_within(arena@, parent_node_id.index as int, fuel as nat) is Some),
        done ==> final(string_buffer)@ == old(string_buffer)@ + postfix_within(arena@, parent_node_id.index as int, fuel as nat)->0,
    decreases fuel,
{
    if fuel == 0 || parent_node_id.index >= arena.nodes.len() {
        return false;
    }
    let parent_node: &Node<T> = &arena.nodes[parent_node_id.index];
    match &parent_node.left {
        Some(l) => {
            if !postfix_within_checked(arena, l, string_buffer, fuel - 1) {
                return false;
            }
        },
        None => {},
    }
    match &parent_node.right {
        Some(r) => {
            if !postfix_within_checked(arena, r, string_buffer, fuel - 1) {
                return false;
            }
        },
        None => {},
    }
    let text = parent_node.data.render();
    string_buffer.append(text.as_str());
    true
}

} // verus!
