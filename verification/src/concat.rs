use vstd::prelude::*;

use crate::arena::{
    acyclic, id_of, leaf, lemma_reaches_monotone, link_below, links_in_bounds, links_to, ranked, reachable, reaches,
    shifted, unshared, with_left, with_right, Arena, Node, NodeId,
};
use crate::block::RegexBuildingBlock;

verus! {

/// Whether a node holds a concatenation.
pub open spec fn is_concatenation(n: Node<RegexBuildingBlock>) -> bool {
    n.data == RegexBuildingBlock::Concatenation
}

/// Follows right links from node `i` for as long as the right child is a concatenation, and
/// gives the last node reached. `None` when a node on the way is missing or more than `fuel`
/// steps are needed.
pub open spec fn descend_within(nodes: Seq<Node<RegexBuildingBlock>>, i: int, fuel: nat) -> Option<int>
    decreases fuel,
{
    if !(0 <= i < nodes.len()) {
        None
    } else {
        match nodes[i].right {
            Some(r) => {
                if !(0 <= r.index < nodes.len()) {
                    None
                } else if is_concatenation(nodes[r.index as int]) {
                    if fuel == 0 {
                        None
                    } else {
                        descend_within(nodes, r.index as int, (fuel - 1) as nat)
                    }
                } else {
                    Some(i)
                }
            },
            None => Some(i),
        }
    }
}

/// The end of the chain of concatenations that hangs off the right of node `i`. A chain
/// without a cycle takes fewer steps than there are nodes, so `None` stands exactly for a
/// missing node or a cycle.
pub open spec fn descend_end(nodes: Seq<Node<RegexBuildingBlock>>, i: int) -> Option<int> {
    descend_within(nodes, i, nodes.len())
}

/// The nodes after [`concat_right_side`]: a leaf holding `data` and a concatenation are
/// appended; the concatenation takes the place of the right child of node `n`, the old right
/// child becomes its left child, and the leaf its right child.
pub open spec fn concat_right_side_nodes(
    nodes: Seq<Node<RegexBuildingBlock>>,
    n: int,
    data: RegexBuildingBlock,
) -> Seq<Node<RegexBuildingBlock>> {
    let fresh = nodes.len() as int;
    let concat = fresh + 1;
    let pushed = nodes.push(leaf(data)).push(leaf(RegexBuildingBlock::Concatenation));
    let linked = with_right(pushed, n, Some(id_of(concat)));
    let adopted = match nodes[n].right {
        Some(old_right) => with_left(linked, concat, Some(id_of(old_right.index as int))),
        None => linked,
    };
    with_right(adopted, concat, Some(id_of(fresh)))
}

proof fn lemma_concat_right_side_finds_old(nodes: Seq<Node<RegexBuildingBlock>>, k: int, data: RegexBuildingBlock, i: int, j: int, fuel: nat)
    requires
        links_in_bounds(nodes),
        0 <= k < nodes.len(),
        nodes.len() + 2 <= usize::MAX,
        i != nodes.len(),
        i != nodes.len() + 1,
        reaches(concat_right_side_nodes(nodes, k, data), i, j, fuel),
    ensures
        j == nodes.len() || j == nodes.len() + 1 || reaches(nodes, i, j, fuel),
    decreases fuel,
{
    let n = nodes.len() as int;
    let m = concat_right_side_nodes(nodes, k, data);
    if i != j {
        assert(0 <= i < n);
        assert(id_of(n).index as int == n);
        assert(id_of(n + 1).index as int == n + 1);
        if i != k {
            assert(m[i] == nodes[i]);
            if let Some(c) = nodes[i].left {
                if reaches(m, c.index as int, j, (fuel - 1) as nat) {
                    lemma_concat_right_side_finds_old(nodes, k, data, c.index as int, j, (fuel - 1) as nat);
                }
            }
            if let Some(c) = nodes[i].right {
                if reaches(m, c.index as int, j, (fuel - 1) as nat) {
                    lemma_concat_right_side_finds_old(nodes, k, data, c.index as int, j, (fuel - 1) as nat);
                }
            }
        } else {
            assert(m[k].left == nodes[k].left);
            if let Some(c) = nodes[k].left {
                if reaches(m, c.index as int, j, (fuel - 1) as nat) {
                    lemma_concat_right_side_finds_old(nodes, k, data, c.index as int, j, (fuel - 1) as nat);
                }
            }
            assert(m[k].right == Some(id_of(n + 1)));
            if reaches(m, n + 1, j, (fuel - 1) as nat) && j != n + 1 && j != n {
                assert(m[n + 1].right == Some(id_of(n)));
                assert(m[n].left is None && m[n].right is None);
                assert(!reaches(m, n, j, (fuel - 2) as nat));
                if let Some(r) = nodes[k].right {
                    assert(m[n + 1].left == Some(id_of(r.index as int)));
                    assert(id_of(r.index as int) == r);
                    assert(reaches(m, r.index as int, j, (fuel - 2) as nat));
                    lemma_concat_right_side_finds_old(nodes, k, data, r.index as int, j, (fuel - 2) as nat);
                    lemma_reaches_monotone(nodes, r.index as int, j, (fuel - 2) as nat, (fuel - 1) as nat);
                } else {
                    assert(m[n + 1].left is None);
                }
            }
        }
    }
}

proof fn lemma_concat_right_side_keeps_paths(nodes: Seq<Node<RegexBuildingBlock>>, k: int, data: RegexBuildingBlock, i: int, j: int, fuel: nat)
    requires
        links_in_bounds(nodes),
        0 <= k < nodes.len(),
        nodes.len() + 2 <= usize::MAX,
        reaches(nodes, i, j, fuel),
    ensures
        reaches(concat_right_side_nodes(nodes, k, data), i, j, 2 * fuel),
    decreases fuel,
{
    let n = nodes.len() as int;
    let m = concat_right_side_nodes(nodes, k, data);
    if i != j {
        assert(id_of(n + 1).index as int == n + 1);
        if let Some(c) = nodes[i].left {
            if reaches(nodes, c.index as int, j, (fuel - 1) as nat) {
                lemma_concat_right_side_keeps_paths(nodes, k, data, c.index as int, j, (fuel - 1) as nat);
                lemma_reaches_monotone(m, c.index as int, j, (2 * fuel - 2) as nat, (2 * fuel - 1) as nat);
                assert(m[i].left == nodes[i].left);
            }
        }
        if let Some(c) = nodes[i].right {
            if reaches(nodes, c.index as int, j, (fuel - 1) as nat) {
                lemma_concat_right_side_keeps_paths(nodes, k, data, c.index as int, j, (fuel - 1) as nat);
                if i != k {
                    lemma_reaches_monotone(m, c.index as int, j, (2 * fuel - 2) as nat, (2 * fuel - 1) as nat);
                    assert(m[i].right == nodes[i].right);
                } else {
                    assert(m[n + 1].left == Some(id_of(c.index as int)));
                    assert(id_of(c.index as int) == c);
                    assert(reaches(m, n + 1, j, (2 * fuel - 1) as nat));
                    assert(m[k].right == Some(id_of(n + 1)));
                }
            }
        }
    }
}

/// Putting a concatenation between node `k` and its right child, with a new leaf as the
/// concatenation's right child, keeps a tree a tree, and the nodes found from `k` afterwards
/// are those found before and the two new nodes: nothing is detached.
pub proof fn lemma_concat_right_side_shape(nodes: Seq<Node<RegexBuildingBlock>>, k: int, data: RegexBuildingBlock)
    requires
        links_in_bounds(nodes),
        0 <= k < nodes.len(),
        nodes.len() + 2 <= usize::MAX,
    ensures
        links_in_bounds(concat_right_side_nodes(nodes, k, data)),
        unshared(nodes) ==> unshared(concat_right_side_nodes(nodes, k, data)),
        forall|j: int| reachable(concat_right_side_nodes(nodes, k, data), k, j)
            <==> (reachable(nodes, k, j) || j == nodes.len() || j == nodes.len() + 1),
{
    let n = nodes.len() as int;
    let m = concat_right_side_nodes(nodes, k, data);
    assert(id_of(n).index as int == n);
    assert(id_of(n + 1).index as int == n + 1);
    assert forall|i: int| #![trigger m[i]] 0 <= i < m.len() implies {
        &&& (m[i].left matches Some(c) ==> 0 <= c.index < m.len())
        &&& (m[i].right matches Some(c) ==> 0 <= c.index < m.len())
    } by {
        if i < n {
            assert(nodes[i] == nodes[i]);
        } else {
            assert(nodes[k] == nodes[k]);
        }
    }
    if unshared(nodes) {
        assert forall|p: int, q: int, id: NodeId|
            0 <= p < m.len() && 0 <= q < m.len() && p != q && #[trigger] links_to(m[p], id)
                && #[trigger] links_to(m[q], id) implies false by {
            assert(nodes[k] == nodes[k]);
            if p < n {
                assert(nodes[p] == nodes[p]);
            }
            if q < n {
                assert(nodes[q] == nodes[q]);
            }
            if id == id_of(n + 1) {
                assert(p == k && q == k);
            } else if id == id_of(n) {
                assert(p == n + 1 && q == n + 1);
            } else if nodes[k].right == Some(id) {
                assert(links_to(nodes[k], id));
                if p != n + 1 && p != k {
                    assert(links_to(nodes[p], id));
                }
                if q != n + 1 && q != k {
                    assert(links_to(nodes[q], id));
                }
            } else {
                if p < n && q < n {
                    assert(links_to(nodes[p], id) && links_to(nodes[q], id));
                }
            }
        }
        assert forall|p: int| 0 <= p < m.len() && (#[trigger] m[p]).left is Some implies m[p].left != m[p].right by {
            if p < n {
                assert(nodes[p] == nodes[p]);
            }
        }
    }
    assert forall|j: int| reachable(m, k, j) <==> (reachable(nodes, k, j) || j == n || j == n + 1) by {
        if reachable(m, k, j) {
            let f = choose|f: nat| reaches(m, k, j, f);
            lemma_concat_right_side_finds_old(nodes, k, data, k, j, f);
        }
        if reachable(nodes, k, j) {
            let f = choose|f: nat| reaches(nodes, k, j, f);
            lemma_concat_right_side_keeps_paths(nodes, k, data, k, j, f);
        }
        assert(m[k].right == Some(id_of(n + 1)));
        assert(m[n + 1].right == Some(id_of(n)));
        if j == n + 1 {
            assert(reaches(m, n + 1, j, 0));
            assert(reaches(m, k, j, 1));
        }
        if j == n {
            assert(reaches(m, n, j, 0));
            assert(reaches(m, n + 1, j, 1));
            assert(reaches(m, k, j, 2));
        }
    }
}

/// In ranked nodes the descent from node `i` finishes once the fuel reaches the rank of `i`.
pub proof fn lemma_ranked_descend(nodes: Seq<Node<RegexBuildingBlock>>, rank: Seq<int>, i: int, fuel: nat)
    requires
        ranked(nodes, rank),
        0 <= i < nodes.len(),
        rank[i] <= fuel,
    ensures
        descend_within(nodes, i, fuel) is Some,
    decreases fuel,
{
    assert(link_below(nodes, rank, i, nodes[i].left));
    if let Some(r) = nodes[i].right {
        if is_concatenation(nodes[r.index as int]) {
            assert(link_below(nodes, rank, r.index as int, nodes[r.index as int].left));
            lemma_ranked_descend(nodes, rank, r.index as int, (fuel - 1) as nat);
        }
    }
}

/// In an acyclic arena the descent from every node ends.
pub proof fn lemma_acyclic_descend(nodes: Seq<Node<RegexBuildingBlock>>, i: int)
    requires
        acyclic(nodes),
        0 <= i < nodes.len(),
    ensures
        descend_end(nodes, i) is Some,
{
    let rank = choose|r: Seq<int>| ranked(nodes, r);
    assert(ranked(nodes, rank));
    assert(link_below(nodes, rank, i, nodes[i].left));
    lemma_ranked_descend(nodes, rank, i, nodes.len());
}

/// The descent ends at an existing node.
pub proof fn lemma_descend_in_bounds(nodes: Seq<Node<RegexBuildingBlock>>, i: int, fuel: nat)
    requires
        descend_within(nodes, i, fuel) is Some,
    ensures
        0 <= descend_within(nodes, i, fuel)->0 < nodes.len(),
    decreases fuel,
{
    if let Some(r) = nodes[i].right {
        if 0 <= r.index < nodes.len() && is_concatenation(nodes[r.index as int]) && fuel > 0 {
            lemma_descend_in_bounds(nodes, r.index as int, (fuel - 1) as nat);
        }
    }
}

/// [`concat_right_side`] keeps the nodes acyclic.
pub proof fn lemma_concat_right_side_acyclic(nodes: Seq<Node<RegexBuildingBlock>>, k: int, data: RegexBuildingBlock)
    requires
        acyclic(nodes),
        nodes.len() + 2 <= usize::MAX,
        0 <= k < nodes.len(),
    ensures
        acyclic(concat_right_side_nodes(nodes, k, data)),
{
    let rank = choose|r: Seq<int>| ranked(nodes, r);
    assert(ranked(nodes, rank));
    let n = nodes.len() as int;
    let m = concat_right_side_nodes(nodes, k, data);
    assert(link_below(nodes, rank, k, nodes[k].left));
    let r2 = shifted(rank, rank[k], 1, 2).push(0).push(rank[k] + 1);
    assert forall|i: int| #![trigger m[i]] 0 <= i < m.len() implies {
        &&& 0 <= r2[i] < m.len()
        &&& link_below(m, r2, i, m[i].left)
        &&& link_below(m, r2, i, m[i].right)
    } by {
        if i < n {
            assert(link_below(nodes, rank, i, nodes[i].left));
            if let Some(c) = nodes[i].left {
                assert(rank[c.index as int] < rank[i]);
            }
            if let Some(c) = nodes[i].right {
                assert(rank[c.index as int] < rank[i]);
            }
        }
    }
    assert(ranked(m, r2));
}

/// A node found from `i` has its right child found from `i` too, one link further.
proof fn lemma_reaches_right(nodes: Seq<Node<RegexBuildingBlock>>, i: int, j: int, fuel: nat)
    requires
        reaches(nodes, i, j, fuel),
        0 <= j < nodes.len(),
        nodes[j].right is Some,
    ensures
        reaches(nodes, i, nodes[j].right->0.index as int, fuel + 1),
    decreases fuel,
{
    let k = nodes[j].right->0.index as int;
    assert(id_of(k) == nodes[j].right->0);
    if i == j {
        assert(reaches(nodes, k, k, fuel));
    } else if i == k {
    } else {
        if let Some(c) = nodes[i].left {
            if reaches(nodes, c.index as int, j, (fuel - 1) as nat) {
                lemma_reaches_right(nodes, c.index as int, j, (fuel - 1) as nat);
            }
        }
        if let Some(c) = nodes[i].right {
            if reaches(nodes, c.index as int, j, (fuel - 1) as nat) {
                lemma_reaches_right(nodes, c.index as int, j, (fuel - 1) as nat);
            }
        }
    }
}

/// Walks down from `start_node_id` through right children for as long as the right child is a
/// concatenation, and returns the last node reached.
pub fn descend_into_concatenation_right_side(
    arena: &Arena<RegexBuildingBlock>,
    start_node_id: &NodeId,
) -> (end: NodeId)
    requires
        descend_end(arena@, start_node_id.index as int) is Some,
    ensures
        Some(end.index as int) == descend_end(arena@, start_node_id.index as int),
        end.index < arena@.len(),
        reachable(arena@, start_node_id.index as int, end.index as int),
        end == *start_node_id || arena@[end.index as int].data == RegexBuildingBlock::Concatenation,
        match arena@[end.index as int].right {
            Some(r) => !(0 <= r.index < arena@.len() && arena@[r.index as int].data == RegexBuildingBlock::Concatenation),
            None => true,
        },
{
    let mut node_id = *start_node_id;
    let ghost mut fuel: nat = arena@.len();
    let ghost mut steps: nat = 0;
    loop
        invariant
            reaches(arena@, start_node_id.index as int, node_id.index as int, steps),
            descend_within(arena@, node_id.index as int, fuel) == descend_end(arena@, start_node_id.index as int),
            descend_end(arena@, start_node_id.index as int) is Some,
            node_id == *start_node_id || arena@[node_id.index as int].data == RegexBuildingBlock::Concatenation,
        ensures
            descend_end(arena@, start_node_id.index as int) == Some(node_id.index as int),
            node_id == *start_node_id || arena@[node_id.index as int].data == RegexBuildingBlock::Concatenation,
            node_id.index < arena@.len(),
            reachable(arena@, start_node_id.index as int, node_id.index as int),
            match arena@[node_id.index as int].right {
                Some(r) => !(0 <= r.index < arena@.len() && arena@[r.index as int].data == RegexBuildingBlock::Concatenation),
                None => true,
            },
        decreases fuel,
    {
        let node: &Node<RegexBuildingBlock> = &arena.nodes[node_id.index];
        match node.right {
            Some(right_node_id) => {
                let right_child_node: &Node<RegexBuildingBlock> = &arena.nodes[right_node_id.index];
                match right_child_node.data {
                    RegexBuildingBlock::Concatenation => {
                        proof {
                            lemma_reaches_right(arena@, start_node_id.index as int, node_id.index as int, steps);
                            steps = steps + 1;
                        }
                        node_id = right_node_id;
                        proof {
                            fuel = (fuel - 1) as nat;
                        }
                    },
                    _ => {
                        break;
                    },
                }
            },
            None => {
                break;
            },
        }
    }
    node_id
}

/// Puts a concatenation between node `node_id` and its right child, with a new leaf holding
/// `regex_bb` as the concatenation's right child (see [`concat_right_side_nodes`]), and
/// returns the index of that leaf.
pub fn concat_right_side(
    arena: &mut Arena<RegexBuildingBlock>,
    node_id: &NodeId,
    regex_bb: RegexBuildingBlock,
) -> (leaf_index: usize)
    requires
        node_id.index < old(arena)@.len(),
    ensures
        leaf_index == old(arena)@.len(),
        final(arena)@ == concat_right_side_nodes(old(arena)@, node_id.index as int, regex_bb),
        final(arena)@.len() == old(arena)@.len() + 2,
        final(arena)@[node_id.index as int].right is Some,
        final(arena)@[node_id.index as int].right->0.index == old(arena)@.len() + 1,
        final(arena)@[node_id.index as int].left == old(arena)@[node_id.index as int].left,
        final(arena)@[node_id.index as int].data == old(arena)@[node_id.index as int].data,
        final(arena)@[old(arena)@.len() as int].data == regex_bb,
        final(arena)@[old(arena)@.len() as int].left is None,
        final(arena)@[old(arena)@.len() as int].right is None,
        final(arena)@[old(arena)@.len() + 1int].data == RegexBuildingBlock::Concatenation,
        final(arena)@[old(arena)@.len() + 1int].left == old(arena)@[node_id.index as int].right,
        final(arena)@[old(arena)@.len() + 1int].right is Some,
        final(arena)@[old(arena)@.len() + 1int].right->0.index == old(arena)@.len(),
        forall|j: int| 0 <= j < old(arena)@.len() && j != node_id.index ==> #[trigger] final(arena)@[j] == old(arena)@[j],
        acyclic(old(arena)@) ==> acyclic(final(arena)@),
        links_in_bounds(old(arena)@) ==> links_in_bounds(final(arena)@),
        links_in_bounds(old(arena)@) && unshared(old(arena)@) ==> unshared(final(arena)@),
        links_in_bounds(old(arena)@) ==> forall|j: int| reachable(final(arena)@, node_id.index as int, j)
            <==> (reachable(old(arena)@, node_id.index as int, j) || j == old(arena)@.len()
                || j == old(arena)@.len() + 1),
{
    let next_index = arena.nodes.len();
    arena.nodes.push(Node { parent: None, left: None, right: None, data: regex_bb });
    let concat_index = arena.nodes.len();
    arena.nodes.push(
        Node { parent: None, left: None, right: None, data: RegexBuildingBlock::Concatenation },
    );
    let old_right_option = arena.nodes[node_id.index].right;
    arena.nodes[node_id.index].right = Some(NodeId { index: concat_index });
    match old_right_option {
        Some(old_right_node_id) => {
            arena.nodes[concat_index].left = Some(NodeId { index: old_right_node_id.index });
        },
        _ => {},
    }
    arena.nodes[concat_index].right = Some(NodeId { index: next_index });
    proof {
        assert(arena@.len() == arena.nodes.len());
        if acyclic(old(arena)@) {
            lemma_concat_right_side_acyclic(old(arena)@, node_id.index as int, regex_bb);
        }
        if links_in_bounds(old(arena)@) {
            lemma_concat_right_side_shape(old(arena)@, node_id.index as int, regex_bb);
        }
    }
    next_index
}

} // verus!
