use vstd::prelude::*;

use crate::arena::{
    acyclic, id_of, leaf, ranked, with_data, with_left, with_new_right, with_repeat_inserted, with_right, wrap, Node,
    NodeId,
};
use crate::block::RegexBuildingBlock;
use crate::builder::{
    concat_with, infix_to_postfix_spec, initial_state, lemma_initial_wf, lemma_step_keeps_wf, place_concat,
    repeat_of, root, run, step, walk_close, walk_literal, walk_open, walk_repeat, wf, with_nodes, ParseState,
};
use crate::concat::{concat_right_side_nodes, descend_end, descend_within, lemma_descend_in_bounds};
use crate::laws::{opens_twice, parse, parse_char, regex_postfix};
use crate::text::{char_is_alphanumeric, char_is_numeric};

verus! {

/// One where `n` is an opening brace that is not closed yet.
pub open spec fn opens(n: Node<RegexBuildingBlock>) -> int {
    if n.data is OpeningBraces { 1 } else { 0 }
}

/// The number of opening braces in the arena that are not closed yet.
pub open spec fn open_count(nodes: Seq<Node<RegexBuildingBlock>>) -> int
    decreases nodes.len(),
{
    if nodes.len() == 0 { 0 } else { open_count(nodes.drop_last()) + opens(nodes.last()) }
}

/// A link that is absent or points at a node from position `m` on.
pub open spec fn fresh_link(link: Option<NodeId>, m: int) -> bool {
    match link {
        Some(c) => c.index >= m,
        None => true,
    }
}

/// `b` grows out of `a` without touching what a walk could find of the old nodes: only
/// concatenations change their payload, and every right link that changes, and every right
/// link of a new node, points at a node from position `m` on.
pub open spec fn tame(a: Seq<Node<RegexBuildingBlock>>, b: Seq<Node<RegexBuildingBlock>>, m: int) -> bool {
    &&& a.len() <= b.len()
    &&& forall|i: int| #![trigger b[i]] 0 <= i < b.len() ==> {
        &&& (i < a.len() ==> (b[i].data == a[i].data || a[i].data is Concatenation))
        &&& (i < a.len() ==> (b[i].right == a[i].right || fresh_link(b[i].right, m)))
        &&& (i >= a.len() ==> fresh_link(b[i].right, m))
    }
}

proof fn lemma_count_nonneg(nodes: Seq<Node<RegexBuildingBlock>>)
    ensures
        open_count(nodes) >= 0,
    decreases nodes.len(),
{
    if nodes.len() > 0 {
        lemma_count_nonneg(nodes.drop_last());
    }
}

/// An opening brace that is not closed yet is counted.
proof fn lemma_count_holds(nodes: Seq<Node<RegexBuildingBlock>>, i: int)
    requires
        0 <= i < nodes.len(),
        nodes[i].data is OpeningBraces,
    ensures
        open_count(nodes) >= 1,
    decreases nodes.len(),
{
    lemma_count_nonneg(nodes.drop_last());
    if i < nodes.len() - 1 {
        lemma_count_holds(nodes.drop_last(), i);
    }
}

proof fn lemma_count_update(nodes: Seq<Node<RegexBuildingBlock>>, i: int, n: Node<RegexBuildingBlock>)
    requires
        0 <= i < nodes.len(),
    ensures
        open_count(nodes.update(i, n)) == open_count(nodes) - opens(nodes[i]) + opens(n),
    decreases nodes.len(),
{
    if i == nodes.len() - 1 {
        assert(nodes.update(i, n).drop_last() =~= nodes.drop_last());
    } else {
        lemma_count_update(nodes.drop_last(), i, n);
        assert(nodes.update(i, n).drop_last() =~= nodes.drop_last().update(i, n));
    }
}

proof fn lemma_tame_trans(a: Seq<Node<RegexBuildingBlock>>, b: Seq<Node<RegexBuildingBlock>>, c: Seq<Node<RegexBuildingBlock>>, m: int)
    requires
        tame(a, b, m),
        tame(b, c, m),
    ensures
        tame(a, c, m),
{
    assert forall|i: int| 0 <= i < c.len() implies {
        &&& (i < a.len() ==> (#[trigger] c[i].data == a[i].data || a[i].data is Concatenation))
        &&& (i < a.len() ==> (c[i].right == a[i].right || fresh_link(c[i].right, m)))
        &&& (i >= a.len() ==> fresh_link(c[i].right, m))
    } by {
        if i < b.len() {
            assert(b[i] == b[i]);
        }
    }
}

proof fn lemma_push(a: Seq<Node<RegexBuildingBlock>>, d: RegexBuildingBlock, m: int)
    ensures
        tame(a, a.push(leaf(d)), m),
        open_count(a.push(leaf(d))) == open_count(a) + opens(leaf(d)),
{
    assert(a.push(leaf(d)).drop_last() =~= a);
}

proof fn lemma_update(a: Seq<Node<RegexBuildingBlock>>, i: int, n: Node<RegexBuildingBlock>, m: int)
    requires
        0 <= i < a.len(),
        n.data == a[i].data || a[i].data is Concatenation,
        n.right == a[i].right || fresh_link(n.right, m),
    ensures
        tame(a, a.update(i, n), m),
        open_count(a.update(i, n)) == open_count(a) - opens(a[i]) + opens(n),
{
    lemma_count_update(a, i, n);
}

proof fn lemma_with_left(a: Seq<Node<RegexBuildingBlock>>, i: int, link: Option<NodeId>, m: int)
    requires
        0 <= i < a.len(),
    ensures
        tame(a, with_left(a, i, link), m),
        open_count(with_left(a, i, link)) == open_count(a),
        with_left(a, i, link).len() == a.len(),
{
    lemma_update(a, i, Node { parent: a[i].parent, left: link, right: a[i].right, data: a[i].data }, m);
}

proof fn lemma_with_right(a: Seq<Node<RegexBuildingBlock>>, i: int, f: int, m: int)
    requires
        0 <= i < a.len(),
        m <= f <= usize::MAX,
    ensures
        tame(a, with_right(a, i, Some(id_of(f))), m),
        open_count(with_right(a, i, Some(id_of(f)))) == open_count(a),
        with_right(a, i, Some(id_of(f))).len() == a.len(),
{
    lemma_update(a, i, Node { parent: a[i].parent, left: a[i].left, right: Some(id_of(f)), data: a[i].data }, m);
}

proof fn lemma_with_data(a: Seq<Node<RegexBuildingBlock>>, i: int, d: RegexBuildingBlock, m: int)
    requires
        0 <= i < a.len(),
        a[i].data is Concatenation,
    ensures
        tame(a, with_data(a, i, d), m),
        open_count(with_data(a, i, d)) == open_count(a) + opens(leaf(d)),
        with_data(a, i, d).len() == a.len(),
{
    lemma_update(a, i, Node { parent: a[i].parent, left: a[i].left, right: a[i].right, data: d }, m);
}

proof fn lemma_new_right(a: Seq<Node<RegexBuildingBlock>>, p: int, d: RegexBuildingBlock, m: int)
    requires
        0 <= p < a.len(),
        m <= a.len(),
        a.len() + 1 <= usize::MAX,
    ensures
        tame(a, with_new_right(a, p, d), m),
        open_count(with_new_right(a, p, d)) == open_count(a) + opens(leaf(d)),
        with_new_right(a, p, d).len() == a.len() + 1,
        with_new_right(a, p, d)[a.len() as int] == leaf(d),
{
    let b = a.push(leaf(d));
    lemma_push(a, d, m);
    lemma_with_right(b, p, a.len() as int, m);
    lemma_tame_trans(a, b, with_new_right(a, p, d), m);
}

proof fn lemma_wrap(a: Seq<Node<RegexBuildingBlock>>, x: int, d: RegexBuildingBlock, m: int)
    ensures
        tame(a, wrap(a, x, d), m),
        open_count(wrap(a, x, d)) == open_count(a) + opens(leaf(d)),
        wrap(a, x, d).len() == a.len() + 1,
{
    let b = a.push(leaf(d));
    lemma_push(a, d, m);
    lemma_with_left(b, a.len() as int, Some(id_of(x)), m);
    lemma_tame_trans(a, b, wrap(a, x, d), m);
}

proof fn lemma_repeat_inserted(a: Seq<Node<RegexBuildingBlock>>, n: int, d: RegexBuildingBlock, m: int)
    requires
        0 <= n < a.len(),
        m <= a.len(),
        a.len() + 1 <= usize::MAX,
    ensures
        tame(a, with_repeat_inserted(a, n, d), m),
        open_count(with_repeat_inserted(a, n, d)) == open_count(a) + opens(leaf(d)),
        with_repeat_inserted(a, n, d).len() == a.len() + 1,
{
    let fresh = a.len() as int;
    let b = a.push(leaf(d));
    let linked = with_right(b, n, Some(id_of(fresh)));
    lemma_push(a, d, m);
    lemma_with_right(b, n, fresh, m);
    lemma_tame_trans(a, b, linked, m);
    if let Some(old_right) = a[n].right {
        lemma_with_left(linked, fresh, Some(id_of(old_right.index as int)), m);
        lemma_tame_trans(a, linked, with_repeat_inserted(a, n, d), m);
    }
}

proof fn lemma_concat_right_side(a: Seq<Node<RegexBuildingBlock>>, n: int, d: RegexBuildingBlock, m: int)
    requires
        0 <= n < a.len(),
        m <= a.len(),
        a.len() + 2 <= usize::MAX,
    ensures
        tame(a, concat_right_side_nodes(a, n, d), m),
        open_count(concat_right_side_nodes(a, n, d)) == open_count(a) + opens(leaf(d)),
        concat_right_side_nodes(a, n, d).len() == a.len() + 2,
        concat_right_side_nodes(a, n, d)[a.len() as int] == leaf(d),
{
    let fresh = a.len() as int;
    let concat = fresh + 1;
    let b = a.push(leaf(d));
    let pushed = b.push(leaf(RegexBuildingBlock::Concatenation));
    let linked = with_right(pushed, n, Some(id_of(concat)));
    lemma_push(a, d, m);
    lemma_push(b, RegexBuildingBlock::Concatenation, m);
    lemma_tame_trans(a, b, pushed, m);
    lemma_with_right(pushed, n, concat, m);
    lemma_tame_trans(a, pushed, linked, m);
    let adopted = match a[n].right {
        Some(old_right) => with_left(linked, concat, Some(id_of(old_right.index as int))),
        None => linked,
    };
    if let Some(old_right) = a[n].right {
        lemma_with_left(linked, concat, Some(id_of(old_right.index as int)), m);
        lemma_tame_trans(a, linked, adopted, m);
    }
    lemma_with_right(adopted, concat, fresh, m);
    lemma_tame_trans(a, adopted, concat_right_side_nodes(a, n, d), m);
}

/// The end of a chain of concatenations is a concatenation.
proof fn lemma_descend_concat(nodes: Seq<Node<RegexBuildingBlock>>, i: int, fuel: nat)
    requires
        descend_within(nodes, i, fuel) is Some,
        nodes[i].data is Concatenation,
    ensures
        nodes[descend_within(nodes, i, fuel)->0].data is Concatenation,
    decreases fuel,
{
    if let Some(r) = nodes[i].right {
        if 0 <= r.index < nodes.len() && nodes[r.index as int].data == RegexBuildingBlock::Concatenation && fuel > 0 {
            lemma_descend_concat(nodes, r.index as int, (fuel - 1) as nat);
        }
    }
}

/// The roots of `t` are those of `s`, or nodes from position `s.nodes.len()` on.
pub open spec fn fresh_roots(s: ParseState, t: ParseState) -> bool {
    &&& t.stack.len() == s.stack.len()
    &&& forall|j: int| 0 <= j < t.stack.len() ==> (#[trigger] t.stack[j] == s.stack[j] || t.stack[j].index >= s.nodes.len())
}

/// Whether `link` points at node `x`.
pub open spec fn points_at(link: Option<NodeId>, x: int) -> bool {
    match link {
        Some(c) => c.index == x,
        None => false,
    }
}

/// Node `x` is an opening brace that no walk of the construction can reach any more: it is no
/// root, and only braces have it as right child. It stays open for good.
pub open spec fn buried(s: ParseState, x: int) -> bool {
    &&& 0 <= x < s.nodes.len()
    &&& s.nodes[x].data is OpeningBraces
    &&& forall|j: int| 0 <= j < s.stack.len() ==> (#[trigger] s.stack[j]).index != x
    &&& forall|q: int| 0 <= q < s.nodes.len() && points_at((#[trigger] s.nodes[q]).right, x)
        ==> (s.nodes[q].data is OpeningBraces || s.nodes[q].data is ClosedBraces)
}

proof fn lemma_roots_same(s: ParseState, t: ParseState)
    requires
        t.stack == s.stack,
    ensures
        fresh_roots(s, t),
{
}

proof fn lemma_roots_update(s: ParseState, u: ParseState, t: ParseState, i: int, f: int)
    requires
        fresh_roots(s, u),
        0 <= i < u.stack.len(),
        t.stack == u.stack.update(i, id_of(f)),
        s.nodes.len() <= f <= usize::MAX,
    ensures
        fresh_roots(s, t),
{
    assert forall|j: int| 0 <= j < t.stack.len() implies (#[trigger] t.stack[j] == s.stack[j] || t.stack[j].index >= s.nodes.len()) by {
        if j != i {
            assert(u.stack[j] == u.stack[j]);
        }
    }
}

proof fn lemma_tame_buried(s: ParseState, t: ParseState, x: int)
    requires
        buried(s, x),
        tame(s.nodes, t.nodes, s.nodes.len() as int),
        fresh_roots(s, t),
    ensures
        buried(t, x),
{
    assert(t.nodes[x] == t.nodes[x]);
    assert forall|j: int| 0 <= j < t.stack.len() implies (#[trigger] t.stack[j]).index != x by {
        assert(s.stack[j] == s.stack[j]);
    }
    assert forall|q: int| 0 <= q < t.nodes.len() && points_at((#[trigger] t.nodes[q]).right, x)
        implies (t.nodes[q].data is OpeningBraces || t.nodes[q].data is ClosedBraces) by {
        if q < s.nodes.len() {
            assert(s.nodes[q] == s.nodes[q]);
        }
    }
}

proof fn lemma_place_concat(s: ParseState, nodes: Seq<Node<RegexBuildingBlock>>, concat: int, last: NodeId, as_root: bool, as_left: bool)
    requires
        0 <= s.root_index < s.stack.len(),
        tame(s.nodes, nodes, s.nodes.len() as int),
        concat == s.nodes.len(),
        concat <= usize::MAX,
        0 <= last.index < s.nodes.len(),
    ensures
        tame(s.nodes, place_concat(s, nodes, concat, last, as_root, as_left).nodes, s.nodes.len() as int),
        open_count(place_concat(s, nodes, concat, last, as_root, as_left).nodes) == open_count(nodes),
        fresh_roots(s, place_concat(s, nodes, concat, last, as_root, as_left)),
        place_concat(s, nodes, concat, last, as_root, as_left).root_index == s.root_index,
        place_concat(s, nodes, concat, last, as_root, as_left).nodes.len() == nodes.len(),
        forall|i: int| 0 <= i < nodes.len() && i != last.index ==> #[trigger] place_concat(s, nodes, concat, last, as_root, as_left).nodes[i] == nodes[i],
{
    let m = s.nodes.len() as int;
    let t = place_concat(s, nodes, concat, last, as_root, as_left);
    if as_root {
        lemma_roots_same(s, s);
        lemma_roots_update(s, s, t, s.root_index, concat);
    } else if as_left {
        lemma_roots_same(s, t);
        lemma_with_left(nodes, last.index as int, Some(id_of(concat)), m);
        lemma_tame_trans(s.nodes, nodes, t.nodes, m);
    } else {
        lemma_roots_same(s, t);
        lemma_with_right(nodes, last.index as int, concat, m);
        lemma_tame_trans(s.nodes, nodes, t.nodes, m);
    }
}

/// Placing an opening brace adds one, and leaves the rest of the tree tame.
proof fn lemma_walk_open_count(s: ParseState, node: NodeId, last: NodeId, upd: bool, fuel: nat)
    requires
        0 <= s.root_index < s.stack.len(),
        s.nodes.len() + 2 <= usize::MAX,
        0 <= last.index < s.nodes.len(),
        walk_open(s, node, last, upd, fuel) is Some,
    ensures
        tame(s.nodes, walk_open(s, node, last, upd, fuel)->0.nodes, s.nodes.len() as int),
        fresh_roots(s, walk_open(s, node, last, upd, fuel)->0),
        open_count(walk_open(s, node, last, upd, fuel)->0.nodes) == open_count(s.nodes) + 1,
    decreases fuel,
{
    let nodes = s.nodes;
    let n = node.index as int;
    let m = nodes.len() as int;
    let ob = RegexBuildingBlock::OpeningBraces;
    let t = walk_open(s, node, last, upd, fuel)->0;
    match nodes[n].data {
        RegexBuildingBlock::OpeningBraces => match nodes[n].right {
            Some(r) => {
                lemma_walk_open_count(s, r, node, false, (fuel - 1) as nat);
            },
            None => {
                lemma_new_right(nodes, n, ob, m);
                lemma_roots_same(s, t);
            },
        },
        RegexBuildingBlock::ClosedBraces if !upd => {
            lemma_concat_right_side(nodes, last.index as int, ob, m);
            lemma_roots_same(s, s);
            lemma_roots_update(s, s, t, s.root_index + 1, m);
        },
        RegexBuildingBlock::Or => match nodes[n].right {
            Some(r) => {
                let s2 = ParseState { left: false, ..s };
                lemma_walk_open_count(s2, r, node, false, (fuel - 1) as nat);
            },
            None => {
                lemma_new_right(nodes, n, ob, m);
                lemma_roots_same(s, s);
                lemma_roots_update(s, s, t, s.root_index + 1, m);
            },
        },
        _ => {
            let w = wrap(nodes, n, RegexBuildingBlock::Concatenation);
            lemma_wrap(nodes, n, RegexBuildingBlock::Concatenation, m);
            lemma_new_right(w, m, ob, m);
            lemma_tame_trans(nodes, w, concat_with(nodes, n, ob), m);
            let p = place_concat(s, concat_with(nodes, n, ob), m, last, upd, false);
            lemma_place_concat(s, concat_with(nodes, n, ob), m, last, upd, false);
            lemma_roots_update(s, p, t, s.root_index + 1, m + 1);
        },
    }
}

/// Placing a repeat neither opens nor closes a brace, and leaves the tree tame.
proof fn lemma_walk_repeat_count(s: ParseState, rep: RegexBuildingBlock, top: NodeId, node: NodeId, last: NodeId, upd: bool, fuel: nat)
    requires
        0 <= s.root_index < s.stack.len(),
        s.nodes.len() + 2 <= usize::MAX,
        0 <= last.index < s.nodes.len(),
        !(rep is OpeningBraces),
        walk_repeat(s, rep, top, node, last, upd, fuel) is Some,
    ensures
        tame(s.nodes, walk_repeat(s, rep, top, node, last, upd, fuel)->0.nodes, s.nodes.len() as int),
        fresh_roots(s, walk_repeat(s, rep, top, node, last, upd, fuel)->0),
        open_count(walk_repeat(s, rep, top, node, last, upd, fuel)->0.nodes) == open_count(s.nodes),
    decreases fuel,
{
    let nodes = s.nodes;
    let n = node.index as int;
    let m = nodes.len() as int;
    match nodes[n].data {
        RegexBuildingBlock::Concatenation => {
            let d = descend_end(nodes, n)->0;
            lemma_descend_in_bounds(nodes, n, nodes.len());
            lemma_descend_concat(nodes, n, nodes.len());
            let t = walk_repeat(s, rep, top, node, last, upd, fuel)->0;
            lemma_roots_same(s, s);
            if d == top.index {
                let changed = with_data(nodes, d, rep);
                lemma_with_data(nodes, d, rep, m);
                lemma_wrap(changed, d, RegexBuildingBlock::Concatenation, m);
                lemma_tame_trans(nodes, changed, wrap(changed, d, RegexBuildingBlock::Concatenation), m);
                if upd {
                    lemma_roots_update(s, s, t, s.root_index, m);
                } else {
                    lemma_roots_same(s, t);
                }
            } else {
                lemma_repeat_inserted(nodes, d, rep, m);
                lemma_roots_same(s, t);
            }
        },
        RegexBuildingBlock::OpeningBraces => {
            let r = nodes[n].right->0;
            lemma_walk_repeat_count(s, rep, top, r, node, false, (fuel - 1) as nat);
        },
        RegexBuildingBlock::Or => {
            let r = nodes[n].right->0;
            lemma_walk_repeat_count(ParseState { left: false, ..s }, rep, top, r, node, false, (fuel - 1) as nat);
        },
        _ => {
            let t = walk_repeat(s, rep, top, node, last, upd, fuel)->0;
            lemma_roots_same(s, s);
            if n == top.index {
                lemma_wrap(nodes, n, rep, m);
                if upd {
                    lemma_roots_update(s, s, t, s.root_index, m);
                } else {
                    lemma_roots_same(s, t);
                }
            } else {
                lemma_repeat_inserted(nodes, last.index as int, rep, m);
                lemma_roots_same(s, t);
            }
        },
    }
}

/// Placing a literal neither opens nor closes a brace, and leaves the tree tame.
proof fn lemma_walk_literal_count(s: ParseState, lit: RegexBuildingBlock, top: NodeId, node: NodeId, last: NodeId, upd: bool, fuel: nat)
    requires
        0 <= s.root_index < s.stack.len(),
        s.nodes.len() + 2 <= usize::MAX,
        0 <= last.index < s.nodes.len(),
        !(lit is OpeningBraces),
        walk_literal(s, lit, top, node, last, upd, fuel) is Some,
    ensures
        tame(s.nodes, walk_literal(s, lit, top, node, last, upd, fuel)->0.nodes, s.nodes.len() as int),
        fresh_roots(s, walk_literal(s, lit, top, node, last, upd, fuel)->0),
        open_count(walk_literal(s, lit, top, node, last, upd, fuel)->0.nodes) == open_count(s.nodes),
    decreases fuel,
{
    let nodes = s.nodes;
    let n = node.index as int;
    let m = nodes.len() as int;
    match nodes[n].data {
        RegexBuildingBlock::OpeningBraces | RegexBuildingBlock::Or => match nodes[n].right {
            Some(r) => {
                lemma_walk_literal_count(ParseState { left: false, ..s }, lit, top, r, node, false, (fuel - 1) as nat);
            },
            None => {
                lemma_new_right(nodes, n, lit, m);
                lemma_roots_same(s, walk_literal(s, lit, top, node, last, upd, fuel)->0);
            },
        },
        _ => {
            let w = wrap(nodes, n, RegexBuildingBlock::Concatenation);
            lemma_wrap(nodes, n, RegexBuildingBlock::Concatenation, m);
            lemma_new_right(w, m, lit, m);
            lemma_tame_trans(nodes, w, concat_with(nodes, n, lit), m);
            lemma_place_concat(s, concat_with(nodes, n, lit), m, last, upd, false);
            lemma_place_concat(s, concat_with(nodes, n, lit), m, last, upd, s.left);
            lemma_place_concat(s, concat_with(nodes, n, lit), m, last, n == top.index, false);
        },
    }
}

/// Closing a brace closes one, and keeps every buried brace other than the node it starts from
/// buried.
proof fn lemma_walk_close_count(s: ParseState, node: NodeId, fuel: nat, x: int)
    requires
        walk_close(s, node, fuel) is Some,
    ensures
        open_count(walk_close(s, node, fuel)->0.nodes) == open_count(s.nodes) - 1,
        walk_close(s, node, fuel)->0.stack == s.stack,
        buried(s, x) && node.index != x ==> buried(walk_close(s, node, fuel)->0, x),
    decreases fuel,
{
    let nodes = s.nodes;
    let n = node.index as int;
    match nodes[n].data {
        RegexBuildingBlock::OpeningBraces => {
            let t = walk_close(s, node, fuel)->0;
            lemma_count_update(nodes, n, Node { parent: nodes[n].parent, left: nodes[n].left, right: nodes[n].right, data: RegexBuildingBlock::ClosedBraces });
            if buried(s, x) && n != x {
                assert(t.nodes[x] == nodes[x]);
                assert forall|q: int| 0 <= q < t.nodes.len() && points_at((#[trigger] t.nodes[q]).right, x)
                    implies (t.nodes[q].data is OpeningBraces || t.nodes[q].data is ClosedBraces) by {
                    if q != n {
                        assert(t.nodes[q] == nodes[q]);
                    }
                }
            }
        },
        _ => {
            let r = nodes[n].right->0;
            if buried(s, x) && n != x && r.index == x {
                assert(points_at(nodes[n].right, x));
            }
            lemma_walk_close_count(s, r, (fuel - 1) as nat, x);
        },
    }
}

proof fn lemma_concat_with(a: Seq<Node<RegexBuildingBlock>>, x: int, d: RegexBuildingBlock, m: int)
    requires
        m <= a.len(),
        a.len() + 2 <= usize::MAX,
    ensures
        tame(a, concat_with(a, x, d), m),
        open_count(concat_with(a, x, d)) == open_count(a) + opens(leaf(d)),
        concat_with(a, x, d).len() == a.len() + 2,
        concat_with(a, x, d)[a.len() + 1int] == leaf(d),
{
    let w = wrap(a, x, RegexBuildingBlock::Concatenation);
    lemma_wrap(a, x, RegexBuildingBlock::Concatenation, m);
    lemma_new_right(w, a.len() as int, d, m);
    lemma_tame_trans(a, w, concat_with(a, x, d), m);
}

/// What `(` and `)` add to the number of open braces.
pub open spec fn brace_step(c: char) -> int {
    if c == '(' { 1 } else if c == ')' { -1 } else { 0 }
}

/// The number of `(` in `input` less the number of `)`.
pub open spec fn depth(input: Seq<char>) -> int
    decreases input.len(),
{
    if input.len() == 0 { 0 } else { brace_step(input[0]) + depth(input.drop_first()) }
}

/// One character read by the construction opens or closes as many braces as it is `(` or `)`,
/// and keeps every buried brace buried.
proof fn lemma_step_count(s: ParseState, c: char, an: bool, nu: bool, x: int)
    requires
        wf(s),
        s.nodes.len() + 2 <= usize::MAX,
        step(s, c, an, nu) is Some,
    ensures
        open_count(step(s, c, an, nu)->0.nodes) == open_count(s.nodes) + brace_step(c),
        buried(s, x) ==> buried(step(s, c, an, nu)->0, x),
{
    let t = step(s, c, an, nu)->0;
    let nodes = s.nodes;
    let m = nodes.len() as int;
    let r = root(s).index as int;
    assert(s.stack[s.root_index] == s.stack[s.root_index]);
    lemma_roots_same(s, s);
    if c == ')' {
        lemma_walk_close_count(s, root(s), nodes.len(), x);
    } else {
        if c == '+' || c == '*' || c == '?' {
            lemma_walk_repeat_count(s, repeat_of(c), root(s), root(s), root(s), true, nodes.len());
        } else if c == '{' || c == '-' || c == '[' {
            lemma_roots_same(s, t);
        } else if c == '}' {
            if nodes.len() == 0 {
                let any = nodes.push(leaf(t.nodes[0].data));
                lemma_push(nodes, t.nodes[0].data, m);
                assert(t.nodes =~= any);
                lemma_roots_same(s, t);
            } else if nodes[r].data is Concatenation {
                let d = t.nodes[r].data;
                let changed = with_data(nodes, r, d);
                lemma_with_data(nodes, r, d, m);
                lemma_wrap(changed, r, RegexBuildingBlock::Concatenation, m);
                lemma_tame_trans(nodes, changed, wrap(changed, r, RegexBuildingBlock::Concatenation), m);
                assert(t.nodes == wrap(changed, r, RegexBuildingBlock::Concatenation));
                lemma_roots_update(s, s, t, s.root_index, m);
            } else {
                let d = t.nodes[m].data;
                lemma_wrap(nodes, r, d, m);
                assert(t.nodes == wrap(nodes, r, d));
                lemma_roots_update(s, s, t, s.root_index, m);
            }
        } else if c == ']' {
            let class = t.nodes[if nodes.len() == 0 { 0 } else { m + 1 }].data;
            if nodes.len() == 0 {
                lemma_push(nodes, class, m);
                assert(t.nodes == nodes.push(leaf(class)));
                lemma_roots_same(s, t);
            } else {
                lemma_concat_with(nodes, r, class, m);
                assert(t.nodes == concat_with(nodes, r, class));
                lemma_roots_update(s, s, t, s.root_index, m);
            }
        } else if c == '(' {
            if nodes.len() == 0 {
                lemma_push(nodes, RegexBuildingBlock::OpeningBraces, m);
                lemma_roots_update(s, s, t, s.root_index, 0);
            } else {
                lemma_walk_open_count(s, root(s), root(s), true, nodes.len());
            }
        } else if c == '|' {
            lemma_wrap(nodes, r, RegexBuildingBlock::Or, m);
            lemma_roots_update(s, s, t, s.root_index, m);
        } else if s.class_mode || s.repeat_mode {
            lemma_roots_same(s, t);
        } else if nodes.len() == 0 {
            lemma_push(nodes, RegexBuildingBlock::CharacterLiteral(c), m);
            lemma_roots_same(s, t);
        } else {
            lemma_walk_literal_count(s, RegexBuildingBlock::CharacterLiteral(c), root(s), root(s), root(s), true, nodes.len());
        }
        if buried(s, x) {
            lemma_tame_buried(s, t, x);
        }
    }
}

/// Some brace of `s` is buried.
pub open spec fn has_buried(s: ParseState) -> bool {
    exists|x: int| buried(s, x)
}

/// The current root of `s` is an opening brace with nothing to its right.
pub open spec fn fresh_open_root(s: ParseState) -> bool {
    &&& 0 <= root(s).index < s.nodes.len()
    &&& s.nodes[root(s).index as int].data is OpeningBraces
    &&& s.nodes[root(s).index as int].right is None
}

proof fn lemma_links_inside(nodes: Seq<Node<RegexBuildingBlock>>)
    requires
        acyclic(nodes),
    ensures
        forall|q: int| 0 <= q < nodes.len() ==> !points_at(#[trigger] nodes[q].right, nodes.len() as int),
{
    let rank = choose|rank: Seq<int>| ranked(nodes, rank);
    assert forall|q: int| 0 <= q < nodes.len() implies !points_at(#[trigger] nodes[q].right, nodes.len() as int) by {
        assert(nodes[q] == nodes[q]);
    }
}

/// An opening brace put to the right of an open brace with nothing to its right is buried.
proof fn lemma_new_brace_buried(s: ParseState, n: int)
    requires
        wf(s),
        0 <= n < s.nodes.len(),
        s.nodes.len() + 1 <= usize::MAX,
        s.nodes[n].data is OpeningBraces,
    ensures
        buried(with_nodes(s, with_new_right(s.nodes, n, RegexBuildingBlock::OpeningBraces)), s.nodes.len() as int),
{
    let nodes = s.nodes;
    let m = nodes.len() as int;
    let t = with_nodes(s, with_new_right(nodes, n, RegexBuildingBlock::OpeningBraces));
    lemma_new_right(nodes, n, RegexBuildingBlock::OpeningBraces, m);
    lemma_links_inside(nodes);
    assert forall|j: int| 0 <= j < t.stack.len() implies (#[trigger] t.stack[j]).index != m by {
        assert(s.stack[j] == s.stack[j]);
    }
    assert forall|q: int| 0 <= q < t.nodes.len() && points_at((#[trigger] t.nodes[q]).right, m)
        implies (t.nodes[q].data is OpeningBraces || t.nodes[q].data is ClosedBraces) by {
        if q < m && q != n {
            assert(t.nodes[q] == nodes[q]);
        }
    }
}

/// After a brace is placed, some brace is buried, or the new brace is the root, open and with
/// nothing to its right.
proof fn lemma_walk_open_result(s: ParseState, node: NodeId, last: NodeId, upd: bool, fuel: nat)
    requires
        wf(s),
        s.nodes.len() + 2 <= usize::MAX,
        0 <= last.index < s.nodes.len(),
        walk_open(s, node, last, upd, fuel) is Some,
    ensures
        has_buried(walk_open(s, node, last, upd, fuel)->0) || fresh_open_root(walk_open(s, node, last, upd, fuel)->0),
    decreases fuel,
{
    let nodes = s.nodes;
    let n = node.index as int;
    let m = nodes.len() as int;
    let ob = RegexBuildingBlock::OpeningBraces;
    let t = walk_open(s, node, last, upd, fuel)->0;
    match nodes[n].data {
        RegexBuildingBlock::OpeningBraces => match nodes[n].right {
            Some(r) => {
                lemma_walk_open_result(s, r, node, false, (fuel - 1) as nat);
            },
            None => {
                lemma_new_brace_buried(s, n);
            },
        },
        RegexBuildingBlock::ClosedBraces if !upd => {
            lemma_concat_right_side(nodes, last.index as int, ob, m);
        },
        RegexBuildingBlock::Or => match nodes[n].right {
            Some(r) => {
                lemma_walk_open_result(ParseState { left: false, ..s }, r, node, false, (fuel - 1) as nat);
            },
            None => {
                lemma_new_right(nodes, n, ob, m);
            },
        },
        _ => {
            lemma_concat_with(nodes, n, ob, m);
            lemma_place_concat(s, concat_with(nodes, n, ob), m, last, upd, false);
            let p = place_concat(s, concat_with(nodes, n, ob), m, last, upd, false);
            assert(p.nodes[m + 1] == concat_with(nodes, n, ob)[m + 1]);
        },
    }
}

/// Two opening braces in a row bury one.
proof fn lemma_open_open(s: ParseState, an: bool, nu: bool, an2: bool, nu2: bool)
    requires
        wf(s),
        s.nodes.len() + 4 <= usize::MAX,
        step(s, '(', an, nu) is Some,
        step(step(s, '(', an, nu)->0, '(', an2, nu2) is Some,
    ensures
        has_buried(step(step(s, '(', an, nu)->0, '(', an2, nu2)->0),
{
    let s2 = step(s, '(', an, nu)->0;
    let s3 = step(s2, '(', an2, nu2)->0;
    lemma_step_keeps_wf(s, '(', an, nu);
    if s.nodes.len() == 0 {
        assert(s2.nodes[0] == leaf(RegexBuildingBlock::OpeningBraces));
        assert(fresh_open_root(s2));
    } else {
        assert(s.stack[s.root_index] == s.stack[s.root_index]);
        lemma_walk_open_result(s, root(s), root(s), true, s.nodes.len());
    }
    if has_buried(s2) {
        let x = choose|x: int| buried(s2, x);
        lemma_step_count(s2, '(', an2, nu2, x);
    } else {
        let r = root(s2).index as int;
        lemma_new_brace_buried(s2, r);
        assert(buried(s3, s2.nodes.len() as int));
    }
}

/// A run of the construction opens and closes braces as the input does, and keeps buried
/// braces buried.
proof fn lemma_run_count(s: ParseState, input: Seq<char>, x: int)
    requires
        wf(s),
        s.nodes.len() + 2 * input.len() <= usize::MAX,
        run(s, input) is Some,
    ensures
        open_count(run(s, input)->0.nodes) == open_count(s.nodes) + depth(input),
        buried(s, x) ==> buried(run(s, input)->0, x),
    decreases input.len(),
{
    if input.len() > 0 {
        let c = input[0];
        let an = char_is_alphanumeric(c);
        let nu = char_is_numeric(c);
        lemma_step_count(s, c, an, nu, x);
        lemma_step_keeps_wf(s, c, an, nu);
        lemma_run_count(step(s, c, an, nu)->0, input.drop_first(), x);
    }
}

/// Where `(` follows `(` at position `i` and the run goes through, a brace is buried at its end.
proof fn lemma_run_buries(s: ParseState, input: Seq<char>, i: int)
    requires
        wf(s),
        s.nodes.len() + 2 * input.len() <= usize::MAX,
        run(s, input) is Some,
        0 <= i,
        i + 1 < input.len(),
        input[i] == '(',
        input[i + 1] == '(',
    ensures
        has_buried(run(s, input)->0),
    decreases i,
{
    let c = input[0];
    let an = char_is_alphanumeric(c);
    let nu = char_is_numeric(c);
    let s2 = step(s, c, an, nu)->0;
    lemma_step_keeps_wf(s, c, an, nu);
    if i > 0 {
        lemma_run_buries(s2, input.drop_first(), i - 1);
    } else {
        let rest = input.drop_first();
        let c2 = rest[0];
        let an2 = char_is_alphanumeric(c2);
        let nu2 = char_is_numeric(c2);
        let s3 = step(s2, c2, an2, nu2)->0;
        lemma_step_keeps_wf(s2, c2, an2, nu2);
        lemma_open_open(s, an, nu, an2, nu2);
        let x = choose|x: int| buried(s3, x);
        lemma_run_count(s3, rest.drop_first(), x);
    }
}

proof fn lemma_depth_last(input: Seq<char>)
    requires
        input.len() > 0,
    ensures
        depth(input) == depth(input.drop_last()) + brace_step(input.last()),
    decreases input.len(),
{
    if input.len() > 1 {
        let a = input.drop_first();
        let b = input.drop_last();
        lemma_depth_last(a);
        assert(a.drop_last() =~= b.drop_first());
        assert(a.last() == input.last());
        assert(b[0] == input[0]);
        assert(depth(input) == brace_step(input[0]) + depth(a));
        assert(depth(b) == brace_step(b[0]) + depth(b.drop_first()));
    } else {
        assert(input.drop_last().len() == 0);
        assert(input.drop_first().len() == 0);
        assert(depth(input.drop_last()) == 0);
        assert(depth(input.drop_first()) == 0);
        assert(input.last() == input[0]);
        assert(depth(input) == brace_step(input[0]) + depth(input.drop_first()));
    }
}

/// The grammar keeps one reading for each open group and one for the whole expression.
proof fn lemma_parse_depth(input: Seq<char>)
    requires
        parse(input) is Some,
    ensures
        parse(input)->0.frames.len() == 1 + depth(input),
        parse(input)->0.frames.len() >= 1,
    decreases input.len(),
{
    if input.len() > 0 {
        lemma_parse_depth(input.drop_last());
        lemma_depth_last(input);
        let p = parse(input.drop_last())->0;
        let c = input.last();
        assert(parse_char(p, c)->0.frames.len() == p.frames.len() + brace_step(c));
    }
}

/// Where `(` directly follows `(` in an expression of the grammar, the construction does not
/// go through: the inner brace ends up below the outer one when that one is closed, where no
/// later `)` can reach it, so it stays open while the expression closes every group it opens.
pub proof fn lemma_opens_twice_refused(input: Seq<char>)
    requires
        2 * input.len() <= usize::MAX,
        opens_twice(input),
        regex_postfix(input) is Some,
    ensures
        infix_to_postfix_spec(input) is None,
{
    if run(initial_state(), input) is Some {
        let i = choose|i: int| 0 <= i < input.len() - 1 && input[i] == '(' && #[trigger] input[i + 1] == '(';
        let t = run(initial_state(), input)->0;
        lemma_initial_wf();
        lemma_run_buries(initial_state(), input, i);
        let x = choose|x: int| buried(t, x);
        lemma_run_count(initial_state(), input, x);
        lemma_count_holds(t.nodes, x);
        assert(open_count(initial_state().nodes) == 0);
        lemma_parse_depth(input);
    }
}

} // verus!
