use vstd::prelude::*;

use crate::arena::{
    acyclic, id_of, leaf, lemma_acyclic_postfix, lemma_arena_len, lemma_id_of_index, lemma_new_right_acyclic,
    lemma_push_leaf_acyclic, lemma_repeat_inserted_acyclic, lemma_splice_pair_acyclic, lemma_with_data_acyclic,
    lemma_wrap_acyclic, link_below, postfix_of, ranked, recurse_postfix, with_data, with_left, with_new_right,
    with_repeat_inserted, with_right, wrap, Arena, Node, NodeId,
};
use crate::block::RegexBuildingBlock;
use crate::concat::{
    concat_right_side, concat_right_side_nodes, descend_end, descend_into_concatenation_right_side,
    lemma_acyclic_descend, lemma_concat_right_side_acyclic, lemma_descend_in_bounds,
};
use crate::text::{char_is_alphanumeric, char_is_numeric, is_alphanumeric, is_ascii_alphanumeric, is_numeric};

verus! {

broadcast use {lemma_id_of_index, lemma_arena_len};

/// Number of entries of the stack of roots: one for the whole expression and one for each
/// level of open braces.
pub const ROOT_STACK_SIZE: usize = 7;

/// The state of the tree construction between two characters of the infix input.
pub struct ParseState {
    /// The arena's nodes.
    pub nodes: Seq<Node<RegexBuildingBlock>>,
    /// The stack of roots; the entry at `root_index` is the root new blocks are attached to.
    pub stack: Seq<NodeId>,
    pub root_index: int,
    /// Inside `[...]`.
    pub class_mode: bool,
    /// Inside `{...}`.
    pub repeat_mode: bool,
    /// The characters collected inside `[...]` or `{...}`.
    pub start: Option<char>,
    pub end: Option<char>,
    /// Cleared once a walk has gone down through an alternative, or through an opening brace
    /// while placing a literal.
    pub left: bool,
}

/// The state before the first character.
pub open spec fn initial_state() -> ParseState {
    ParseState {
        nodes: Seq::empty(),
        stack: Seq::new(ROOT_STACK_SIZE as nat, |i: int| id_of(0)),
        root_index: 0,
        class_mode: false,
        repeat_mode: false,
        start: None,
        end: None,
        left: true,
    }
}

/// The current root.
pub open spec fn root(s: ParseState) -> NodeId {
    s.stack[s.root_index]
}

pub open spec fn with_nodes(s: ParseState, nodes: Seq<Node<RegexBuildingBlock>>) -> ParseState {
    ParseState { nodes: nodes, ..s }
}

/// The current root replaced by `id`.
pub open spec fn with_root(s: ParseState, id: NodeId) -> ParseState {
    ParseState { stack: s.stack.update(s.root_index, id), ..s }
}

/// One level deeper in the stack of roots, with `id` as root; `None` when the stack is full.
pub open spec fn push_root(s: ParseState, id: NodeId) -> Option<ParseState> {
    if s.root_index + 1 < s.stack.len() {
        Some(ParseState { root_index: s.root_index + 1, stack: s.stack.update(s.root_index + 1, id), ..s })
    } else {
        None
    }
}

/// A new concatenation appended with node `x` as its left child and a new leaf holding `data`
/// as its right child. The concatenation's index is the old number of nodes.
pub open spec fn concat_with(nodes: Seq<Node<RegexBuildingBlock>>, x: int, data: RegexBuildingBlock) -> Seq<Node<RegexBuildingBlock>> {
    with_new_right(wrap(nodes, x, RegexBuildingBlock::Concatenation), nodes.len() as int, data)
}

/// The concatenation just built by [`concat_with`] placed in the tree: as the new root, or as
/// the left or right child of node `last`.
pub open spec fn place_concat(s: ParseState, nodes: Seq<Node<RegexBuildingBlock>>, concat: int, last: NodeId, as_root: bool, as_left: bool) -> ParseState {
    if as_root {
        with_root(with_nodes(s, nodes), id_of(concat))
    } else if as_left {
        with_nodes(s, with_left(nodes, last.index as int, Some(id_of(concat))))
    } else {
        with_nodes(s, with_right(nodes, last.index as int, Some(id_of(concat))))
    }
}

/// The repeat that `+`, `*` and `?` stand for.
pub open spec fn repeat_of(c: char) -> RegexBuildingBlock {
    if c == '+' {
        RegexBuildingBlock::Repeat(1, u8::MAX)
    } else if c == '?' {
        RegexBuildingBlock::Repeat(0, 1)
    } else {
        RegexBuildingBlock::Repeat(0, u8::MAX)
    }
}

/// Placing a repeat: the walk from the root down through opening braces and alternatives.
/// `None` where the construction panics or the walk would not end.
pub open spec fn walk_repeat(s: ParseState, rep: RegexBuildingBlock, top: NodeId, node: NodeId, last: NodeId, upd: bool, fuel: nat) -> Option<ParseState>
    decreases fuel,
{
    let nodes = s.nodes;
    let n = node.index as int;
    if !(0 <= n < nodes.len()) {
        None
    } else {
        match nodes[n].data {
            RegexBuildingBlock::Concatenation => match descend_end(nodes, n) {
                None => None,
                Some(d) => {
                    if d == top.index {
                        let changed = with_data(nodes, d, rep);
                        let t = with_nodes(s, wrap(changed, d, RegexBuildingBlock::Concatenation));
                        Some(if upd { with_root(t, id_of(nodes.len() as int)) } else { t })
                    } else {
                        Some(with_nodes(s, with_repeat_inserted(nodes, d, rep)))
                    }
                },
            },
            RegexBuildingBlock::OpeningBraces => match nodes[n].right {
                Some(r) => if fuel == 0 { None } else { walk_repeat(s, rep, top, r, node, false, (fuel - 1) as nat) },
                None => None,
            },
            RegexBuildingBlock::ClosedBraces | RegexBuildingBlock::CharacterLiteral(_) | RegexBuildingBlock::CharacterClass(_, _) => {
                if n == top.index {
                    let t = with_nodes(s, wrap(nodes, n, rep));
                    Some(if upd { with_root(t, id_of(nodes.len() as int)) } else { t })
                } else {
                    Some(with_nodes(s, with_repeat_inserted(nodes, last.index as int, rep)))
                }
            },
            RegexBuildingBlock::Or => match nodes[n].right {
                Some(r) => if fuel == 0 { None } else {
                    walk_repeat(ParseState { left: false, ..s }, rep, top, r, node, false, (fuel - 1) as nat)
                },
                None => None,
            },
            _ => None,
        }
    }
}

/// `+`, `*` or `?`.
pub open spec fn step_repeat(s: ParseState, c: char) -> Option<ParseState> {
    if s.nodes.len() == 0 {
        None
    } else {
        walk_repeat(s, repeat_of(c), root(s), root(s), root(s), true, s.nodes.len())
    }
}

/// The character that `o` holds, and a blank where it holds none.
pub open spec fn held(o: Option<char>) -> char {
    match o {
        Some(c) => c,
        None => ' ',
    }
}

/// The low byte of a character, as `as u8` gives it.
pub open spec fn low_byte(c: char) -> int {
    (c as u32) as int % 256
}

/// `}`: the repeat `{start,end}` placed above the root.
pub open spec fn step_close_repeat(s: ParseState) -> Option<ParseState> {
    let a = held(s.start);
    let b = if s.end is Some { held(s.end) } else { a };
    if !s.repeat_mode || s.start is None || low_byte(a) < 0x30 || low_byte(b) < 0x30 {
        None
    } else {
        let rep = RegexBuildingBlock::Repeat((low_byte(a) - 0x30) as u8, (low_byte(b) - 0x30) as u8);
        let nodes = s.nodes;
        let placed = if nodes.len() == 0 {
            Some(with_nodes(s, nodes.push(leaf(rep))))
        } else {
            let r = root(s).index as int;
            match nodes[r].data {
                RegexBuildingBlock::Concatenation => Some(with_root(
                    with_nodes(s, wrap(with_data(nodes, r, rep), r, RegexBuildingBlock::Concatenation)),
                    id_of(nodes.len() as int),
                )),
                RegexBuildingBlock::CharacterLiteral(_) | RegexBuildingBlock::CharacterClass(_, _) => Some(with_root(
                    with_nodes(s, wrap(nodes, r, rep)),
                    id_of(nodes.len() as int),
                )),
                _ => None,
            }
        };
        match placed {
            Some(t) => Some(ParseState { start: None, end: None, repeat_mode: false, ..t }),
            None => None,
        }
    }
}

/// `]`: the class `[start-end]` concatenated to the root.
pub open spec fn step_close_class(s: ParseState) -> Option<ParseState> {
    if !s.class_mode || s.start is None || s.end is None {
        None
    } else {
        let class = RegexBuildingBlock::CharacterClass(held(s.start), held(s.end));
        let nodes = s.nodes;
        let placed = if nodes.len() == 0 {
            Some(with_nodes(s, nodes.push(leaf(class))))
        } else {
            let r = root(s).index as int;
            match nodes[r].data {
                RegexBuildingBlock::CharacterLiteral(_) | RegexBuildingBlock::CharacterClass(_, _)
                | RegexBuildingBlock::Concatenation | RegexBuildingBlock::Repeat(_, _) => Some(
                    with_root(with_nodes(s, concat_with(nodes, r, class)), id_of(nodes.len() as int)),
                ),
                _ => None,
            }
        };
        match placed {
            Some(t) => Some(ParseState { start: None, end: None, class_mode: false, ..t }),
            None => None,
        }
    }
}

/// Placing an opening brace: the walk from the root down through opening braces and
/// alternatives. Where the walk ends at a block, a concatenation of that block and the new
/// brace takes its place; a closed group below an alternative or a brace gets the new brace
/// spliced in after it instead.
pub open spec fn walk_open(s: ParseState, node: NodeId, last: NodeId, upd: bool, fuel: nat) -> Option<ParseState>
    decreases fuel,
{
    let nodes = s.nodes;
    let n = node.index as int;
    if !(0 <= n < nodes.len()) {
        None
    } else {
        match nodes[n].data {
            RegexBuildingBlock::OpeningBraces => match nodes[n].right {
                Some(r) => if fuel == 0 { None } else { walk_open(s, r, node, false, (fuel - 1) as nat) },
                None => Some(with_nodes(s, with_new_right(nodes, n, RegexBuildingBlock::OpeningBraces))),
            },
            RegexBuildingBlock::ClosedBraces if !upd => push_root(
                with_nodes(s, concat_right_side_nodes(nodes, last.index as int, RegexBuildingBlock::OpeningBraces)),
                id_of(nodes.len() as int),
            ),
            RegexBuildingBlock::Or => match nodes[n].right {
                Some(r) => if fuel == 0 { None } else {
                    walk_open(ParseState { left: false, ..s }, r, node, false, (fuel - 1) as nat)
                },
                None => push_root(
                    with_nodes(s, with_new_right(nodes, n, RegexBuildingBlock::OpeningBraces)),
                    id_of(nodes.len() as int),
                ),
            },
            _ => push_root(
                place_concat(s, concat_with(nodes, n, RegexBuildingBlock::OpeningBraces), nodes.len() as int, last, upd, false),
                id_of(nodes.len() as int + 1),
            ),
        }
    }
}

/// `(`.
pub open spec fn step_open(s: ParseState) -> Option<ParseState> {
    if s.nodes.len() == 0 {
        Some(with_root(with_nodes(s, s.nodes.push(leaf(RegexBuildingBlock::OpeningBraces))), id_of(0)))
    } else {
        walk_open(s, root(s), root(s), true, s.nodes.len())
    }
}

/// Closing a brace: the walk from the root down through concatenations and alternatives to
/// the innermost opening brace.
pub open spec fn walk_close(s: ParseState, node: NodeId, fuel: nat) -> Option<ParseState>
    decreases fuel,
{
    let nodes = s.nodes;
    let n = node.index as int;
    if !(0 <= n < nodes.len()) {
        None
    } else {
        match nodes[n].data {
            RegexBuildingBlock::Concatenation | RegexBuildingBlock::Or => match nodes[n].right {
                Some(r) => if fuel == 0 { None } else { walk_close(s, r, (fuel - 1) as nat) },
                None => None,
            },
            RegexBuildingBlock::OpeningBraces => Some(ParseState {
                nodes: with_data(nodes, n, RegexBuildingBlock::ClosedBraces),
                root_index: if s.root_index != 0 { s.root_index - 1 } else { s.root_index },
                ..s
            }),
            _ => None,
        }
    }
}

/// `)`.
pub open spec fn step_close(s: ParseState) -> Option<ParseState> {
    if s.nodes.len() == 0 {
        None
    } else {
        walk_close(s, root(s), s.nodes.len())
    }
}

/// `|`: an alternative placed above the root.
pub open spec fn step_or(s: ParseState) -> Option<ParseState> {
    if s.nodes.len() == 0 {
        None
    } else {
        let r = root(s).index as int;
        match s.nodes[r].data {
            RegexBuildingBlock::OpeningBraces | RegexBuildingBlock::ClosingBraces => None,
            _ => Some(with_root(with_nodes(s, wrap(s.nodes, r, RegexBuildingBlock::Or)), id_of(s.nodes.len() as int))),
        }
    }
}

/// Placing a literal: the walk from the root down through opening braces and alternatives.
pub open spec fn walk_literal(s: ParseState, lit: RegexBuildingBlock, top: NodeId, node: NodeId, last: NodeId, upd: bool, fuel: nat) -> Option<ParseState>
    decreases fuel,
{
    let nodes = s.nodes;
    let n = node.index as int;
    let concat = nodes.len() as int;
    if !(0 <= n < nodes.len()) {
        None
    } else {
        match nodes[n].data {
            RegexBuildingBlock::OpeningBraces | RegexBuildingBlock::Or => match nodes[n].right {
                Some(r) => if fuel == 0 { None } else {
                    walk_literal(ParseState { left: false, ..s }, lit, top, r, node, false, (fuel - 1) as nat)
                },
                None => Some(with_nodes(s, with_new_right(nodes, n, lit))),
            },
            RegexBuildingBlock::ClosingBraces => None,
            RegexBuildingBlock::ClosedBraces | RegexBuildingBlock::Concatenation => Some(
                place_concat(s, concat_with(nodes, n, lit), concat, last, upd, false),
            ),
            RegexBuildingBlock::CharacterLiteral(_) | RegexBuildingBlock::CharacterClass(_, _) => Some(
                place_concat(s, concat_with(nodes, n, lit), concat, last, upd, s.left),
            ),
            RegexBuildingBlock::Repeat(_, _) => Some(
                place_concat(s, concat_with(nodes, n, lit), concat, last, n == top.index, false),
            ),
        }
    }
}

/// Any other character: part of a class or a repeat count inside brackets, else a literal.
/// `alphanumeric` and `numeric` are what `char::is_alphanumeric` and `char::is_numeric` give
/// for `c`.
pub open spec fn step_other(s: ParseState, c: char, alphanumeric: bool, numeric: bool) -> Option<ParseState> {
    if s.class_mode {
        if !alphanumeric {
            None
        } else if s.start is None {
            Some(ParseState { start: Some(c), ..s })
        } else {
            Some(ParseState { end: Some(c), ..s })
        }
    } else if s.repeat_mode {
        if !numeric && c != ',' {
            None
        } else if s.start is None {
            Some(ParseState { start: Some(c), end: Some(c), ..s })
        } else {
            Some(ParseState { end: Some(c), ..s })
        }
    } else {
        let lit = RegexBuildingBlock::CharacterLiteral(c);
        if s.nodes.len() == 0 {
            Some(with_nodes(s, s.nodes.push(leaf(lit))))
        } else {
            walk_literal(s, lit, root(s), root(s), root(s), true, s.nodes.len())
        }
    }
}

/// The state after the character `c`; `None` where the construction panics or does not end.
pub open spec fn step(s: ParseState, c: char, alphanumeric: bool, numeric: bool) -> Option<ParseState> {
    if c == '!' || c == '#' {
        None
    } else if c == '+' || c == '*' || c == '?' {
        step_repeat(s, c)
    } else if c == '{' {
        if s.class_mode || s.repeat_mode { None } else { Some(ParseState { repeat_mode: true, ..s }) }
    } else if c == '}' {
        step_close_repeat(s)
    } else if c == '-' {
        Some(s)
    } else if c == '[' {
        if s.class_mode || s.repeat_mode { None } else { Some(ParseState { class_mode: true, ..s }) }
    } else if c == ']' {
        step_close_class(s)
    } else if c == '(' {
        step_open(s)
    } else if c == ')' {
        step_close(s)
    } else if c == '|' {
        step_or(s)
    } else {
        step_other(s, c, alphanumeric, numeric)
    }
}

/// The invariant of the construction: a full stack of roots with the current one in range,
/// an acyclic arena, and every root an existing node, or node 0 while there is none.
pub open spec fn wf(s: ParseState) -> bool {
    &&& s.stack.len() == ROOT_STACK_SIZE
    &&& 0 <= s.root_index < ROOT_STACK_SIZE
    &&& acyclic(s.nodes)
    &&& forall|j: int| 0 <= j < s.stack.len() ==> #[trigger] s.stack[j].index < root_bound(s.nodes)
}

/// Roots are below this bound: the number of nodes, and 1 while there is none.
pub open spec fn root_bound(nodes: Seq<Node<RegexBuildingBlock>>) -> int {
    if nodes.len() == 0 { 1 } else { nodes.len() as int }
}

/// `t` has the arena and the stack of roots of `s`.
pub open spec fn same_tree(s: ParseState, t: ParseState) -> bool {
    &&& t.nodes == s.nodes
    &&& t.stack == s.stack
    &&& t.root_index == s.root_index
}

/// The arena stays addressable: there is room for two more nodes in `s`, or the arena of `t`
/// fits.
pub open spec fn fits(s: ParseState, t: ParseState) -> bool {
    s.nodes.len() + 2 <= usize::MAX || t.nodes.len() <= usize::MAX
}

/// The arena of `t` is that of `s` with at most two nodes more.
pub open spec fn grows_by_two(s: ParseState, t: ParseState) -> bool {
    s.nodes.len() <= t.nodes.len() <= s.nodes.len() + 2
}

proof fn lemma_roots_replaced(stack: Seq<NodeId>, i: int, id: NodeId, bound: int)
    requires
        forall|j: int| 0 <= j < stack.len() ==> #[trigger] stack[j].index < bound,
        0 <= i < stack.len(),
        id.index < bound,
    ensures
        forall|j: int| 0 <= j < stack.len() ==> #[trigger] stack.update(i, id)[j].index < bound,
{
    assert forall|j: int| 0 <= j < stack.len() implies #[trigger] stack.update(i, id)[j].index < bound by {
        if j != i {
            assert(stack.update(i, id)[j] == stack[j]);
        }
    }
}

proof fn lemma_roots_extend(s: ParseState, nodes: Seq<Node<RegexBuildingBlock>>)
    requires
        wf(s),
        nodes.len() > 0,
        s.nodes.len() <= nodes.len(),
    ensures
        forall|j: int| 0 <= j < s.stack.len() ==> #[trigger] s.stack[j].index < root_bound(nodes),
{
}

proof fn lemma_walk_repeat_wf(s: ParseState, rep: RegexBuildingBlock, top: NodeId, node: NodeId, last: NodeId, upd: bool, fuel: nat)
    requires
        wf(s),
        s.nodes.len() > 0,
        top.index < s.nodes.len(),
        last.index < s.nodes.len(),
        walk_repeat(s, rep, top, node, last, upd, fuel) is Some,
        fits(s, walk_repeat(s, rep, top, node, last, upd, fuel)->0),
    ensures
        wf(walk_repeat(s, rep, top, node, last, upd, fuel)->0),
        grows_by_two(s, walk_repeat(s, rep, top, node, last, upd, fuel)->0),
    decreases fuel,
{
    let nodes = s.nodes;
    let n = node.index as int;
    let t = walk_repeat(s, rep, top, node, last, upd, fuel)->0;
    match nodes[n].data {
        RegexBuildingBlock::Concatenation => {
            lemma_descend_in_bounds(nodes, n, nodes.len());
            let d = descend_end(nodes, n)->0;
            if d == top.index {
                let changed = with_data(nodes, d, rep);
                lemma_with_data_acyclic(nodes, d, rep);
                lemma_wrap_acyclic(changed, d, RegexBuildingBlock::Concatenation);
            } else {
                lemma_repeat_inserted_acyclic(nodes, d, rep);
            }
            lemma_roots_extend(s, t.nodes);
        },
        RegexBuildingBlock::OpeningBraces | RegexBuildingBlock::Or => {
            let r = nodes[n].right->0;
            lemma_walk_repeat_wf(
                ParseState { left: if nodes[n].data == RegexBuildingBlock::Or { false } else { s.left }, ..s },
                rep, top, r, node, false, (fuel - 1) as nat,
            );
        },
        _ => {
            if n == top.index {
                lemma_wrap_acyclic(nodes, n, rep);
            } else {
                lemma_repeat_inserted_acyclic(nodes, last.index as int, rep);
            }
            lemma_roots_extend(s, t.nodes);
        },
    }
}

proof fn lemma_walk_open_wf(s: ParseState, node: NodeId, last: NodeId, upd: bool, fuel: nat)
    requires
        wf(s),
        s.nodes.len() > 0,
        last.index < s.nodes.len(),
        !upd ==> s.nodes[last.index as int].right == Some(node),
        walk_open(s, node, last, upd, fuel) is Some,
        fits(s, walk_open(s, node, last, upd, fuel)->0),
    ensures
        wf(walk_open(s, node, last, upd, fuel)->0),
        grows_by_two(s, walk_open(s, node, last, upd, fuel)->0),
    decreases fuel,
{
    let nodes = s.nodes;
    let n = node.index as int;
    let t = walk_open(s, node, last, upd, fuel)->0;
    match nodes[n].data {
        RegexBuildingBlock::OpeningBraces | RegexBuildingBlock::Or => {
            match nodes[n].right {
                Some(r) => {
                    lemma_walk_open_wf(
                        ParseState { left: if nodes[n].data == RegexBuildingBlock::Or { false } else { s.left }, ..s },
                        r, node, false, (fuel - 1) as nat,
                    );
                },
                None => {
                    lemma_new_right_acyclic(nodes, n, RegexBuildingBlock::OpeningBraces);
                    lemma_roots_extend(s, t.nodes);
                },
            }
        },
        RegexBuildingBlock::ClosedBraces if !upd => {
            lemma_concat_right_side_acyclic(nodes, last.index as int, RegexBuildingBlock::OpeningBraces);
            lemma_roots_extend(s, t.nodes);
        },
        _ => {
            let pair = concat_with(nodes, n, RegexBuildingBlock::OpeningBraces);
            if upd {
                lemma_wrap_acyclic(nodes, n, RegexBuildingBlock::Concatenation);
                lemma_new_right_acyclic(wrap(nodes, n, RegexBuildingBlock::Concatenation), nodes.len() as int, RegexBuildingBlock::OpeningBraces);
            } else {
                lemma_splice_pair_acyclic(nodes, n, last.index as int, RegexBuildingBlock::Concatenation, RegexBuildingBlock::OpeningBraces, false);
            }
            lemma_roots_extend(s, t.nodes);
        },
    }
}

proof fn lemma_walk_close_wf(s: ParseState, node: NodeId, fuel: nat)
    requires
        wf(s),
        walk_close(s, node, fuel) is Some,
    ensures
        wf(walk_close(s, node, fuel)->0),
        walk_close(s, node, fuel)->0.nodes.len() == s.nodes.len(),
    decreases fuel,
{
    let nodes = s.nodes;
    let n = node.index as int;
    match nodes[n].data {
        RegexBuildingBlock::OpeningBraces => {
            lemma_with_data_acyclic(nodes, n, RegexBuildingBlock::ClosedBraces);
        },
        _ => {
            lemma_walk_close_wf(s, nodes[n].right->0, (fuel - 1) as nat);
        },
    }
}

proof fn lemma_walk_literal_wf(s: ParseState, lit: RegexBuildingBlock, top: NodeId, node: NodeId, last: NodeId, upd: bool, fuel: nat)
    requires
        wf(s),
        s.nodes.len() > 0,
        last.index < s.nodes.len(),
        upd ==> node == top,
        !upd ==> s.nodes[last.index as int].right == Some(node),
        walk_literal(s, lit, top, node, last, upd, fuel) is Some,
        fits(s, walk_literal(s, lit, top, node, last, upd, fuel)->0),
    ensures
        wf(walk_literal(s, lit, top, node, last, upd, fuel)->0),
        grows_by_two(s, walk_literal(s, lit, top, node, last, upd, fuel)->0),
    decreases fuel,
{
    let nodes = s.nodes;
    let n = node.index as int;
    let t = walk_literal(s, lit, top, node, last, upd, fuel)->0;
    match nodes[n].data {
        RegexBuildingBlock::OpeningBraces | RegexBuildingBlock::Or => {
            match nodes[n].right {
                Some(r) => {
                    lemma_walk_literal_wf(ParseState { left: false, ..s }, lit, top, r, node, false, (fuel - 1) as nat);
                },
                None => {
                    lemma_new_right_acyclic(nodes, n, lit);
                    lemma_roots_extend(s, t.nodes);
                },
            }
        },
        _ => {
            let as_root = match nodes[n].data {
                RegexBuildingBlock::Repeat(_, _) => n == top.index,
                _ => upd,
            };
            let as_left = match nodes[n].data {
                RegexBuildingBlock::CharacterLiteral(_) | RegexBuildingBlock::CharacterClass(_, _) => s.left,
                _ => false,
            };
            if as_root {
                lemma_wrap_acyclic(nodes, n, RegexBuildingBlock::Concatenation);
                lemma_new_right_acyclic(wrap(nodes, n, RegexBuildingBlock::Concatenation), nodes.len() as int, lit);
            } else {
                lemma_splice_pair_acyclic(nodes, n, last.index as int, RegexBuildingBlock::Concatenation, lit, as_left);
            }
            lemma_roots_extend(s, t.nodes);
        },
    }
}

proof fn lemma_concat_with_len(nodes: Seq<Node<RegexBuildingBlock>>, x: int, data: RegexBuildingBlock)
    ensures
        wrap(nodes, x, RegexBuildingBlock::Concatenation).len() == nodes.len() + 1,
        concat_with(nodes, x, data).len() == nodes.len() + 2,
{
    let w = wrap(nodes, x, RegexBuildingBlock::Concatenation);
    assert(w.len() == nodes.len() + 1);
    let p = w.push(leaf(data));
    assert(p.len() == nodes.len() + 2);
    assert(with_right(p, nodes.len() as int, Some(id_of(w.len() as int))).len() == p.len());
}

proof fn lemma_close_repeat_wf(s: ParseState)
    requires
        wf(s),
        step_close_repeat(s) is Some,
        fits(s, step_close_repeat(s)->0),
    ensures
        wf(step_close_repeat(s)->0),
        grows_by_two(s, step_close_repeat(s)->0),
{
    let nodes = s.nodes;
    let t = step_close_repeat(s)->0;
    let a = held(s.start);
    let b = if s.end is Some { held(s.end) } else { a };
    let rep = RegexBuildingBlock::Repeat((low_byte(a) - 0x30) as u8, (low_byte(b) - 0x30) as u8);
    if nodes.len() == 0 {
        assert(t.nodes == nodes.push(leaf(rep)));
        lemma_push_leaf_acyclic(nodes, rep);
    } else {
        let r = root(s).index as int;
        if nodes[r].data == RegexBuildingBlock::Concatenation {
            let changed = with_data(nodes, r, rep);
            assert(changed.len() == nodes.len());
            assert(t.nodes == wrap(changed, r, RegexBuildingBlock::Concatenation));
            lemma_with_data_acyclic(nodes, r, rep);
            lemma_wrap_acyclic(changed, r, RegexBuildingBlock::Concatenation);
        } else {
            assert(t.nodes == wrap(nodes, r, rep));
            lemma_wrap_acyclic(nodes, r, rep);
        }
        assert(t.stack == s.stack.update(s.root_index, id_of(nodes.len() as int)));
        lemma_roots_extend(s, t.nodes);
        lemma_roots_replaced(s.stack, s.root_index, id_of(nodes.len() as int), root_bound(t.nodes));
    }
}

proof fn lemma_close_class_wf(s: ParseState)
    requires
        wf(s),
        step_close_class(s) is Some,
        fits(s, step_close_class(s)->0),
    ensures
        wf(step_close_class(s)->0),
        grows_by_two(s, step_close_class(s)->0),
{
    let nodes = s.nodes;
    let t = step_close_class(s)->0;
    let class = RegexBuildingBlock::CharacterClass(held(s.start), held(s.end));
    if nodes.len() == 0 {
        assert(t.nodes == nodes.push(leaf(class)));
        lemma_push_leaf_acyclic(nodes, class);
    } else {
        let r = root(s).index as int;
        let w = wrap(nodes, r, RegexBuildingBlock::Concatenation);
        assert(t.nodes == concat_with(nodes, r, class));
        assert(t.stack == s.stack.update(s.root_index, id_of(nodes.len() as int)));
        lemma_concat_with_len(nodes, r, class);
        lemma_wrap_acyclic(nodes, r, RegexBuildingBlock::Concatenation);
        lemma_new_right_acyclic(w, nodes.len() as int, class);
        lemma_roots_extend(s, t.nodes);
        lemma_roots_replaced(s.stack, s.root_index, id_of(nodes.len() as int), root_bound(t.nodes));
    }
}

proof fn lemma_or_wf(s: ParseState)
    requires
        wf(s),
        step_or(s) is Some,
        fits(s, step_or(s)->0),
    ensures
        wf(step_or(s)->0),
        grows_by_two(s, step_or(s)->0),
{
    lemma_wrap_acyclic(s.nodes, root(s).index as int, RegexBuildingBlock::Or);
    lemma_roots_extend(s, step_or(s)->0.nodes);
}

/// Every accepted character keeps the invariant of the construction, and adds at most two
/// nodes to the arena, as long as the arena stays addressable.
pub proof fn lemma_step_keeps_wf(s: ParseState, c: char, alphanumeric: bool, numeric: bool)
    requires
        wf(s),
        step(s, c, alphanumeric, numeric) is Some,
        fits(s, step(s, c, alphanumeric, numeric)->0),
    ensures
        wf(step(s, c, alphanumeric, numeric)->0),
        grows_by_two(s, step(s, c, alphanumeric, numeric)->0),
{
    let nodes = s.nodes;
    if c == '+' || c == '*' || c == '?' {
        lemma_walk_repeat_wf(s, repeat_of(c), root(s), root(s), root(s), true, nodes.len());
    } else if c == '}' {
        lemma_close_repeat_wf(s);
    } else if c == ']' {
        lemma_close_class_wf(s);
    } else if c == '(' {
        if nodes.len() == 0 {
            lemma_push_leaf_acyclic(nodes, RegexBuildingBlock::OpeningBraces);
        } else {
            lemma_walk_open_wf(s, root(s), root(s), true, nodes.len());
        }
    } else if c == ')' {
        lemma_walk_close_wf(s, root(s), nodes.len());
    } else if c == '|' {
        lemma_or_wf(s);
    } else if c != '!' && c != '#' && c != '{' && c != '-' && c != '[' && !s.class_mode && !s.repeat_mode {
        let lit = RegexBuildingBlock::CharacterLiteral(c);
        if nodes.len() == 0 {
            lemma_push_leaf_acyclic(nodes, lit);
        } else {
            lemma_walk_literal_wf(s, lit, root(s), root(s), root(s), true, nodes.len());
        }
    }
}

/// Builds the tree of a regular expression one infix character at a time.
pub struct TreeBuilder {
    arena: Arena<RegexBuildingBlock>,
    root_stack: Vec<NodeId>,
    root_index: usize,
    character_class_mode: bool,
    repeat_mode: bool,
    character_start_option: Option<char>,
    character_end_option: Option<char>,
    left: bool,
}

impl View for TreeBuilder {
    type V = ParseState;

    closed spec fn view(&self) -> ParseState {
        ParseState {
            nodes: self.arena@,
            stack: self.root_stack@,
            root_index: self.root_index as int,
            class_mode: self.character_class_mode,
            repeat_mode: self.repeat_mode,
            start: self.character_start_option,
            end: self.character_end_option,
            left: self.left,
        }
    }
}

/// The state before the first character keeps the invariant.
pub proof fn lemma_initial_wf()
    ensures
        wf(initial_state()),
{
    let e = Seq::<Node<RegexBuildingBlock>>::empty();
    assert(ranked(e, Seq::<int>::empty()));
}

proof fn lemma_rank_of(nodes: Seq<Node<RegexBuildingBlock>>) -> (rank: Seq<int>)
    requires
        acyclic(nodes),
    ensures
        ranked(nodes, rank),
{
    choose|r: Seq<int>| ranked(nodes, r)
}

impl TreeBuilder {
    /// A builder that has read nothing yet.
    pub fn new() -> (builder: Self)
        ensures
            builder@ == initial_state(),
            wf(builder@),
    {
        let mut root_stack: Vec<NodeId> = Vec::new();
        let mut i: usize = 0;
        while i < ROOT_STACK_SIZE
            invariant
                i <= ROOT_STACK_SIZE,
                root_stack@ == Seq::new(i as nat, |j: int| id_of(0)),
            decreases ROOT_STACK_SIZE - i,
        {
            root_stack.push(NodeId { index: 0 });
            i = i + 1;
            proof {
                assert(root_stack@ =~= Seq::new(i as nat, |j: int| id_of(0)));
            }
        }
        let builder = TreeBuilder {
            arena: Arena::new(),
            root_stack,
            root_index: 0,
            character_class_mode: false,
            repeat_mode: false,
            character_start_option: None,
            character_end_option: None,
            left: true,
        };
        proof {
            lemma_initial_wf();
            assert(builder@ =~= initial_state());
        }
        builder
    }

    /// `+`, `*` or `?`: the repeat placed where the walk from the root ends.
    fn place_repeat(&mut self, repeat: RegexBuildingBlock) -> (ok: bool)
        requires
            wf(old(self)@),
            old(self)@.nodes.len() > 0,
        ensures
            ok == (walk_repeat(old(self)@, repeat, root(old(self)@), root(old(self)@), root(old(self)@), true, old(self)@.nodes.len()) is Some),
            ok ==> final(self)@ == walk_repeat(old(self)@, repeat, root(old(self)@), root(old(self)@), root(old(self)@), true, old(self)@.nodes.len())->0,
            !ok ==> same_tree(old(self)@, final(self)@),
    {
        let ghost s0 = self@;
        let ghost rank = lemma_rank_of(s0.nodes);
        let root_node_id = self.root_stack[self.root_index];
        let mut last_node_id = root_node_id;
        let mut node_id = root_node_id;
        let mut update_root_node_id = true;
        let ghost mut fuel: nat = s0.nodes.len();
        assert(link_below(s0.nodes, rank, node_id.index as int, s0.nodes[node_id.index as int].left));
        loop
            invariant
                s0 == old(self)@,
                wf(s0),
                ranked(s0.nodes, rank),
                self@ == (ParseState { left: self.left, ..s0 }),
                root_node_id == root(s0),
                node_id.index < s0.nodes.len(),
                last_node_id.index < s0.nodes.len(),
                rank[node_id.index as int] < fuel,
                walk_repeat(self@, repeat, root_node_id, node_id, last_node_id, update_root_node_id, fuel)
                    == walk_repeat(s0, repeat, root(s0), root(s0), root(s0), true, s0.nodes.len()),
            decreases fuel,
        {
            let root_value = *self.arena.get_payload(&node_id);
            assert(link_below(s0.nodes, rank, node_id.index as int, s0.nodes[node_id.index as int].left));
            match root_value {
                RegexBuildingBlock::Concatenation => {
                    proof {
                        lemma_acyclic_descend(s0.nodes, node_id.index as int);
                        lemma_descend_in_bounds(s0.nodes, node_id.index as int, s0.nodes.len());
                    }
                    let end_id = descend_into_concatenation_right_side(&self.arena, &node_id);
                    if end_id.index == root_node_id.index {
                        self.arena.change_payload(&end_id, repeat);
                        let concatenation_node_id = self.arena.new_node(RegexBuildingBlock::Concatenation);
                        self.arena.insert_left(&concatenation_node_id, end_id);
                        if update_root_node_id {
                            self.root_stack[self.root_index] = concatenation_node_id;
                        }
                    } else {
                        self.arena.insert_repeat_node_into_node(&end_id, repeat);
                    }
                    return true;
                },
                RegexBuildingBlock::OpeningBraces | RegexBuildingBlock::Or => {
                    match self.arena.get_right_id(&node_id) {
                        Some(right_child_node_id) => {
                            let right_child_node_id = *right_child_node_id;
                            if let RegexBuildingBlock::Or = root_value {
                                self.left = false;
                            }
                            last_node_id = node_id;
                            node_id = right_child_node_id;
                            update_root_node_id = false;
                            proof {
                                fuel = (fuel - 1) as nat;
                            }
                        },
                        None => {
                            return false;
                        },
                    }
                },
                RegexBuildingBlock::ClosedBraces | RegexBuildingBlock::CharacterLiteral(_)
                | RegexBuildingBlock::CharacterClass(_, _) => {
                    if node_id.index == root_node_id.index {
                        let new_root_node_id = self.arena.new_node(repeat);
                        self.arena.insert_left(&new_root_node_id, node_id);
                        if update_root_node_id {
                            self.root_stack[self.root_index] = new_root_node_id;
                        }
                    } else {
                        self.arena.insert_repeat_node_into_node(&last_node_id, repeat);
                    }
                    return true;
                },
                _ => {
                    return false;
                },
            }
        }
    }

    /// `}`: the collected count becomes a repeat above the root.
    fn close_repeat(&mut self) -> (ok: bool)
        requires
            wf(old(self)@),
        ensures
            ok == (step_close_repeat(old(self)@) is Some),
            ok ==> final(self)@ == step_close_repeat(old(self)@)->0,
            !ok ==> same_tree(old(self)@, final(self)@),
    {
        if !self.repeat_mode {
            return false;
        }
        if self.character_end_option.is_none() {
            self.character_end_option = self.character_start_option;
        }
        let start = match self.character_start_option {
            Some(c) => c,
            None => {
                return false;
            },
        };
        let end = match self.character_end_option {
            Some(c) => c,
            None => {
                return false;
            },
        };
        let start_byte: u32 = (start as u32) % 256;
        let end_byte: u32 = (end as u32) % 256;
        if start_byte < 0x30 || end_byte < 0x30 {
            return false;
        }
        let repeat = RegexBuildingBlock::Repeat((start_byte - 0x30) as u8, (end_byte - 0x30) as u8);
        if self.arena.is_empty() {
            self.arena.new_node(repeat);
        } else {
            let root_node_id = self.root_stack[self.root_index];
            let root_value = *self.arena.get_payload(&root_node_id);
            match root_value {
                RegexBuildingBlock::Concatenation => {
                    self.arena.change_payload(&root_node_id, repeat);
                    let new_root_node_id = self.arena.new_node(RegexBuildingBlock::Concatenation);
                    self.arena.insert_left(&new_root_node_id, root_node_id);
                    self.root_stack[self.root_index] = new_root_node_id;
                },
                RegexBuildingBlock::CharacterLiteral(_) | RegexBuildingBlock::CharacterClass(_, _) => {
                    let new_root_node_id = self.arena.new_node(repeat);
                    self.arena.insert_left(&new_root_node_id, root_node_id);
                    self.root_stack[self.root_index] = new_root_node_id;
                },
                _ => {
                    return false;
                },
            }
        }
        self.character_start_option = None;
        self.character_end_option = None;
        self.repeat_mode = false;
        true
    }

    /// `]`: the collected range becomes a class concatenated to the root.
    fn close_class(&mut self) -> (ok: bool)
        requires
            wf(old(self)@),
        ensures
            ok == (step_close_class(old(self)@) is Some),
            ok ==> final(self)@ == step_close_class(old(self)@)->0,
            !ok ==> same_tree(old(self)@, final(self)@),
    {
        if !self.character_class_mode {
            return false;
        }
        let (start, end) = match (self.character_start_option, self.character_end_option) {
            (Some(start), Some(end)) => (start, end),
            _ => {
                return false;
            },
        };
        let character_class = RegexBuildingBlock::CharacterClass(start, end);
        if self.arena.is_empty() {
            self.arena.new_node(character_class);
        } else {
            let root_node_id = self.root_stack[self.root_index];
            let root_value = *self.arena.get_payload(&root_node_id);
            match root_value {
                RegexBuildingBlock::CharacterLiteral(_) | RegexBuildingBlock::CharacterClass(_, _)
                | RegexBuildingBlock::Concatenation | RegexBuildingBlock::Repeat(_, _) => {
                    let new_root_node_id = self.arena.new_node(RegexBuildingBlock::Concatenation);
                    self.arena.insert_left(&new_root_node_id, root_node_id);
                    self.arena.add_right(&new_root_node_id, character_class);
                    self.root_stack[self.root_index] = new_root_node_id;
                },
                _ => {
                    return false;
                },
            }
        }
        self.character_start_option = None;
        self.character_end_option = None;
        self.character_class_mode = false;
        true
    }

    /// `|`: an alternative above the root.
    fn place_or(&mut self) -> (ok: bool)
        requires
            wf(old(self)@),
        ensures
            ok == (step_or(old(self)@) is Some),
            ok ==> final(self)@ == step_or(old(self)@)->0,
            !ok ==> same_tree(old(self)@, final(self)@),
    {
        if self.arena.is_empty() {
            return false;
        }
        let root_node_id = self.root_stack[self.root_index];
        let root_value = *self.arena.get_payload(&root_node_id);
        match root_value {
            RegexBuildingBlock::OpeningBraces | RegexBuildingBlock::ClosingBraces => false,
            _ => {
                let new_root_node_id = self.arena.new_node(RegexBuildingBlock::Or);
                self.arena.insert_left(&new_root_node_id, root_node_id);
                self.root_stack[self.root_index] = new_root_node_id;
                true
            },
        }
    }

    /// `)`: the innermost opening brace below the root is closed.
    fn close_brace(&mut self) -> (ok: bool)
        requires
            wf(old(self)@),
        ensures
            ok == (step_close(old(self)@) is Some),
            ok ==> final(self)@ == step_close(old(self)@)->0,
            !ok ==> same_tree(old(self)@, final(self)@),
    {
        if self.arena.is_empty() {
            return false;
        }
        let ghost s0 = self@;
        let ghost rank = lemma_rank_of(s0.nodes);
        let mut node_id = self.root_stack[self.root_index];
        let ghost mut fuel: nat = s0.nodes.len();
        assert(link_below(s0.nodes, rank, node_id.index as int, s0.nodes[node_id.index as int].left));
        loop
            invariant
                s0 == old(self)@,
                wf(s0),
                ranked(s0.nodes, rank),
                self@ == s0,
                node_id.index < s0.nodes.len(),
                rank[node_id.index as int] < fuel,
                walk_close(self@, node_id, fuel) == walk_close(s0, root(s0), s0.nodes.len()),
            decreases fuel,
        {
            let root_value = *self.arena.get_payload(&node_id);
            assert(link_below(s0.nodes, rank, node_id.index as int, s0.nodes[node_id.index as int].left));
            match root_value {
                RegexBuildingBlock::Concatenation | RegexBuildingBlock::Or => {
                    match self.arena.get_right_id(&node_id) {
                        Some(right_child_node_id) => {
                            node_id = *right_child_node_id;
                            proof {
                                fuel = (fuel - 1) as nat;
                            }
                        },
                        None => {
                            return false;
                        },
                    }
                },
                RegexBuildingBlock::OpeningBraces => {
                    self.arena.change_payload(&node_id, RegexBuildingBlock::ClosedBraces);
                    if self.root_index != 0 {
                        self.root_index = self.root_index - 1;
                    }
                    return true;
                },
                _ => {
                    return false;
                },
            }
        }
    }

    /// One level deeper in the stack of roots, with `id` as root.
    fn push_root(&mut self, id: NodeId)
        requires
            old(self)@.stack.len() == ROOT_STACK_SIZE,
            0 <= old(self)@.root_index,
            old(self)@.root_index + 1 < ROOT_STACK_SIZE,
        ensures
            push_root(old(self)@, id) == Some(final(self)@),
    {
        self.root_index = self.root_index + 1;
        self.root_stack[self.root_index] = id;
    }

    /// `(`: an opening brace where the walk from the root ends.
    fn open_brace(&mut self) -> (ok: bool)
        requires
            wf(old(self)@),
        ensures
            ok == (step_open(old(self)@) is Some),
            ok ==> final(self)@ == step_open(old(self)@)->0,
            !ok ==> same_tree(old(self)@, final(self)@),
    {
        if self.arena.is_empty() {
            let root_node_id = self.arena.new_node(RegexBuildingBlock::OpeningBraces);
            self.root_stack[self.root_index] = root_node_id;
            return true;
        }
        let ghost s0 = self@;
        let ghost rank = lemma_rank_of(s0.nodes);
        let root_node_id = self.root_stack[self.root_index];
        let mut last_node_id = root_node_id;
        let mut node_id = root_node_id;
        let mut update_root_node_id = true;
        let ghost mut fuel: nat = s0.nodes.len();
        assert(link_below(s0.nodes, rank, node_id.index as int, s0.nodes[node_id.index as int].left));
        loop
            invariant
                s0 == old(self)@,
                wf(s0),
                ranked(s0.nodes, rank),
                self@ == (ParseState { left: self.left, ..s0 }),
                node_id.index < s0.nodes.len(),
                last_node_id.index < s0.nodes.len(),
                rank[node_id.index as int] < fuel,
                walk_open(self@, node_id, last_node_id, update_root_node_id, fuel)
                    == walk_open(s0, root(s0), root(s0), true, s0.nodes.len()),
            decreases fuel,
        {
            let root_value = *self.arena.get_payload(&node_id);
            assert(link_below(s0.nodes, rank, node_id.index as int, s0.nodes[node_id.index as int].left));
            match root_value {
                RegexBuildingBlock::OpeningBraces => {
                    match self.arena.get_right_id(&node_id) {
                        Some(right_child_node_id) => {
                            let right_child_node_id = *right_child_node_id;
                            last_node_id = node_id;
                            node_id = right_child_node_id;
                            update_root_node_id = false;
                            proof {
                                fuel = (fuel - 1) as nat;
                            }
                        },
                        None => {
                            self.arena.add_right(&node_id, RegexBuildingBlock::OpeningBraces);
                            return true;
                        },
                    }
                },
                RegexBuildingBlock::ClosedBraces if !update_root_node_id => {
                    if self.root_index + 1 >= self.root_stack.len() {
                        return false;
                    }
                    let id = concat_right_side(&mut self.arena, &last_node_id, RegexBuildingBlock::OpeningBraces);
                    self.push_root(NodeId { index: id });
                    return true;
                },
                RegexBuildingBlock::Or => {
                    match self.arena.get_right_id(&node_id) {
                        Some(right_child_node_id) => {
                            let right_child_node_id = *right_child_node_id;
                            self.left = false;
                            last_node_id = node_id;
                            node_id = right_child_node_id;
                            update_root_node_id = false;
                            proof {
                                fuel = (fuel - 1) as nat;
                            }
                        },
                        None => {
                            if self.root_index + 1 >= self.root_stack.len() {
                                return false;
                            }
                            let child_node_id = self.arena.add_right(&node_id, RegexBuildingBlock::OpeningBraces);
                            self.push_root(child_node_id);
                            return true;
                        },
                    }
                },
                _ => {
                    if self.root_index + 1 >= self.root_stack.len() {
                        return false;
                    }
                    let concat_node_id = self.arena.new_node(RegexBuildingBlock::Concatenation);
                    self.arena.insert_left(&concat_node_id, node_id);
                    let opening_braces_id = self.arena.add_right(&concat_node_id, RegexBuildingBlock::OpeningBraces);
                    if update_root_node_id {
                        self.root_stack[self.root_index] = concat_node_id;
                    } else {
                        self.arena.insert_right(&last_node_id, concat_node_id);
                    }
                    self.push_root(opening_braces_id);
                    return true;
                },
            }
        }
    }

    /// Any other character: part of a class or a count inside brackets, else a literal placed
    /// where the walk from the root ends.
    fn take_other(&mut self, c: char, alphanumeric: bool, numeric: bool) -> (ok: bool)
        requires
            wf(old(self)@),
        ensures
            ok == (step_other(old(self)@, c, alphanumeric, numeric) is Some),
            ok ==> final(self)@ == step_other(old(self)@, c, alphanumeric, numeric)->0,
            !ok ==> same_tree(old(self)@, final(self)@),
    {
        if self.character_class_mode {
            if !alphanumeric {
                return false;
            }
            if self.character_start_option.is_none() {
                self.character_start_option = Some(c);
            } else {
                self.character_end_option = Some(c);
            }
            return true;
        }
        if self.repeat_mode {
            if !numeric && c != ',' {
                return false;
            }
            if self.character_start_option.is_none() {
                self.character_start_option = Some(c);
                self.character_end_option = Some(c);
            } else {
                self.character_end_option = Some(c);
            }
            return true;
        }
        let character_literal = RegexBuildingBlock::CharacterLiteral(c);
        if self.arena.is_empty() {
            self.arena.new_node(character_literal);
            return true;
        }
        let ghost s0 = self@;
        let ghost rank = lemma_rank_of(s0.nodes);
        let root_node_id = self.root_stack[self.root_index];
        let mut last_node_id = root_node_id;
        let mut node_id = root_node_id;
        let mut update_root_node_id = true;
        let ghost mut fuel: nat = s0.nodes.len();
        assert(link_below(s0.nodes, rank, node_id.index as int, s0.nodes[node_id.index as int].left));
        loop
            invariant
                s0 == old(self)@,
                wf(s0),
                ranked(s0.nodes, rank),
                self@ == (ParseState { left: self.left, ..s0 }),
                root_node_id == root(s0),
                node_id.index < s0.nodes.len(),
                last_node_id.index < s0.nodes.len(),
                rank[node_id.index as int] < fuel,
                !s0.class_mode,
                !s0.repeat_mode,
                s0.nodes.len() > 0,
                character_literal == RegexBuildingBlock::CharacterLiteral(c),
                walk_literal(self@, character_literal, root_node_id, node_id, last_node_id, update_root_node_id, fuel)
                    == walk_literal(s0, character_literal, root(s0), root(s0), root(s0), true, s0.nodes.len()),
            decreases fuel,
        {
            let root_value = *self.arena.get_payload(&node_id);
            assert(link_below(s0.nodes, rank, node_id.index as int, s0.nodes[node_id.index as int].left));
            match root_value {
                RegexBuildingBlock::OpeningBraces | RegexBuildingBlock::Or => {
                    match self.arena.get_right_id(&node_id) {
                        Some(right_child_node_id) => {
                            let right_child_node_id = *right_child_node_id;
                            self.left = false;
                            last_node_id = node_id;
                            node_id = right_child_node_id;
                            update_root_node_id = false;
                            proof {
                                fuel = (fuel - 1) as nat;
                            }
                        },
                        None => {
                            self.arena.add_right(&node_id, character_literal);
                            return true;
                        },
                    }
                },
                RegexBuildingBlock::ClosingBraces => {
                    return false;
                },
                _ => {
                    let concat_node_id = self.arena.new_node(RegexBuildingBlock::Concatenation);
                    self.arena.insert_left(&concat_node_id, node_id);
                    self.arena.add_right(&concat_node_id, character_literal);
                    let as_root = match root_value {
                        RegexBuildingBlock::Repeat(_, _) => node_id.index == root_node_id.index,
                        _ => update_root_node_id,
                    };
                    let as_left = match root_value {
                        RegexBuildingBlock::CharacterLiteral(_) | RegexBuildingBlock::CharacterClass(_, _) => self.left,
                        _ => false,
                    };
                    if as_root {
                        self.root_stack[self.root_index] = concat_node_id;
                    } else if as_left {
                        self.arena.insert_left(&last_node_id, concat_node_id);
                    } else {
                        self.arena.insert_right(&last_node_id, concat_node_id);
                    }
                    return true;
                },
            }
        }
    }

    /// Reads the next infix character, given what `char::is_alphanumeric` and
    /// `char::is_numeric` say of it. Returns whether the construction accepts it; where it does
    /// not, the tree and the stack of roots are left as they were.
    pub fn feed_classified(&mut self, c: char, alphanumeric: bool, numeric: bool) -> (accepted: bool)
        requires
            wf(old(self)@),
        ensures
            accepted == (step(old(self)@, c, alphanumeric, numeric) is Some),
            accepted ==> final(self)@ == step(old(self)@, c, alphanumeric, numeric)->0,
            accepted ==> grows_by_two(old(self)@, final(self)@),
            !accepted ==> same_tree(old(self)@, final(self)@),
            wf(final(self)@),
    {
        let ok = if c == '!' || c == '#' {
            false
        } else if c == '+' || c == '*' || c == '?' {
            let repeat = if c == '+' {
                RegexBuildingBlock::Repeat(1, u8::MAX)
            } else if c == '?' {
                RegexBuildingBlock::Repeat(0, 1)
            } else {
                RegexBuildingBlock::Repeat(0, u8::MAX)
            };
            if self.arena.is_empty() {
                false
            } else {
                self.place_repeat(repeat)
            }
        } else if c == '{' {
            if self.character_class_mode || self.repeat_mode {
                false
            } else {
                self.repeat_mode = true;
                true
            }
        } else if c == '}' {
            self.close_repeat()
        } else if c == '-' {
            true
        } else if c == '[' {
            if self.character_class_mode || self.repeat_mode {
                false
            } else {
                self.character_class_mode = true;
                true
            }
        } else if c == ']' {
            self.close_class()
        } else if c == '(' {
            self.open_brace()
        } else if c == ')' {
            self.close_brace()
        } else if c == '|' {
            self.place_or()
        } else {
            self.take_other(c, alphanumeric, numeric)
        };
        proof {
            if ok {
                lemma_step_keeps_wf(old(self)@, c, alphanumeric, numeric);
            }
        }
        ok
    }

    /// Reads the next infix character. Returns whether the construction accepts it; where it
    /// does not, the tree and the stack of roots are left as they were.
    pub fn feed(&mut self, c: char) -> (accepted: bool)
        requires
            wf(old(self)@),
        ensures
            accepted == (step(old(self)@, c, char_is_alphanumeric(c), char_is_numeric(c)) is Some),
            accepted ==> final(self)@ == step(old(self)@, c, char_is_alphanumeric(c), char_is_numeric(c))->0,
            !accepted ==> same_tree(old(self)@, final(self)@),
            wf(final(self)@),
            (c as u32) < 128 ==> (char_is_alphanumeric(c) <==> is_ascii_alphanumeric(c)),
            (c as u32) < 128 ==> (char_is_numeric(c) <==> ('0' <= c <= '9')),
    {
        let alphanumeric = is_alphanumeric(c);
        let numeric = is_numeric(c);
        self.feed_classified(c, alphanumeric, numeric)
    }

    /// Whether the tree has no node yet.
    pub fn is_empty(&self) -> (b: bool)
        ensures
            b == (self@.nodes.len() == 0),
    {
        self.arena.is_empty()
    }

    /// The postfix text of the tree below the current root.
    pub fn postfix(&self) -> (text: String)
        requires
            wf(self@),
            self@.nodes.len() > 0,
        ensures
            postfix_of(self@.nodes, root(self@).index as int) is Some,
            text@ == postfix_of(self@.nodes, root(self@).index as int)->0,
    {
        let mut string_buffer = String::new();
        let root_node_id = self.root_stack[self.root_index];
        proof {
            lemma_acyclic_postfix(self@.nodes, root_node_id.index as int);
        }
        recurse_postfix(&self.arena, &root_node_id, &mut string_buffer);
        proof {
            assert(string_buffer@ =~= postfix_of(self@.nodes, root(self@).index as int)->0);
        }
        string_buffer
    }
}

/// The state after reading `input` from `s`, each character classified by
/// `char::is_alphanumeric` and `char::is_numeric`; `None` where the construction panics or does
/// not end.
pub open spec fn run(s: ParseState, input: Seq<char>) -> Option<ParseState>
    decreases input.len(),
{
    if input.len() == 0 {
        Some(s)
    } else {
        match step(s, input[0], char_is_alphanumeric(input[0]), char_is_numeric(input[0])) {
            Some(t) => run(t, input.drop_first()),
            None => None,
        }
    }
}

/// The postfix form of the infix regular expression `input`: the postfix text of the tree
/// built from it, below the current root. `None` where the conversion panics or does not end,
/// among them for an input that leaves the tree empty.
pub open spec fn infix_to_postfix_spec(input: Seq<char>) -> Option<Seq<char>> {
    match run(initial_state(), input) {
        Some(t) => if t.nodes.len() > 0 { postfix_of(t.nodes, root(t).index as int) } else { None },
        None => None,
    }
}

} // verus!
