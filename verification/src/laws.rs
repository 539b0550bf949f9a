use vstd::prelude::*;

use crate::arena::{
    acyclic, id_of, leaf, lemma_acyclic_postfix, lemma_postfix_fuel_monotone, lemma_ranked_postfix, link_below,
    postfix_of, postfix_within, ranked, with_data, with_left, with_new_left, with_new_right, with_repeat_inserted, with_right,
    Node, NodeId, Render,
};
use crate::block::{block_text, decimal, digit_char, RegexBuildingBlock};
use crate::builder::{
    held, infix_to_postfix_spec, initial_state, lemma_initial_wf, lemma_step_keeps_wf, low_byte, root, run, step,
    walk_close, walk_open, wf, ParseState,
};
use crate::concat::{descend_within, is_concatenation};
use crate::nesting::lemma_opens_twice_refused;
use crate::text::{char_is_alphanumeric, char_is_numeric};

verus! {

/// A node added by `Arena::new_node` is read back by `Arena::get_payload`,
/// `Arena::get_left_id` and `Arena::get_right_id` as holding what was given and having no
/// children, and the nodes before it are untouched.
pub proof fn lemma_new_node_reads_back<T>(nodes: Seq<Node<T>>, data: T)
    ensures
        nodes.push(leaf(data))[nodes.len() as int].data == data,
        nodes.push(leaf(data))[nodes.len() as int].left is None,
        nodes.push(leaf(data))[nodes.len() as int].right is None,
        nodes.push(leaf(data)).subrange(0, nodes.len() as int) == nodes,
{
    assert(nodes.push(leaf(data)).subrange(0, nodes.len() as int) =~= nodes);
}

/// `Arena::get_payload` after `Arena::change_payload` gives the new payload; the links of that
/// node and every other node are untouched.
pub proof fn lemma_change_payload_reads_back<T>(nodes: Seq<Node<T>>, i: int, data: T)
    requires
        0 <= i < nodes.len(),
    ensures
        with_data(nodes, i, data)[i].data == data,
        with_data(nodes, i, data)[i].left == nodes[i].left,
        with_data(nodes, i, data)[i].right == nodes[i].right,
        forall|j: int| 0 <= j < nodes.len() && j != i ==> #[trigger] with_data(nodes, i, data)[j] == nodes[j],
{
}

/// `Arena::get_left_id` after `Arena::insert_left`, and `Arena::get_right_id` after
/// `Arena::insert_right`, give the id that was inserted; nothing else changes.
pub proof fn lemma_insert_reads_back<T>(nodes: Seq<Node<T>>, i: int, id: NodeId)
    requires
        0 <= i < nodes.len(),
    ensures
        with_left(nodes, i, Some(id))[i].left == Some(id),
        with_left(nodes, i, Some(id))[i].right == nodes[i].right,
        with_left(nodes, i, Some(id))[i].data == nodes[i].data,
        with_right(nodes, i, Some(id))[i].right == Some(id),
        with_right(nodes, i, Some(id))[i].left == nodes[i].left,
        with_right(nodes, i, Some(id))[i].data == nodes[i].data,
        forall|j: int| 0 <= j < nodes.len() && j != i ==> #[trigger] with_left(nodes, i, Some(id))[j] == nodes[j],
        forall|j: int| 0 <= j < nodes.len() && j != i ==> #[trigger] with_right(nodes, i, Some(id))[j] == nodes[j],
{
}

/// The node that `Arena::add_right` returns is the right child of the given node, whatever
/// its right child was before, and holds what was given; the node keeps its left child and
/// payload, and every other node is untouched.
pub proof fn lemma_add_right_reads_back<T>(nodes: Seq<Node<T>>, p: int, data: T)
    requires
        0 <= p < nodes.len(),
        nodes.len() <= usize::MAX,
    ensures
        with_new_right(nodes, p, data)[p].right == Some(id_of(nodes.len() as int)),
        with_new_right(nodes, p, data)[p].right->0.index == nodes.len(),
        with_new_right(nodes, p, data)[p].left == nodes[p].left,
        with_new_right(nodes, p, data)[p].data == nodes[p].data,
        with_new_right(nodes, p, data)[nodes.len() as int].data == data,
        with_new_right(nodes, p, data)[nodes.len() as int].left is None,
        with_new_right(nodes, p, data)[nodes.len() as int].right is None,
        with_new_right(nodes, p, data).len() == nodes.len() + 1,
        forall|j: int| 0 <= j < nodes.len() && j != p ==> #[trigger] with_new_right(nodes, p, data)[j] == nodes[j],
{
}

/// The number that decimal digits `t` stand for, the last digit counting ones.
pub open spec fn digits_value(t: Seq<char>) -> int
    decreases t.len(),
{
    if t.len() == 0 { 0 } else { digits_value(t.drop_last()) * 10 + (t.last() as u32 as int - 48) }
}

/// The text of a repeat count reads back as the count: `decimal(n)` is one to three decimal
/// digits without a leading zero, and they stand for `n`.
pub proof fn lemma_decimal_reads_back(n: u8)
    ensures
        1 <= decimal(n).len() <= 3,
        forall|i: int| 0 <= i < decimal(n).len() ==> '0' <= #[trigger] decimal(n)[i] <= '9',
        decimal(n).len() > 1 ==> decimal(n)[0] != '0',
        digits_value(decimal(n)) == n,
{
    let t = decimal(n);
    let v = n as int;
    if v < 10 {
        lemma_digit_char(v);
        let e = t.drop_last();
        assert(e.len() == 0);
        assert(digits_value(e) == 0);
        assert(digits_value(t) == digits_value(e) * 10 + (t.last() as u32 as int - 48));
    } else if v < 100 {
        let (a, b) = (v / 10, v % 10);
        lemma_digit_char(a);
        lemma_digit_char(b);
        let t1 = t.drop_last();
        assert(t1 =~= seq![digit_char(a)]);
        assert(t1.drop_last().len() == 0);
        assert(digits_value(t1.drop_last()) == 0);
        assert(digits_value(t1) == a);
        assert(digits_value(t) == digits_value(t1) * 10 + b);
        assert(a * 10 + b == v) by (nonlinear_arith)
            requires a == v / 10, b == v % 10;
    } else {
        let (a, b, c) = (v / 100, (v / 10) % 10, v % 10);
        lemma_digit_char(a);
        lemma_digit_char(b);
        lemma_digit_char(c);
        let t1 = t.drop_last();
        let t2 = t1.drop_last();
        assert(t1 =~= seq![digit_char(a), digit_char(b)]);
        assert(t2 =~= seq![digit_char(a)]);
        assert(t2.drop_last().len() == 0);
        assert(digits_value(t2.drop_last()) == 0);
        assert(digits_value(t2) == a);
        assert(digits_value(t1) == a * 10 + b);
        assert(digits_value(t) == digits_value(t1) * 10 + c);
        assert((a * 10 + b) * 10 + c == v) by (nonlinear_arith)
            requires a == v / 100, b == (v / 10) % 10, c == v % 10, 0 <= v < 256;
    }
}

proof fn lemma_digit_char(d: int)
    requires
        0 <= d < 10,
    ensures
        digit_char(d) as u32 as int == 48 + d,
        '0' <= digit_char(d) <= '9',
{
}

/// `Arena::add_left` appends a node holding what was given and makes it the left child of the
/// given node, whatever its left child was before; the node keeps its right child and payload,
/// and every other node is untouched.
pub proof fn lemma_add_left_reads_back<T>(nodes: Seq<Node<T>>, p: int, data: T)
    requires
        0 <= p < nodes.len(),
        nodes.len() <= usize::MAX,
    ensures
        with_new_left(nodes, p, data)[p].left is Some,
        with_new_left(nodes, p, data)[p].left->0.index == nodes.len(),
        with_new_left(nodes, p, data)[p].right == nodes[p].right,
        with_new_left(nodes, p, data)[p].data == nodes[p].data,
        with_new_left(nodes, p, data)[nodes.len() as int].data == data,
        with_new_left(nodes, p, data)[nodes.len() as int].left is None,
        with_new_left(nodes, p, data)[nodes.len() as int].right is None,
        with_new_left(nodes, p, data).len() == nodes.len() + 1,
        forall|j: int| 0 <= j < nodes.len() && j != p ==> #[trigger] with_new_left(nodes, p, data)[j] == nodes[j],
{
}

/// Two calls of `Arena::add_left` on one node: the node added second is its left child, and the
/// one added first stays in the arena with what it holds, no longer linked from the node.
/// The same holds of `Arena::add_right` and right children.
pub proof fn lemma_add_child_twice<T>(nodes: Seq<Node<T>>, p: int, first: T, second: T)
    requires
        0 <= p < nodes.len(),
        nodes.len() + 2 <= usize::MAX,
    ensures
        with_new_left(with_new_left(nodes, p, first), p, second)[p].left->0.index == nodes.len() + 1,
        with_new_left(with_new_left(nodes, p, first), p, second)[nodes.len() as int].data == first,
        with_new_left(with_new_left(nodes, p, first), p, second)[nodes.len() + 1int].data == second,
        with_new_left(with_new_left(nodes, p, first), p, second)[p].right == nodes[p].right,
        with_new_right(with_new_right(nodes, p, first), p, second)[p].right->0.index == nodes.len() + 1,
        with_new_right(with_new_right(nodes, p, first), p, second)[nodes.len() as int].data == first,
        with_new_right(with_new_right(nodes, p, first), p, second)[nodes.len() + 1int].data == second,
        with_new_right(with_new_right(nodes, p, first), p, second)[p].left == nodes[p].left,
{
    lemma_add_left_reads_back(nodes, p, first);
    lemma_add_left_reads_back(with_new_left(nodes, p, first), p, second);
    lemma_add_right_reads_back(nodes, p, first);
    lemma_add_right_reads_back(with_new_right(nodes, p, first), p, second);
}

/// `Arena::insert_repeat_node_into_node` puts the new node between the given node and its old
/// right child: the new node is the right child, and the old right child, where there was one,
/// is the new node's left child.
pub proof fn lemma_repeat_node_between<T>(nodes: Seq<Node<T>>, n: int, data: T)
    requires
        0 <= n < nodes.len(),
        nodes.len() <= usize::MAX,
    ensures
        with_repeat_inserted(nodes, n, data)[n].right == Some(id_of(nodes.len() as int)),
        with_repeat_inserted(nodes, n, data)[nodes.len() as int].data == data,
        with_repeat_inserted(nodes, n, data)[nodes.len() as int].left == nodes[n].right,
        with_repeat_inserted(nodes, n, data)[nodes.len() as int].right is None,
        with_repeat_inserted(nodes, n, data)[n].left == nodes[n].left,
{
}

/// The postfix text of a node is the postfix text of its left subtree, then of its right
/// subtree, then its own text.
pub proof fn lemma_postfix_children_first<T: Render>(nodes: Seq<Node<T>>, i: int)
    requires
        postfix_of(nodes, i) is Some,
    ensures
        ({
            let l = match nodes[i].left {
                Some(c) => postfix_of(nodes, c.index as int),
                None => Some(Seq::<char>::empty()),
            };
            let r = match nodes[i].right {
                Some(c) => postfix_of(nodes, c.index as int),
                None => Some(Seq::<char>::empty()),
            };
            &&& l is Some
            &&& r is Some
            &&& postfix_of(nodes, i)->0 == l->0 + r->0 + nodes[i].data.spec_render()
        }),
{
    let n = nodes.len();
    if let Some(c) = nodes[i].left {
        lemma_postfix_fuel_monotone(nodes, c.index as int, (n - 1) as nat, n);
    }
    if let Some(c) = nodes[i].right {
        lemma_postfix_fuel_monotone(nodes, c.index as int, (n - 1) as nat, n);
    }
}

/// The descent along concatenations stops at a node whose right child is missing or is no
/// concatenation.
pub proof fn lemma_descend_stops(nodes: Seq<Node<RegexBuildingBlock>>, i: int, fuel: nat)
    requires
        descend_within(nodes, i, fuel) is Some,
    ensures
        ({
            let d = descend_within(nodes, i, fuel)->0;
            match nodes[d].right {
                Some(r) => !is_concatenation(nodes[r.index as int]),
                None => true,
            }
        }),
    decreases fuel,
{
    if let Some(r) = nodes[i].right {
        if 0 <= r.index < nodes.len() && is_concatenation(nodes[r.index as int]) && fuel > 0 {
            lemma_descend_stops(nodes, r.index as int, (fuel - 1) as nat);
        }
    }
}

/// Reading any input keeps the invariant of the construction, and each character adds at most
/// two nodes, as long as the arena stays addressable.
pub proof fn lemma_run_keeps_wf(s: ParseState, input: Seq<char>)
    requires
        wf(s),
        run(s, input) is Some,
        s.nodes.len() + 2 * input.len() <= usize::MAX,
    ensures
        wf(run(s, input)->0),
        s.nodes.len() <= run(s, input)->0.nodes.len() <= s.nodes.len() + 2 * input.len(),
    decreases input.len(),
{
    if input.len() > 0 {
        let c = input[0];
        let t = step(s, c, char_is_alphanumeric(c), char_is_numeric(c))->0;
        lemma_step_keeps_wf(s, c, char_is_alphanumeric(c), char_is_numeric(c));
        lemma_run_keeps_wf(t, input.drop_first());
    }
}

/// The conversion accepts an input exactly when every character is accepted and the tree is
/// not empty at the end: the final traversal always ends.
pub proof fn lemma_accepted_exactly_when_built(input: Seq<char>)
    requires
        2 * input.len() <= usize::MAX,
    ensures
        infix_to_postfix_spec(input) is Some <==> (run(initial_state(), input) is Some
            && run(initial_state(), input)->0.nodes.len() > 0),
{
    if run(initial_state(), input) is Some {
        let t = run(initial_state(), input)->0;
        lemma_initial_wf();
        lemma_run_keeps_wf(initial_state(), input);
        if t.nodes.len() > 0 {
            lemma_acyclic_postfix(t.nodes, root(t).index as int);
        }
    }
}

/// Whether `c` has no special meaning outside brackets, so that it stands for itself.
pub open spec fn is_plain(c: char) -> bool {
    !(c == '!' || c == '#' || c == '+' || c == '*' || c == '?' || c == '{' || c == '}' || c == '-'
        || c == '[' || c == ']' || c == '(' || c == ')' || c == '|')
}

/// `#` marks concatenation in the output and `!` is reserved: an input that holds either is
/// never converted.
pub proof fn lemma_reserved_rejected(s: ParseState, input: Seq<char>, k: int)
    requires
        0 <= k < input.len(),
        input[k] == '#' || input[k] == '!',
    ensures
        run(s, input) is None,
    decreases input.len(),
{
    if k > 0 {
        let c = input[0];
        if let Some(t) = step(s, c, char_is_alphanumeric(c), char_is_numeric(c)) {
            assert(input.drop_first()[k - 1] == input[k]);
            lemma_reserved_rejected(t, input.drop_first(), k - 1);
        }
    }
}

/// A closing brace leaves the arena's shape and the stack of roots as they were, turns one
/// opening brace into a closed one, and goes one level up in the stack of roots (staying at
/// the bottom level when already there).
pub proof fn lemma_close_brace_pops(s: ParseState, alphanumeric: bool, numeric: bool)
    requires
        step(s, ')', alphanumeric, numeric) is Some,
    ensures
        ({
            let t = step(s, ')', alphanumeric, numeric)->0;
            &&& t.nodes.len() == s.nodes.len()
            &&& t.stack == s.stack
            &&& t.root_index == if s.root_index != 0 { s.root_index - 1 } else { 0 }
        }),
{
    lemma_walk_close_pops(s, root(s), s.nodes.len());
}

proof fn lemma_walk_close_pops(s: ParseState, node: NodeId, fuel: nat)
    requires
        walk_close(s, node, fuel) is Some,
    ensures
        walk_close(s, node, fuel)->0.nodes.len() == s.nodes.len(),
        walk_close(s, node, fuel)->0.stack == s.stack,
        walk_close(s, node, fuel)->0.root_index == if s.root_index != 0 { s.root_index - 1 } else { s.root_index },
    decreases fuel,
{
    let n = node.index as int;
    if s.nodes[n].data != RegexBuildingBlock::OpeningBraces {
        lemma_walk_close_pops(s, s.nodes[n].right->0, (fuel - 1) as nat);
    }
}

/// An opening brace either stays at the current level of the stack of roots or goes exactly
/// one level deeper; when it goes deeper, the new root is a new opening brace.
pub proof fn lemma_open_brace_pushes(s: ParseState, alphanumeric: bool, numeric: bool)
    requires
        wf(s),
        s.nodes.len() + 2 <= usize::MAX,
        step(s, '(', alphanumeric, numeric) is Some,
    ensures
        ({
            let t = step(s, '(', alphanumeric, numeric)->0;
            &&& t.root_index == s.root_index || t.root_index == s.root_index + 1
            &&& t.root_index == s.root_index + 1 ==> t.nodes[root(t).index as int].data == RegexBuildingBlock::OpeningBraces
        }),
{
    if s.nodes.len() > 0 {
        lemma_walk_open_pushes(s, root(s), root(s), true, s.nodes.len());
    }
}

proof fn lemma_walk_open_pushes(s: ParseState, node: NodeId, last: NodeId, upd: bool, fuel: nat)
    requires
        wf(s),
        s.nodes.len() + 2 <= usize::MAX,
        last.index < s.nodes.len(),
        walk_open(s, node, last, upd, fuel) is Some,
    ensures
        ({
            let t = walk_open(s, node, last, upd, fuel)->0;
            &&& t.root_index == s.root_index || t.root_index == s.root_index + 1
            &&& t.root_index == s.root_index + 1 ==> t.nodes[root(t).index as int].data == RegexBuildingBlock::OpeningBraces
        }),
    decreases fuel,
{
    let nodes = s.nodes;
    let n = node.index as int;
    match nodes[n].data {
        RegexBuildingBlock::OpeningBraces => {
            if let Some(r) = nodes[n].right {
                lemma_walk_open_pushes(s, r, node, false, (fuel - 1) as nat);
            }
        },
        RegexBuildingBlock::Or => {
            if let Some(r) = nodes[n].right {
                lemma_walk_open_pushes(ParseState { left: false, ..s }, r, node, false, (fuel - 1) as nat);
            }
        },
        _ => {},
    }
}

/// Each character of `rest`, followed by the mark of the concatenation that joins it to what
/// came before it.
pub open spec fn marked(rest: Seq<char>) -> Seq<char>
    decreases rest.len(),
{
    if rest.len() == 0 {
        Seq::empty()
    } else {
        marked(rest.drop_last()) + seq![rest.last(), '#']
    }
}

/// Reading `a` and then `b` is reading `a + b`.
pub proof fn lemma_run_append(s: ParseState, a: Seq<char>, b: Seq<char>)
    ensures
        run(s, a + b) == (match run(s, a) {
            Some(t) => run(t, b),
            None => None,
        }),
    decreases a.len(),
{
    if a.len() == 0 {
        assert(a + b =~= b);
    } else {
        assert((a + b)[0] == a[0]);
        assert((a + b).drop_first() =~= a.drop_first() + b);
        if let Some(t) = step(s, a[0], char_is_alphanumeric(a[0]), char_is_numeric(a[0])) {
            lemma_run_append(t, a.drop_first(), b);
        }
    }
}

/// Appending nodes leaves the traversal of a subtree that finished unchanged.
proof fn lemma_postfix_extend(nodes: Seq<Node<RegexBuildingBlock>>, more: Seq<Node<RegexBuildingBlock>>, i: int, fuel: nat)
    requires
        nodes.len() <= more.len(),
        forall|j: int| 0 <= j < nodes.len() ==> #[trigger] more[j] == nodes[j],
        postfix_within(nodes, i, fuel) is Some,
    ensures
        postfix_within(more, i, fuel) == postfix_within(nodes, i, fuel),
    decreases fuel,
{
    if fuel > 0 && 0 <= i < nodes.len() {
        assert(more[i] == nodes[i]);
        if let Some(c) = nodes[i].left {
            lemma_postfix_extend(nodes, more, c.index as int, (fuel - 1) as nat);
        }
        if let Some(c) = nodes[i].right {
            lemma_postfix_extend(nodes, more, c.index as int, (fuel - 1) as nat);
        }
    }
}

/// A tree that plain characters have built: its root is a literal or a concatenation, and its
/// postfix text is `text`.
pub open spec fn chain(t: ParseState, text: Seq<char>) -> bool {
    &&& !t.class_mode
    &&& !t.repeat_mode
    &&& 0 <= t.root_index < t.stack.len()
    &&& 0 <= root(t).index < t.nodes.len()
    &&& (t.nodes[root(t).index as int].data is Concatenation || t.nodes[root(t).index as int].data is CharacterLiteral)
    &&& postfix_of(t.nodes, root(t).index as int) == Some(text)
}

/// One more plain character concatenates it to the whole tree.
proof fn lemma_chain_step(t: ParseState, text: Seq<char>, c: char, alphanumeric: bool, numeric: bool)
    requires
        chain(t, text),
        is_plain(c),
        t.nodes.len() + 2 <= usize::MAX,
    ensures
        step(t, c, alphanumeric, numeric) is Some,
        chain(step(t, c, alphanumeric, numeric)->0, text + seq![c, '#']),
        step(t, c, alphanumeric, numeric)->0.nodes.len() == t.nodes.len() + 2,
{
    let nodes = t.nodes;
    let len = nodes.len() as int;
    let n = root(t).index as int;
    let lit = RegexBuildingBlock::CharacterLiteral(c);
    let u = step(t, c, alphanumeric, numeric)->0;
    assert(u.nodes == crate::builder::concat_with(nodes, n, lit));
    assert(root(u) == id_of(len));
    let more = u.nodes;
    assert(more.len() == len + 2);
    assert(forall|j: int| 0 <= j < len ==> #[trigger] more[j] == nodes[j]);
    assert(id_of(n).index as int == n);
    assert(id_of(len + 1).index as int == len + 1);
    assert(more[len].left == Some(id_of(n)));
    assert(more[len].right == Some(id_of(len + 1)));
    assert(more[len].data == RegexBuildingBlock::Concatenation);
    assert(more[len + 1] == leaf(lit));
    lemma_postfix_fuel_monotone(nodes, n, nodes.len(), (len + 1) as nat);
    lemma_postfix_extend(nodes, more, n, (len + 1) as nat);
    assert(block_text(lit) == seq![c]);
    assert(block_text(RegexBuildingBlock::Concatenation) == seq!['#']);
    assert(postfix_within(more, len + 1, (len + 1) as nat) == Some(Seq::<char>::empty() + Seq::<char>::empty() + seq![c]));
    assert(Seq::<char>::empty() + Seq::<char>::empty() + seq![c] =~= seq![c]);
    assert(text + seq![c] + seq!['#'] =~= text + seq![c, '#']);
    assert(postfix_within(more, n, (len + 1) as nat) == Some(text));
    assert(postfix_within(more, len, (len + 2) as nat) == Some(text + seq![c] + seq!['#']));
}

/// The first plain character is a tree of its own.
proof fn lemma_chain_start(c: char)
    requires
        is_plain(c),
    ensures
        step(initial_state(), c, char_is_alphanumeric(c), char_is_numeric(c)) is Some,
        chain(step(initial_state(), c, char_is_alphanumeric(c), char_is_numeric(c))->0, seq![c]),
        step(initial_state(), c, char_is_alphanumeric(c), char_is_numeric(c))->0.nodes.len() == 1,
{
    let s0 = initial_state();
    let t = step(s0, c, char_is_alphanumeric(c), char_is_numeric(c))->0;
    assert(t.nodes == seq![leaf(RegexBuildingBlock::CharacterLiteral(c))]);
    assert(root(t).index == 0);
    assert(block_text(RegexBuildingBlock::CharacterLiteral(c)) == seq![c]);
    assert(postfix_within(t.nodes, 0, 1) == Some(Seq::<char>::empty() + Seq::<char>::empty() + seq![c]));
    assert(Seq::<char>::empty() + Seq::<char>::empty() + seq![c] =~= seq![c]);
}

/// Plain characters alone convert to the first of them, then each of the others followed by
/// `#`: every concatenation is marked, and they are joined from the left.
pub proof fn lemma_plain_chain(input: Seq<char>)
    requires
        input.len() >= 1,
        forall|i: int| 0 <= i < input.len() ==> is_plain(#[trigger] input[i]),
        2 * input.len() <= usize::MAX,
    ensures
        infix_to_postfix_spec(input) == Some(seq![input[0]] + marked(input.drop_first())),
{
    lemma_plain_run(input);
}

proof fn lemma_plain_run(input: Seq<char>)
    requires
        input.len() >= 1,
        forall|i: int| 0 <= i < input.len() ==> is_plain(#[trigger] input[i]),
        2 * input.len() <= usize::MAX,
    ensures
        run(initial_state(), input) is Some,
        chain(run(initial_state(), input)->0, seq![input[0]] + marked(input.drop_first())),
        run(initial_state(), input)->0.nodes.len() == 2 * input.len() - 1,
    decreases input.len(),
{
    let s0 = initial_state();
    if input.len() == 1 {
        lemma_chain_start(input[0]);
        assert(input =~= seq![input[0]]);
        let t = step(s0, input[0], char_is_alphanumeric(input[0]), char_is_numeric(input[0]))->0;
        assert(input.drop_first() =~= Seq::<char>::empty());
        assert(run(t, input.drop_first()) == Some(t));
        assert(marked(Seq::<char>::empty()) =~= Seq::<char>::empty());
        assert(seq![input[0]] + Seq::<char>::empty() =~= seq![input[0]]);
    } else {
        let p = input.drop_last();
        let c = input.last();
        assert(forall|i: int| 0 <= i < p.len() ==> p[i] == input[i]);
        lemma_plain_run(p);
        assert(input =~= p + seq![c]);
        lemma_run_append(s0, p, seq![c]);
        let t = run(s0, p)->0;
        let text = seq![p[0]] + marked(p.drop_first());
        assert(is_plain(input[input.len() - 1]));
        lemma_chain_step(t, text, c, char_is_alphanumeric(c), char_is_numeric(c));
        let u = step(t, c, char_is_alphanumeric(c), char_is_numeric(c))->0;
        assert(seq![c].drop_first() =~= Seq::<char>::empty());
        assert(seq![c][0] == c);
        assert(run(u, seq![c].drop_first()) == Some(u));
        assert(run(t, seq![c]) == Some(u));
        let rest = input.drop_first();
        assert(rest.drop_last() =~= p.drop_first());
        assert(rest.last() == c);
        assert(marked(rest) == marked(p.drop_first()) + seq![c, '#']);
        assert(text + seq![c, '#'] =~= seq![input[0]] + marked(rest));
    }
}

/// The alternative of `done` and `word` where there is one, else the word alone.
pub open spec fn joined(done: Seq<char>, word: Seq<char>, alt: bool) -> Seq<char> {
    if alt {
        done + word + seq!['|']
    } else {
        word
    }
}

/// Changing the node `p` leaves the traversal from a node of lower rank unchanged.
proof fn lemma_postfix_frame(nodes: Seq<Node<RegexBuildingBlock>>, more: Seq<Node<RegexBuildingBlock>>, rank: Seq<int>, p: int, i: int, fuel: nat)
    requires
        ranked(nodes, rank),
        0 <= i < nodes.len(),
        0 <= p < nodes.len(),
        rank[i] < rank[p],
        nodes.len() <= more.len(),
        forall|j: int| 0 <= j < nodes.len() && j != p ==> #[trigger] more[j] == nodes[j],
    ensures
        postfix_within(more, i, fuel) == postfix_within(nodes, i, fuel),
    decreases fuel,
{
    if fuel > 0 {
        assert(more[i] == nodes[i]);
        assert(link_below(nodes, rank, i, nodes[i].left));
        assert(link_below(nodes, rank, i, nodes[i].right));
        if let Some(c) = nodes[i].left {
            lemma_postfix_frame(nodes, more, rank, p, c.index as int, (fuel - 1) as nat);
        }
        if let Some(c) = nodes[i].right {
            lemma_postfix_frame(nodes, more, rank, p, c.index as int, (fuel - 1) as nat);
        }
    }
}

/// The characters of `text` that stand for themselves, in order.
pub open spec fn operands(text: Seq<char>) -> Seq<char>
    decreases text.len(),
{
    if text.len() == 0 {
        Seq::empty()
    } else if is_plain(text.last()) {
        operands(text.drop_last()).push(text.last())
    } else {
        operands(text.drop_last())
    }
}

/// The number of `|` in `text`.
pub open spec fn bars(text: Seq<char>) -> nat
    decreases text.len(),
{
    if text.len() == 0 {
        0
    } else if text.last() == '|' {
        bars(text.drop_last()) + 1
    } else {
        bars(text.drop_last())
    }
}

/// Whether `text` holds no brace.
pub open spec fn brace_free(text: Seq<char>) -> bool {
    forall|i: int| 0 <= i < text.len() ==> text[i] != '(' && #[trigger] text[i] != ')'
}

proof fn lemma_operands_bars_append(a: Seq<char>, b: Seq<char>)
    ensures
        operands(a + b) == operands(a) + operands(b),
        bars(a + b) == bars(a) + bars(b),
    decreases b.len(),
{
    if b.len() == 0 {
        assert(a + b =~= a);
        assert(operands(a) + operands(b) =~= operands(a));
    } else {
        lemma_operands_bars_append(a, b.drop_last());
        assert((a + b).drop_last() =~= a + b.drop_last());
        assert((a + b).last() == b.last());
        assert(operands(a) + operands(b.drop_last()).push(b.last()) =~= (operands(a) + operands(b.drop_last())).push(b.last()));
    }
}

proof fn lemma_operands_single(c: char)
    ensures
        operands(seq![c]) == (if is_plain(c) { seq![c] } else { Seq::<char>::empty() }),
        bars(seq![c]) == (if c == '|' { 1nat } else { 0nat }),
{
    assert(seq![c].drop_last() =~= Seq::<char>::empty());
    assert(seq![c].last() == c);
    assert(operands(Seq::<char>::empty()) == Seq::<char>::empty());
    assert(bars(Seq::<char>::empty()) == 0);
    assert(Seq::<char>::empty().push(c) =~= seq![c]);
}

/// Whether `c` is one of the repeat operators `+`, `*` and `?`.
pub open spec fn is_repeat_op(c: char) -> bool {
    c == '+' || c == '*' || c == '?'
}

/// What reading an input without braces has built so far: the postfix text of what comes
/// before the last `|`, the postfix text of the word after it, whether there is a `|`, how many
/// characters or classes that word has, whether its only one carries a repeat, and the state of
/// `[...]` and `{...}`.
pub struct Reading {
    pub done: Seq<char>,
    pub word: Seq<char>,
    pub alt: bool,
    pub n: nat,
    pub repeated: bool,
    pub class: bool,
    pub count: bool,
    pub start: Option<char>,
    pub end: Option<char>,
}

/// Nothing read yet.
pub open spec fn start_reading() -> Reading {
    Reading {
        done: Seq::empty(),
        word: Seq::empty(),
        alt: false,
        n: 0,
        repeated: false,
        class: false,
        count: false,
        start: None,
        end: None,
    }
}

/// A class or a single character with text `text` added to the word.
pub open spec fn add_atom(r: Reading, text: Seq<char>) -> Reading {
    if r.n == 0 {
        Reading { word: text, n: 1, repeated: false, ..r }
    } else {
        Reading { word: r.word + text + seq!['#'], n: r.n + 1, repeated: false, ..r }
    }
}

/// A repeat with text `text` put on the last character or class of the word.
pub open spec fn add_repeat(r: Reading, text: Seq<char>) -> Reading {
    if r.n == 1 {
        Reading { word: r.word + text, repeated: true, ..r }
    } else {
        Reading { word: r.word.drop_last() + text + seq!['#'], ..r }
    }
}

/// Reading the character `c` (not a brace); `None` where the conversion refuses it.
pub open spec fn read_char(r: Reading, c: char) -> Option<Reading> {
    if c == '!' || c == '#' {
        None
    } else if c == '|' {
        if !r.alt && r.n == 0 {
            None
        } else {
            Some(Reading { done: joined(r.done, r.word, r.alt), word: Seq::empty(), alt: true, n: 0, repeated: false, ..r })
        }
    } else if is_repeat_op(c) {
        if r.n == 0 || (r.n == 1 && r.repeated) {
            None
        } else {
            Some(add_repeat(r, seq![c]))
        }
    } else if c == '{' {
        if r.class || r.count { None } else { Some(Reading { count: true, ..r }) }
    } else if c == '[' {
        if r.class || r.count { None } else { Some(Reading { class: true, ..r }) }
    } else if c == '-' {
        Some(r)
    } else if c == '}' {
        let a = held(r.start);
        let b = if r.end is Some { held(r.end) } else { a };
        if !r.count || r.start is None || low_byte(a) < 0x30 || low_byte(b) < 0x30 {
            None
        } else {
            let text = block_text(RegexBuildingBlock::Repeat((low_byte(a) - 0x30) as u8, (low_byte(b) - 0x30) as u8));
            let closed = Reading { count: false, start: None, end: None, ..r };
            if !r.alt && r.n == 0 {
                Some(Reading { word: text, n: 1, repeated: true, ..closed })
            } else if r.alt || (r.n == 1 && r.repeated) {
                None
            } else {
                Some(add_repeat(closed, text))
            }
        }
    } else if c == ']' {
        if !r.class || r.start is None || r.end is None || r.alt {
            None
        } else {
            let text = block_text(RegexBuildingBlock::CharacterClass(held(r.start), held(r.end)));
            Some(add_atom(Reading { class: false, start: None, end: None, ..r }, text))
        }
    } else if r.class {
        if !char_is_alphanumeric(c) {
            None
        } else if r.start is None {
            Some(Reading { start: Some(c), ..r })
        } else {
            Some(Reading { end: Some(c), ..r })
        }
    } else if r.count {
        if !char_is_numeric(c) && c != ',' {
            None
        } else if r.start is None {
            Some(Reading { start: Some(c), end: Some(c), ..r })
        } else {
            Some(Reading { end: Some(c), ..r })
        }
    } else {
        Some(add_atom(r, seq![c]))
    }
}

/// Reading `input`, a character at a time.
pub open spec fn unbraced(input: Seq<char>) -> Option<Reading>
    decreases input.len(),
{
    if input.len() == 0 {
        Some(start_reading())
    } else {
        match unbraced(input.drop_last()) {
            None => None,
            Some(r) => read_char(r, input.last()),
        }
    }
}

/// The conversion of an input without braces, as [`unbraced`] reads it: concatenations and
/// alternatives joined from the left and marked by `#` and `|`, each repeat right after the
/// character or class it applies to.
pub open spec fn unbraced_text(input: Seq<char>) -> Option<Seq<char>> {
    match unbraced(input) {
        Some(r) => if !r.alt && r.n == 0 { None } else { Some(joined(r.done, r.word, r.alt)) },
        None => None,
    }
}

/// The tree of `t` is as `r` describes it, and so are its brackets.
pub open spec fn reads(t: ParseState, r: Reading) -> bool {
    &&& tree_state(t, r.done, r.word, r.alt, r.n, r.repeated)
    &&& t.class_mode == r.class
    &&& t.repeat_mode == r.count
    &&& t.start == r.start
    &&& t.end == r.end
}

/// The tree built from such an input: as [`unbraced`] describes it, with the kind of node
/// that holds the word and, under an alternative, the text of its left side kept in the nodes
/// that were there when the alternative was made.
pub open spec fn tree_state(t: ParseState, done: Seq<char>, word: Seq<char>, alt: bool, n: nat, repeated: bool) -> bool {
    let nodes = t.nodes;
    let len = nodes.len() as int;
    &&& 0 <= t.root_index < t.stack.len()
    &&& (n == 0 ==> word.len() == 0)
    &&& (n >= 2 ==> word.len() > 0 && word.last() == '#')
    &&& if !alt {
        &&& done.len() == 0
        &&& (n == 0 ==> len == 0)
        &&& (n >= 1 ==> {
            let w = root(t).index as int;
            &&& 0 <= w < len
            &&& postfix_of(nodes, w) == Some(word)
            &&& word_node(nodes, w, n, repeated, false)
        })
    } else {
        let o = root(t).index as int;
        &&& 0 <= o < len
        &&& nodes[o].data is Or
        &&& nodes[o].left matches Some(l) && postfix_within(nodes.take(o), l.index as int, o as nat) == Some(done)
        &&& (n == 0 ==> nodes[o].right is None)
        &&& (n >= 1 ==> (match nodes[o].right {
            Some(r) => {
                let w = r.index as int;
                &&& o < w < len
                &&& postfix_of(nodes, w) == Some(word)
                &&& word_node(nodes, w, n, repeated, true)
            },
            None => false,
        }))
    }
}

/// Whether the root of `t` is a closed group.
pub open spec fn root_closed(t: ParseState) -> bool {
    t.nodes.len() > 0 && t.nodes[root(t).index as int].data is ClosedBraces
}

/// `u` is in the same bracket mode as `t`, with the same characters collected.
pub open spec fn same_modes(t: ParseState, u: ParseState) -> bool {
    &&& u.class_mode == t.class_mode
    &&& u.repeat_mode == t.repeat_mode
    &&& u.start == t.start
    &&& u.end == t.end
}

/// The kind of node that holds a word of `n` characters or classes: a literal or a class, a
/// repeat above one, or a concatenation whose right side is the last of them, possibly below
/// repeats (under an alternative) or gone above into them (at the root).
pub open spec fn word_node(nodes: Seq<Node<RegexBuildingBlock>>, w: int, n: nat, repeated: bool, under_alt: bool) -> bool {
    if n == 1 && !repeated {
        nodes[w].data is CharacterLiteral || nodes[w].data is CharacterClass || nodes[w].data is ClosedBraces
    } else if n == 1 {
        nodes[w].data is Repeat && (!under_alt ==> nodes[w].right is None)
    } else {
        &&& nodes[w].data is Concatenation
        &&& match nodes[w].right {
            None => !under_alt,
            Some(x) => 0 <= x.index < nodes.len() && (nodes[x.index as int].data is CharacterLiteral
                || nodes[x.index as int].data is CharacterClass || nodes[x.index as int].data is ClosedBraces
                || (under_alt && nodes[x.index as int].data is Repeat)),
        }
    }
}

/// The text of the whole tree of such a state.
#[verifier::spinoff_prover]
#[verifier::rlimit(60)]
proof fn lemma_tree_text(t: ParseState, done: Seq<char>, word: Seq<char>, alt: bool, n: nat, repeated: bool)
    requires
        tree_state(t, done, word, alt, n, repeated),
        acyclic(t.nodes),
        alt || n >= 1,
    ensures
        postfix_of(t.nodes, root(t).index as int) == Some(joined(done, word, alt)),
{
    if alt {
        let nodes = t.nodes;
        let len = nodes.len();
        let o = root(t).index as int;
        let rank = choose|r: Seq<int>| ranked(nodes, r);
        assert(nodes[o] == nodes[o]);
        assert(link_below(nodes, rank, o, nodes[o].left));
        assert(link_below(nodes, rank, o, nodes[o].right));
        let l = nodes[o].left->0.index as int;
        assert(forall|j: int| 0 <= j < o ==> #[trigger] nodes[j] == nodes.take(o)[j]);
        lemma_postfix_extend(nodes.take(o), nodes, l, o as nat);
        lemma_postfix_fuel_monotone(nodes, l, o as nat, (len - 1) as nat);
        assert(block_text(RegexBuildingBlock::Or) == seq!['|']);
        if let Some(r) = nodes[o].right {
            lemma_ranked_postfix(nodes, rank, r.index as int, (len - 1) as nat);
            lemma_postfix_fuel_monotone(nodes, r.index as int, (len - 1) as nat, len);
        } else {
            assert(done + Seq::<char>::empty() + seq!['|'] =~= done + word + seq!['|']);
        }
    }
}

/// A first block alone makes a word of one character.
proof fn lemma_tree_leaf(t: ParseState, u: ParseState, a: RegexBuildingBlock)
    requires
        tree_state(t, Seq::empty(), Seq::empty(), false, 0, false),
        wf(t),
        u.nodes == t.nodes.push(leaf(a)),
        u.stack == t.stack,
        u.root_index == t.root_index,
        a is CharacterLiteral || a is CharacterClass || a is Repeat,
    ensures
        tree_state(u, Seq::empty(), block_text(a), false, 1, a is Repeat),
        !root_closed(u),
{
    assert(t.stack[t.root_index].index < 1);
    assert(u.nodes == seq![leaf(a)]);
    assert(root(u).index == 0);
    assert(postfix_within(u.nodes, 0, 1) == Some(Seq::<char>::empty() + Seq::<char>::empty() + block_text(a)));
    assert(Seq::<char>::empty() + Seq::<char>::empty() + block_text(a) =~= block_text(a));
}

/// A character or class concatenated above the root adds its text and a `#`.
#[verifier::spinoff_prover]
#[verifier::rlimit(60)]
proof fn lemma_tree_concat_root(t: ParseState, done: Seq<char>, word: Seq<char>, n: nat, repeated: bool, u: ParseState, a: RegexBuildingBlock)
    requires
        tree_state(t, done, word, false, n, repeated),
        n >= 1,
        wf(t),
        t.nodes.len() + 2 <= usize::MAX,
        u.nodes == crate::builder::concat_with(t.nodes, root(t).index as int, a),
        u.root_index == t.root_index,
        u.stack == t.stack.update(t.root_index, id_of(t.nodes.len() as int)),
        a is CharacterLiteral || a is CharacterClass,
    ensures
        tree_state(u, done, word + block_text(a) + seq!['#'], false, n + 1, false),
        !root_closed(u),
{
    let nodes = t.nodes;
    let len = nodes.len() as int;
    let o = root(t).index as int;
    let m = u.nodes;
    assert(id_of(len).index as int == len);
    assert(id_of(len + 1).index as int == len + 1);
    assert(block_text(RegexBuildingBlock::Concatenation) == seq!['#']);
    assert(root(u) == id_of(len));
    assert(forall|j: int| 0 <= j < len ==> #[trigger] m[j] == nodes[j]);
    lemma_postfix_fuel_monotone(nodes, o, nodes.len(), (len + 1) as nat);
    lemma_postfix_extend(nodes, m, o, (len + 1) as nat);
    assert(m[len].left == Some(id_of(o)));
    assert(m[len].right == Some(id_of(len + 1)));
    assert(m[len + 1] == leaf(a));
    assert(postfix_within(m, len + 1, (len + 1) as nat) == Some(Seq::<char>::empty() + Seq::<char>::empty() + block_text(a)));
    assert(Seq::<char>::empty() + Seq::<char>::empty() + block_text(a) =~= block_text(a));
    assert(postfix_within(m, len, (len + 2) as nat) == Some(word + block_text(a) + seq!['#']));
    assert((word + block_text(a) + seq!['#']).last() == '#');
}

/// A repeat put above a root that is a single character adds its text.
#[verifier::spinoff_prover]
#[verifier::rlimit(60)]
proof fn lemma_tree_wrap_root(t: ParseState, done: Seq<char>, word: Seq<char>, u: ParseState, a: RegexBuildingBlock)
    requires
        tree_state(t, done, word, false, 1, false),
        wf(t),
        t.nodes.len() + 1 <= usize::MAX,
        u.nodes == crate::arena::wrap(t.nodes, root(t).index as int, a),
        u.root_index == t.root_index,
        u.stack == t.stack.update(t.root_index, id_of(t.nodes.len() as int)),
        a is Repeat,
    ensures
        tree_state(u, done, word + block_text(a), false, 1, true),
        !root_closed(u),
{
    let nodes = t.nodes;
    let len = nodes.len() as int;
    let o = root(t).index as int;
    let m = u.nodes;
    assert(id_of(len).index as int == len);
    assert(root(u).index == len);
    assert(forall|j: int| 0 <= j < len ==> #[trigger] m[j] == nodes[j]);
    lemma_postfix_extend(nodes, m, o, len as nat);
    assert(m[len].left == Some(id_of(o)));
    assert(id_of(o).index as int == o);
    assert(word + Seq::<char>::empty() + block_text(a) =~= word + block_text(a));
    assert(postfix_within(m, len, (len + 1) as nat) == Some(word + Seq::<char>::empty() + block_text(a)));
}

/// A repeat put on a root that joins several characters goes before its `#`.
#[verifier::spinoff_prover]
#[verifier::rlimit(40)]
proof fn lemma_tree_rewrap_root(t: ParseState, done: Seq<char>, word: Seq<char>, n: nat, repeated: bool, u: ParseState, a: RegexBuildingBlock)
    requires
        tree_state(t, done, word, false, n, repeated),
        n >= 2,
        wf(t),
        t.nodes.len() + 1 <= usize::MAX,
        u.nodes == crate::arena::wrap(with_data(t.nodes, root(t).index as int, a), root(t).index as int, RegexBuildingBlock::Concatenation),
        u.root_index == t.root_index,
        u.stack == t.stack.update(t.root_index, id_of(t.nodes.len() as int)),
        a is Repeat,
    ensures
        tree_state(u, done, word.drop_last() + block_text(a) + seq!['#'], false, n, repeated),
        !root_closed(u),
{
    let nodes = t.nodes;
    let len = nodes.len() as int;
    let o = root(t).index as int;
    let m = u.nodes;
    assert(block_text(RegexBuildingBlock::Concatenation) == seq!['#']);
    assert(id_of(len).index as int == len);
    let rank = choose|r: Seq<int>| ranked(nodes, r);
    assert(nodes[o] == nodes[o]);
    assert(link_below(nodes, rank, o, nodes[o].left));
    assert(link_below(nodes, rank, o, nodes[o].right));
    assert(root(u).index == len);
    assert(forall|j: int| 0 <= j < len && j != o ==> #[trigger] m[j] == nodes[j]);
    assert(m[o].left == nodes[o].left && m[o].right == nodes[o].right && m[o].data == a);
    let f = (len - 1) as nat;
    if let Some(x) = nodes[o].left {
        lemma_postfix_frame(nodes, m, rank, o, x.index as int, f);
    }
    if let Some(x) = nodes[o].right {
        lemma_postfix_frame(nodes, m, rank, o, x.index as int, f);
    }
    let lt = match nodes[o].left {
        Some(x) => postfix_within(nodes, x.index as int, f),
        None => Some(Seq::<char>::empty()),
    };
    let rt = match nodes[o].right {
        Some(x) => postfix_within(nodes, x.index as int, f),
        None => Some(Seq::<char>::empty()),
    };
    assert(postfix_within(nodes, o, len as nat) == Some(lt->0 + rt->0 + seq!['#']));
    assert(word =~= lt->0 + rt->0 + seq!['#']);
    assert(word.drop_last() =~= lt->0 + rt->0);
    assert(postfix_within(m, o, len as nat) == Some(lt->0 + rt->0 + block_text(a)));
    lemma_postfix_fuel_monotone(m, o, len as nat, (len + 1) as nat);
    assert(m[len].left == Some(id_of(o)));
    assert(id_of(o).index as int == o);
    assert(lt->0 + rt->0 + block_text(a) + Seq::<char>::empty() + seq!['#'] =~= word.drop_last() + block_text(a) + seq!['#']);
    assert(postfix_within(m, len, (len + 2) as nat) == Some(word.drop_last() + block_text(a) + seq!['#']));
    assert((word.drop_last() + block_text(a) + seq!['#']).last() == '#');
}

/// A plain character read into such a state.
#[verifier::spinoff_prover]
#[verifier::rlimit(40)]
proof fn lemma_tree_plain(t: ParseState, done: Seq<char>, word: Seq<char>, alt: bool, n: nat, repeated: bool, c: char)
    requires
        tree_state(t, done, word, alt, n, repeated),
        wf(t),
        is_plain(c),
        !t.class_mode,
        !t.repeat_mode,
        t.nodes.len() + 2 <= usize::MAX,
    ensures
        step(t, c, char_is_alphanumeric(c), char_is_numeric(c)) is Some,
        same_modes(t, step(t, c, char_is_alphanumeric(c), char_is_numeric(c))->0),
        n == 0 ==> tree_state(step(t, c, char_is_alphanumeric(c), char_is_numeric(c))->0, done, seq![c], alt, 1, false),
        n >= 1 ==> tree_state(step(t, c, char_is_alphanumeric(c), char_is_numeric(c))->0, done, word + seq![c, '#'], alt, n + 1, false),
        !root_closed(t) ==> !root_closed(step(t, c, char_is_alphanumeric(c), char_is_numeric(c))->0),
        step(t, c, char_is_alphanumeric(c), char_is_numeric(c))->0.root_index == t.root_index && step(t, c, char_is_alphanumeric(c), char_is_numeric(c))->0.stack.len() == t.stack.len(),
{
    let nodes = t.nodes;
    let len = nodes.len() as int;
    let top = root(t);
    let o = top.index as int;
    let lit = RegexBuildingBlock::CharacterLiteral(c);
    let u = step(t, c, char_is_alphanumeric(c), char_is_numeric(c))->0;
    assert(id_of(len).index as int == len);
    assert(id_of(len + 1).index as int == len + 1);
    assert(block_text(lit) == seq![c]);
    assert(block_text(RegexBuildingBlock::Concatenation) == seq!['#']);
    assert(Seq::<char>::empty() + Seq::<char>::empty() + seq![c] =~= seq![c]);
    assert(word + seq![c] + seq!['#'] =~= word + seq![c, '#']);
    assert((word + seq![c, '#']).last() == '#');
    if !alt && n == 0 {
        assert(u.nodes == t.nodes.push(leaf(lit)));
        lemma_tree_leaf(t, u, lit);
    } else if !alt {
        assert(u.nodes == crate::builder::concat_with(nodes, o, lit));
        assert(u.stack == t.stack.update(t.root_index, id_of(len)));
        lemma_tree_concat_root(t, done, word, n, repeated, u, lit);
    } else {
        let rank = choose|r: Seq<int>| ranked(nodes, r);
        assert(nodes[o] == nodes[o]);
        assert(link_below(nodes, rank, o, nodes[o].left));
        assert(link_below(nodes, rank, o, nodes[o].right));
        if n == 0 {
            assert(u.nodes == with_new_right(nodes, o, lit));
            assert(root(u).index == o);
            let m = u.nodes;
            assert(m.take(o) =~= nodes.take(o));
            assert(m[len] == leaf(lit));
            assert(postfix_within(m, len, (len + 1) as nat) == Some(Seq::<char>::empty() + Seq::<char>::empty() + seq![c]));
        } else {
            let rr = nodes[o].right->0;
            let r = rr.index as int;
            let pair = crate::builder::concat_with(nodes, r, lit);
            let t2 = ParseState { left: false, ..t };
            assert(crate::builder::walk_literal(t, lit, top, top, top, true, len as nat)
                == crate::builder::walk_literal(t2, lit, top, rr, top, false, (len - 1) as nat));
            assert(crate::builder::walk_literal(t2, lit, top, rr, top, false, (len - 1) as nat)
                == Some(crate::builder::place_concat(t2, pair, len, top, false, false)));
            assert(step(t, c, char_is_alphanumeric(c), char_is_numeric(c))
                == crate::builder::walk_literal(t, lit, top, top, top, true, len as nat));
            assert(u.nodes == with_right(pair, o, Some(id_of(len))));
            assert(root(u).index == o);
            let m = u.nodes;
            assert(forall|j: int| 0 <= j < len && j != o ==> #[trigger] m[j] == nodes[j]);
            assert(m.take(o) =~= nodes.take(o));
            lemma_postfix_frame(nodes, m, rank, o, r, len as nat);
            lemma_postfix_fuel_monotone(m, r, len as nat, (len + 1) as nat);
            assert(id_of(r).index as int == r);
            assert(m[len].left == Some(id_of(r)));
            assert(m[len].right == Some(id_of(len + 1)));
            assert(m[len + 1] == leaf(lit));
            assert(postfix_within(m, len + 1, (len + 1) as nat) == Some(Seq::<char>::empty() + Seq::<char>::empty() + seq![c]));
            assert(postfix_within(m, len, (len + 2) as nat) == Some(word + seq![c] + seq!['#']));
        }
    }
}

/// A `|` read into such a state.
#[verifier::spinoff_prover]
#[verifier::rlimit(60)]
proof fn lemma_tree_bar(t: ParseState, done: Seq<char>, word: Seq<char>, alt: bool, n: nat, repeated: bool)
    requires
        tree_state(t, done, word, alt, n, repeated),
        wf(t),
        t.nodes.len() + 2 <= usize::MAX,
    ensures
        (!alt && n == 0) <==> step(t, '|', char_is_alphanumeric('|'), char_is_numeric('|')) is None,
        !(!alt && n == 0) ==> same_modes(t, step(t, '|', char_is_alphanumeric('|'), char_is_numeric('|'))->0),
        !(!alt && n == 0) ==> tree_state(
            step(t, '|', char_is_alphanumeric('|'), char_is_numeric('|'))->0,
            joined(done, word, alt), Seq::empty(), true, 0, false,
        ),
        !(!alt && n == 0) ==> !root_closed(step(t, '|', char_is_alphanumeric('|'), char_is_numeric('|'))->0),
        !(!alt && n == 0) ==> step(t, '|', char_is_alphanumeric('|'), char_is_numeric('|'))->0.root_index == t.root_index && step(t, '|', char_is_alphanumeric('|'), char_is_numeric('|'))->0.stack.len() == t.stack.len(),
{
    if alt || n >= 1 {
        let nodes = t.nodes;
        let len = nodes.len() as int;
        let o = root(t).index as int;
        let u = step(t, '|', char_is_alphanumeric('|'), char_is_numeric('|'))->0;
        lemma_tree_text(t, done, word, alt, n, repeated);
        assert(id_of(len).index as int == len);
        assert(u.nodes == crate::arena::wrap(nodes, o, RegexBuildingBlock::Or));
        assert(root(u).index == len);
        let m = u.nodes;
        assert(m.take(len) =~= nodes);
        assert(m[len].left == Some(id_of(o)));
        assert(id_of(o).index as int == o);
    }
}

/// A repeat operator read into such a state.
#[verifier::spinoff_prover]
#[verifier::rlimit(60)]
proof fn lemma_tree_repeat(t: ParseState, done: Seq<char>, word: Seq<char>, alt: bool, n: nat, repeated: bool, c: char)
    requires
        tree_state(t, done, word, alt, n, repeated),
        wf(t),
        is_repeat_op(c),
        t.nodes.len() + 2 <= usize::MAX,
    ensures
        (n == 0 || (n == 1 && repeated)) <==> step(t, c, char_is_alphanumeric(c), char_is_numeric(c)) is None,
        !(n == 0 || (n == 1 && repeated)) ==> same_modes(t, step(t, c, char_is_alphanumeric(c), char_is_numeric(c))->0),
        n == 1 && !repeated ==> tree_state(step(t, c, char_is_alphanumeric(c), char_is_numeric(c))->0, done, word.push(c), alt, 1, true),
        n >= 2 ==> tree_state(
            step(t, c, char_is_alphanumeric(c), char_is_numeric(c))->0,
            done, word.drop_last() + seq![c, '#'], alt, n, repeated,
        ),
        !root_closed(t) && !(n == 0 || (n == 1 && repeated)) ==> !root_closed(step(t, c, char_is_alphanumeric(c), char_is_numeric(c))->0),
        !(n == 0 || (n == 1 && repeated)) ==> (step(t, c, char_is_alphanumeric(c), char_is_numeric(c))->0.root_index == t.root_index && step(t, c, char_is_alphanumeric(c), char_is_numeric(c))->0.stack.len() == t.stack.len()),
{
    assert(step(t, c, char_is_alphanumeric(c), char_is_numeric(c)) == crate::builder::step_repeat(t, c));
    if n == 0 {
    } else if !alt {
        if n == 1 && !repeated {
            lemma_tree_repeat_top_single(t, done, word, c);
        } else if n >= 2 {
            lemma_tree_repeat_top_word(t, done, word, n, repeated, c);
        }
    } else {
        let nodes = t.nodes;
        let top = root(t);
        let rr = nodes[top.index as int].right->0;
        let t2 = ParseState { left: false, ..t };
        let rep = crate::builder::repeat_of(c);
        assert(crate::builder::walk_repeat(t, rep, top, top, top, true, nodes.len())
            == crate::builder::walk_repeat(t2, rep, top, rr, top, false, (nodes.len() - 1) as nat));
        if n == 1 && !repeated {
            lemma_tree_repeat_alt_single(t, done, word, c);
        } else if n >= 2 {
            lemma_tree_repeat_alt_word(t, done, word, n, repeated, c);
        }
    }
}

proof fn lemma_tree_repeat_top_single(t: ParseState, done: Seq<char>, word: Seq<char>, c: char)
    requires
        tree_state(t, done, word, false, 1, false),
        wf(t),
        is_repeat_op(c),
        t.nodes.len() + 2 <= usize::MAX,
    ensures
        crate::builder::step_repeat(t, c) is Some,
        same_modes(t, crate::builder::step_repeat(t, c)->0),
        tree_state(crate::builder::step_repeat(t, c)->0, done, word.push(c), false, 1, true),
        !root_closed(t) ==> !root_closed(crate::builder::step_repeat(t, c)->0),
        crate::builder::step_repeat(t, c)->0.root_index == t.root_index && crate::builder::step_repeat(t, c)->0.stack.len() == t.stack.len(),
{
    let nodes = t.nodes;
    let len = nodes.len() as int;
    let rep = crate::builder::repeat_of(c);
    let u = crate::builder::step_repeat(t, c)->0;
    assert(block_text(rep) == seq![c]);
    assert(u.nodes == crate::arena::wrap(nodes, root(t).index as int, rep));
    assert(u.stack == t.stack.update(t.root_index, id_of(len)));
    lemma_tree_wrap_root(t, done, word, u, rep);
    assert(word + seq![c] =~= word.push(c));
}

#[verifier::spinoff_prover]
#[verifier::rlimit(40)]
proof fn lemma_tree_repeat_top_word(t: ParseState, done: Seq<char>, word: Seq<char>, n: nat, repeated: bool, c: char)
    requires
        tree_state(t, done, word, false, n, repeated),
        n >= 2,
        wf(t),
        is_repeat_op(c),
        t.nodes.len() + 2 <= usize::MAX,
    ensures
        crate::builder::step_repeat(t, c) is Some,
        same_modes(t, crate::builder::step_repeat(t, c)->0),
        tree_state(crate::builder::step_repeat(t, c)->0, done, word.drop_last() + seq![c, '#'], false, n, repeated),
        !root_closed(t) ==> !root_closed(crate::builder::step_repeat(t, c)->0),
        crate::builder::step_repeat(t, c)->0.root_index == t.root_index && crate::builder::step_repeat(t, c)->0.stack.len() == t.stack.len(),
{
    let nodes = t.nodes;
    let len = nodes.len() as int;
    let o = root(t).index as int;
    let rep = crate::builder::repeat_of(c);
    let u = crate::builder::step_repeat(t, c)->0;
    assert(block_text(rep) == seq![c]);
    assert(nodes[o] == nodes[o]);
    assert(descend_within(nodes, o, nodes.len()) == Some(o));
    assert(u.nodes == crate::arena::wrap(with_data(nodes, o, rep), o, RegexBuildingBlock::Concatenation));
    assert(u.stack == t.stack.update(t.root_index, id_of(len)));
    lemma_tree_rewrap_root(t, done, word, n, repeated, u, rep);
    assert(word.drop_last() + seq![c] + seq!['#'] =~= word.drop_last() + seq![c, '#']);
}

#[verifier::spinoff_prover]
#[verifier::rlimit(60)]
proof fn lemma_tree_repeat_alt_single(t: ParseState, done: Seq<char>, word: Seq<char>, c: char)
    requires
        tree_state(t, done, word, true, 1, false),
        wf(t),
        is_repeat_op(c),
        t.nodes.len() + 2 <= usize::MAX,
    ensures
        crate::builder::step_repeat(t, c) is Some,
        same_modes(t, crate::builder::step_repeat(t, c)->0),
        tree_state(crate::builder::step_repeat(t, c)->0, done, word.push(c), true, 1, true),
        !root_closed(t) ==> !root_closed(crate::builder::step_repeat(t, c)->0),
        crate::builder::step_repeat(t, c)->0.root_index == t.root_index && crate::builder::step_repeat(t, c)->0.stack.len() == t.stack.len(),
{
    let nodes = t.nodes;
    let len = nodes.len() as int;
    let top = root(t);
    let o = top.index as int;
    let rep = crate::builder::repeat_of(c);
    let u = crate::builder::step_repeat(t, c)->0;
    assert(block_text(rep) == seq![c]);
    assert(id_of(len).index as int == len);
    let rank = choose|r: Seq<int>| ranked(nodes, r);
    assert(nodes[o] == nodes[o]);
    assert(link_below(nodes, rank, o, nodes[o].left));
    assert(link_below(nodes, rank, o, nodes[o].right));
    let rr = nodes[o].right->0;
    let r = rr.index as int;
    let t2 = ParseState { left: false, ..t };
    assert(crate::builder::walk_repeat(t, rep, top, top, top, true, len as nat)
        == crate::builder::walk_repeat(t2, rep, top, rr, top, false, (len - 1) as nat));
    assert(u.nodes == with_repeat_inserted(nodes, o, rep));
    assert(root(u).index == o);
    let m = u.nodes;
    assert(forall|j: int| 0 <= j < len && j != o ==> #[trigger] m[j] == nodes[j]);
    assert(m.take(o) =~= nodes.take(o));
    lemma_postfix_frame(nodes, m, rank, o, r, len as nat);
    assert(id_of(r).index as int == r);
    assert(m[len].left == Some(id_of(r)));
    assert(word + Seq::<char>::empty() + seq![c] =~= word.push(c));
    assert(postfix_within(m, len, (len + 1) as nat) == Some(word + Seq::<char>::empty() + seq![c]));
}

#[verifier::spinoff_prover]
#[verifier::rlimit(40)]
proof fn lemma_tree_repeat_alt_word(t: ParseState, done: Seq<char>, word: Seq<char>, n: nat, repeated: bool, c: char)
    requires
        tree_state(t, done, word, true, n, repeated),
        n >= 2,
        wf(t),
        is_repeat_op(c),
        t.nodes.len() + 2 <= usize::MAX,
    ensures
        crate::builder::step_repeat(t, c) is Some,
        same_modes(t, crate::builder::step_repeat(t, c)->0),
        tree_state(crate::builder::step_repeat(t, c)->0, done, word.drop_last() + seq![c, '#'], true, n, repeated),
        !root_closed(t) ==> !root_closed(crate::builder::step_repeat(t, c)->0),
        crate::builder::step_repeat(t, c)->0.root_index == t.root_index && crate::builder::step_repeat(t, c)->0.stack.len() == t.stack.len(),
{
    let nodes = t.nodes;
    let len = nodes.len() as int;
    let top = root(t);
    let o = top.index as int;
    let rep = crate::builder::repeat_of(c);
    let u = crate::builder::step_repeat(t, c)->0;
    assert(block_text(rep) == seq![c]);
    assert(block_text(RegexBuildingBlock::Concatenation) == seq!['#']);
    assert(id_of(len).index as int == len);
    let rank = choose|r: Seq<int>| ranked(nodes, r);
    assert(nodes[o] == nodes[o]);
    assert(link_below(nodes, rank, o, nodes[o].left));
    assert(link_below(nodes, rank, o, nodes[o].right));
    let rr = nodes[o].right->0;
    let r = rr.index as int;
    assert(nodes[r] == nodes[r]);
    assert(link_below(nodes, rank, r, nodes[r].left));
    assert(link_below(nodes, rank, r, nodes[r].right));
    let t2 = ParseState { left: false, ..t };
    assert(crate::builder::walk_repeat(t, rep, top, top, top, true, len as nat)
        == crate::builder::walk_repeat(t2, rep, top, rr, top, false, (len - 1) as nat));
    let x = nodes[r].right->0.index as int;
    assert(descend_within(nodes, r, nodes.len()) == Some(r));
    assert(u.nodes == with_repeat_inserted(nodes, r, rep));
    assert(root(u).index == o);
    let m = u.nodes;
    assert(forall|j: int| 0 <= j < len && j != r ==> #[trigger] m[j] == nodes[j]);
    assert(m.take(o) =~= nodes.take(o));
    assert(m[o] == nodes[o]);
    let f = (len - 1) as nat;
    lemma_postfix_frame(nodes, m, rank, r, x, f);
    let lt = match nodes[r].left {
        Some(y) => postfix_within(nodes, y.index as int, f),
        None => Some(Seq::<char>::empty()),
    };
    if let Some(y) = nodes[r].left {
        lemma_postfix_frame(nodes, m, rank, r, y.index as int, len as nat);
        lemma_postfix_fuel_monotone(nodes, y.index as int, f, len as nat);
    }
    let xt = postfix_within(nodes, x, f);
    assert(postfix_within(nodes, r, len as nat) == Some(lt->0 + xt->0 + seq!['#']));
    assert(word =~= lt->0 + xt->0 + seq!['#']);
    assert(word.drop_last() =~= lt->0 + xt->0);
    assert(id_of(x).index as int == x);
    assert(m[len].left == Some(id_of(x)));
    assert(postfix_within(m, len, len as nat) == Some(xt->0 + Seq::<char>::empty() + seq![c]));
    assert(m[r].right == Some(id_of(len)));
    assert(lt->0 + (xt->0 + Seq::<char>::empty() + seq![c]) + seq!['#'] =~= word.drop_last() + seq![c, '#']);
    assert(postfix_within(m, r, (len + 1) as nat) == Some(word.drop_last() + seq![c, '#']));
    assert((word.drop_last() + seq![c, '#']).last() == '#');
}

/// `]` read into such a state.
#[verifier::spinoff_prover]
#[verifier::rlimit(60)]
proof fn lemma_tree_close_class(t: ParseState, r: Reading)
    requires
        !root_closed(t),
        reads(t, r),
        wf(t),
        t.nodes.len() + 2 <= usize::MAX,
    ensures
        (read_char(r, ']') is Some) == (step(t, ']', char_is_alphanumeric(']'), char_is_numeric(']')) is Some),
        read_char(r, ']') is Some ==> reads(step(t, ']', char_is_alphanumeric(']'), char_is_numeric(']'))->0, read_char(r, ']')->0),
        read_char(r, ']') is Some ==> !root_closed(step(t, ']', char_is_alphanumeric(']'), char_is_numeric(']'))->0),
        read_char(r, ']') is Some ==> (step(t, ']', char_is_alphanumeric(']'), char_is_numeric(']'))->0.root_index == t.root_index && step(t, ']', char_is_alphanumeric(']'), char_is_numeric(']'))->0.stack.len() == t.stack.len()),
{
    assert(step(t, ']', char_is_alphanumeric(']'), char_is_numeric(']')) == crate::builder::step_close_class(t));
    if r.class && r.start is Some && r.end is Some && !r.alt {
        let a = RegexBuildingBlock::CharacterClass(held(r.start), held(r.end));
        let u = crate::builder::step_close_class(t)->0;
        let len = t.nodes.len() as int;
        if r.n == 0 {
            assert(u.nodes == t.nodes.push(leaf(a)));
            lemma_tree_leaf(t, u, a);
        } else {
            let o = root(t).index as int;
            assert(t.nodes[o] == t.nodes[o]);
            assert(u.nodes == crate::builder::concat_with(t.nodes, o, a));
            assert(u.stack == t.stack.update(t.root_index, id_of(len)));
            lemma_tree_concat_root(t, r.done, r.word, r.n, r.repeated, u, a);
        }
    } else if r.class && r.start is Some && r.end is Some {
        let o = root(t).index as int;
        assert(t.nodes[o].data is Or);
    }
}

/// `}` read into such a state.
#[verifier::spinoff_prover]
#[verifier::rlimit(60)]
proof fn lemma_tree_close_count(t: ParseState, r: Reading)
    requires
        !root_closed(t),
        reads(t, r),
        wf(t),
        t.nodes.len() + 2 <= usize::MAX,
    ensures
        (read_char(r, '}') is Some) == (step(t, '}', char_is_alphanumeric('}'), char_is_numeric('}')) is Some),
        read_char(r, '}') is Some ==> reads(step(t, '}', char_is_alphanumeric('}'), char_is_numeric('}'))->0, read_char(r, '}')->0),
        read_char(r, '}') is Some ==> !root_closed(step(t, '}', char_is_alphanumeric('}'), char_is_numeric('}'))->0),
        read_char(r, '}') is Some ==> (step(t, '}', char_is_alphanumeric('}'), char_is_numeric('}'))->0.root_index == t.root_index && step(t, '}', char_is_alphanumeric('}'), char_is_numeric('}'))->0.stack.len() == t.stack.len()),
{
    assert(step(t, '}', char_is_alphanumeric('}'), char_is_numeric('}')) == crate::builder::step_close_repeat(t));
    let a = held(r.start);
    let b = if r.end is Some { held(r.end) } else { a };
    if r.count && r.start is Some && low_byte(a) >= 0x30 && low_byte(b) >= 0x30 {
        let rep = RegexBuildingBlock::Repeat((low_byte(a) - 0x30) as u8, (low_byte(b) - 0x30) as u8);
        let len = t.nodes.len() as int;
        let o = root(t).index as int;
        if !r.alt && r.n == 0 {
            let u = crate::builder::step_close_repeat(t)->0;
            assert(u.nodes == t.nodes.push(leaf(rep)));
            lemma_tree_leaf(t, u, rep);
        } else if !r.alt && r.n == 1 && !r.repeated {
            let u = crate::builder::step_close_repeat(t)->0;
            assert(t.nodes[o] == t.nodes[o]);
            assert(u.nodes == crate::arena::wrap(t.nodes, o, rep));
            assert(u.stack == t.stack.update(t.root_index, id_of(len)));
            lemma_tree_wrap_root(t, r.done, r.word, u, rep);
        } else if !r.alt && r.n >= 2 {
            let u = crate::builder::step_close_repeat(t)->0;
            assert(t.nodes[o] == t.nodes[o]);
            assert(u.nodes == crate::arena::wrap(with_data(t.nodes, o, rep), o, RegexBuildingBlock::Concatenation));
            assert(u.stack == t.stack.update(t.root_index, id_of(len)));
            lemma_tree_rewrap_root(t, r.done, r.word, r.n, r.repeated, u, rep);
        } else {
            assert(t.nodes[o] == t.nodes[o]);
        }
    }
}

/// Any character but a brace read into such a state.
#[verifier::spinoff_prover]
#[verifier::rlimit(60)]
proof fn lemma_tree_char(t: ParseState, r: Reading, c: char)
    requires
        !root_closed(t),
        reads(t, r),
        wf(t),
        t.nodes.len() + 2 <= usize::MAX,
        c != '(',
        c != ')',
    ensures
        (read_char(r, c) is Some) == (step(t, c, char_is_alphanumeric(c), char_is_numeric(c)) is Some),
        read_char(r, c) is Some ==> reads(step(t, c, char_is_alphanumeric(c), char_is_numeric(c))->0, read_char(r, c)->0),
        read_char(r, c) is Some ==> !root_closed(step(t, c, char_is_alphanumeric(c), char_is_numeric(c))->0),
{
    if c == '!' || c == '#' {
    } else if c == '|' {
        lemma_tree_bar(t, r.done, r.word, r.alt, r.n, r.repeated);
    } else if is_repeat_op(c) {
        lemma_tree_repeat(t, r.done, r.word, r.alt, r.n, r.repeated, c);
        assert(r.word + seq![c] =~= r.word.push(c));
        assert(r.word.drop_last() + seq![c] + seq!['#'] =~= r.word.drop_last() + seq![c, '#']);
    } else if c == '{' || c == '[' || c == '-' {
    } else if c == ']' {
        lemma_tree_close_class(t, r);
    } else if c == '}' {
        lemma_tree_close_count(t, r);
    } else if r.class || r.count {
    } else {
        assert(is_plain(c));
        lemma_tree_plain(t, r.done, r.word, r.alt, r.n, r.repeated, c);
        assert(r.word + seq![c] + seq!['#'] =~= r.word + seq![c, '#']);
    }
}

#[verifier::spinoff_prover]
#[verifier::rlimit(60)]
proof fn lemma_tree_run(input: Seq<char>)
    requires
        forall|i: int| 0 <= i < input.len() ==> #[trigger] input[i] != '(' && input[i] != ')',
        2 * input.len() <= usize::MAX,
    ensures
        (unbraced(input) is Some) == (run(initial_state(), input) is Some),
        run(initial_state(), input) is Some ==> !root_closed(run(initial_state(), input)->0),
        unbraced(input) is Some ==> reads(run(initial_state(), input)->0, unbraced(input)->0),
    decreases input.len(),
{
    let s0 = initial_state();
    lemma_initial_wf();
    if input.len() == 0 {
        assert(run(s0, input) == Some(s0));
    } else {
        let p = input.drop_last();
        let c = input.last();
        assert(forall|i: int| 0 <= i < p.len() ==> p[i] == input[i]);
        lemma_tree_run(p);
        assert(input =~= p + seq![c]);
        lemma_run_append(s0, p, seq![c]);
        assert(input[input.len() - 1] != '(' && input[input.len() - 1] != ')');
        if run(s0, p) is Some {
            let t = run(s0, p)->0;
            lemma_run_keeps_wf(s0, p);
            lemma_tree_char(t, unbraced(p)->0, c);
            assert(seq![c].drop_first() =~= Seq::<char>::empty());
            assert(seq![c][0] == c);
            let su = step(t, c, char_is_alphanumeric(c), char_is_numeric(c));
            if su is Some {
                let u = su->0;
                assert(run(u, seq![c].drop_first()) == Some(u));
                assert(run(t, seq![c]) == Some(u));
            } else {
                assert(run(t, seq![c]) is None);
            }
        }
    }
}

/// Every input without braces converts exactly as [`unbraced_text`] describes: concatenations
/// and alternatives joined from the left and marked by `#` and `|`, each repeat right after the
/// character or class it applies to, and the input refused exactly where [`unbraced`] refuses
/// it.
pub proof fn lemma_unbraced(input: Seq<char>)
    requires
        forall|i: int| 0 <= i < input.len() ==> #[trigger] input[i] != '(' && input[i] != ')',
        2 * input.len() <= usize::MAX,
    ensures
        infix_to_postfix_spec(input) == unbraced_text(input),
{
    lemma_tree_run(input);
    if run(initial_state(), input) is Some {
        let t = run(initial_state(), input)->0;
        let r = unbraced(input)->0;
        lemma_initial_wf();
        lemma_run_keeps_wf(initial_state(), input);
        if t.nodes.len() > 0 {
            lemma_tree_text(t, r.done, r.word, r.alt, r.n, r.repeated);
        }
    }
}

/// Whether `c` is a plain character, `|` or a repeat operator.
pub open spec fn is_unbraced_char(c: char) -> bool {
    is_plain(c) || c == '|' || is_repeat_op(c)
}

/// What a reading of plain characters, `|` and repeat operators keeps of the input: its
/// plain characters and its `|`, and no brace.
pub open spec fn keeps_operands(r: Reading, ops: Seq<char>, bs: int) -> bool {
    &&& operands(r.done + r.word) == ops
    &&& bars(r.done) + bars(r.word) + (if r.alt { 1int } else { 0int }) == bs
    &&& bars(r.word) == 0
    &&& brace_free(r.done)
    &&& brace_free(r.word)
    &&& (!r.alt ==> r.done.len() == 0)
    &&& (r.n == 0 ==> r.word.len() == 0)
    &&& (r.n >= 2 ==> r.word.len() > 0 && r.word.last() == '#')
    &&& !r.class
    &&& !r.count
}

#[verifier::spinoff_prover]
#[verifier::rlimit(40)]
proof fn lemma_read_keeps_operands(r: Reading, c: char, ops: Seq<char>, bs: int)
    requires
        keeps_operands(r, ops, bs),
        is_unbraced_char(c),
        read_char(r, c) is Some,
    ensures
        keeps_operands(
            read_char(r, c)->0,
            if is_plain(c) { ops.push(c) } else { ops },
            if c == '|' { bs + 1 } else { bs },
        ),
{
    let done = r.done;
    let word = r.word;
    let alt = r.alt;
    let n = r.n;
    lemma_operands_bars_append(done, word);
    if !alt {
        assert(done + word =~= word);
    }
    if c == '|' {
        let j = joined(done, word, alt);
        lemma_operands_bars_append(done + word, seq!['|']);
        lemma_operands_single('|');
        assert(j + Seq::<char>::empty() =~= j);
        assert(operands(Seq::<char>::empty()) == Seq::<char>::empty());
        assert(operands(done + word) + Seq::<char>::empty() =~= operands(done + word));
        if alt {
            assert(j == (done + word) + seq!['|']);
        }
        assert(brace_free(j));
        let r2 = read_char(r, c)->0;
        assert(r2.done == j && r2.word == Seq::<char>::empty() && r2.alt && r2.n == 0);
        assert(j + Seq::<char>::empty() =~= j);
        assert(operands(j) == ops);
        if !alt {
            assert(done =~= Seq::<char>::empty());
            assert(bars(done) == 0);
        }
        assert(bars(j) + 1 == bs + 1);
    } else if is_repeat_op(c) {
        lemma_operands_single(c);
        if n == 1 {
            lemma_operands_bars_append(word, seq![c]);
            lemma_operands_bars_append(done, word + seq![c]);
            assert(operands(word) + Seq::<char>::empty() =~= operands(word));
            assert(brace_free(word + seq![c]));
            let r2 = read_char(r, c)->0;
            assert(r2.word == word + seq![c] && r2.done == done && r2.n == 1);
            assert(operands(done + (word + seq![c])) == ops);
        } else {
            let w2 = word.drop_last() + seq![c] + seq!['#'];
            lemma_operands_single('#');
            lemma_operands_bars_append(word.drop_last(), seq![c]);
            lemma_operands_bars_append(word.drop_last() + seq![c], seq!['#']);
            lemma_operands_bars_append(done, w2);
            lemma_operands_bars_append(done, word.drop_last());
            assert(operands(word) == operands(word.drop_last()));
            assert(bars(word) == bars(word.drop_last()));
            assert(operands(word.drop_last()) + Seq::<char>::empty() + Seq::<char>::empty() =~= operands(word.drop_last()));
            assert(operands(done) + operands(word.drop_last()) == operands(done) + operands(word));
            assert(brace_free(w2));
            assert(w2.last() == '#');
            let r2 = read_char(r, c)->0;
            assert(r2.word == w2 && r2.done == done && r2.n == n);
            assert(operands(done + w2) == ops);
            assert(bars(done) + bars(w2) == bars(done) + bars(word));
        }
    } else {
        assert(is_plain(c));
        lemma_operands_single(c);
        lemma_operands_single('#');
        let w2 = if n == 0 { seq![c] } else { word + seq![c] + seq!['#'] };
        if n == 0 {
            assert(done + w2 =~= (done + word) + seq![c]);
            lemma_operands_bars_append(done + word, seq![c]);
            lemma_operands_bars_append(done, w2);
        } else {
            lemma_operands_bars_append(done + word, seq![c]);
            lemma_operands_bars_append(done + word + seq![c], seq!['#']);
            assert(done + w2 =~= (done + word) + seq![c] + seq!['#']);
            assert(operands(done + word + seq![c]) + Seq::<char>::empty() =~= operands(done + word + seq![c]));
        }
        assert(ops.push(c) =~= ops + seq![c]);
        assert(operands(done + w2) == operands(done + word) + seq![c]);
        assert(brace_free(w2));
        let r2 = read_char(r, c)->0;
        assert(r2.word == w2 && r2.done == done);
        assert(operands(done + w2) == ops.push(c));
        if n == 0 {
            assert(word =~= Seq::<char>::empty());
        } else {
            lemma_operands_bars_append(word, seq![c]);
            lemma_operands_bars_append(word + seq![c], seq!['#']);
        }
        assert(bars(done) + bars(w2) == bars(done) + bars(word));
    }
}

proof fn lemma_unbraced_operands(input: Seq<char>)
    requires
        forall|i: int| 0 <= i < input.len() ==> is_unbraced_char(#[trigger] input[i]),
    ensures
        unbraced(input) is Some ==> keeps_operands(unbraced(input)->0, operands(input), bars(input) as int),
    decreases input.len(),
{
    if input.len() == 0 {
        assert(Seq::<char>::empty() + Seq::<char>::empty() =~= Seq::<char>::empty());
    } else {
        let p = input.drop_last();
        let c = input.last();
        assert(forall|i: int| 0 <= i < p.len() ==> p[i] == input[i]);
        lemma_unbraced_operands(p);
        assert(is_unbraced_char(input[input.len() - 1]));
        if unbraced(input) is Some {
            lemma_read_keeps_operands(unbraced(p)->0, c, operands(p), bars(p) as int);
        }
    }
}

/// For every input of plain characters, `|`, `+`, `*` and `?` that is converted, the output
/// holds the input's plain characters in the same order, as many `|` as the input, and no
/// brace.
pub proof fn lemma_unbraced_keeps_operands(input: Seq<char>)
    requires
        forall|i: int| 0 <= i < input.len() ==> is_unbraced_char(#[trigger] input[i]),
        2 * input.len() <= usize::MAX,
        infix_to_postfix_spec(input) is Some,
    ensures
        operands(infix_to_postfix_spec(input)->0) == operands(input),
        bars(infix_to_postfix_spec(input)->0) == bars(input),
        brace_free(infix_to_postfix_spec(input)->0),
{
    assert forall|i: int| 0 <= i < input.len() implies #[trigger] input[i] != '(' && input[i] != ')' by {
        assert(is_unbraced_char(input[i]));
    }
    lemma_unbraced(input);
    lemma_unbraced_operands(input);
    let r = unbraced(input)->0;
    lemma_operands_bars_append(r.done, r.word);
    if r.alt {
        lemma_operands_bars_append(r.done + r.word, seq!['|']);
        lemma_operands_single('|');
        assert(operands(r.done + r.word) + Seq::<char>::empty() =~= operands(r.done + r.word));
    } else {
        assert(r.done + r.word =~= r.word);
    }
}

/// A step inside the innermost group, whose opening brace is the root of `t`, changed no
/// node before position `b` but that brace, kept the stack of roots and the bracket mode, and
/// only added nodes.
pub open spec fn keeps_outer(t: ParseState, u: ParseState, b: int) -> bool {
    &&& u.stack == t.stack
    &&& u.root_index == t.root_index
    &&& same_modes(t, u)
    &&& t.nodes.len() <= u.nodes.len()
    &&& forall|j: int| 0 <= j < b && j != root(t).index ==> #[trigger] u.nodes[j] == t.nodes[j]
}

/// The innermost open group: its opening brace, made at position `b - 1` or before and the
/// root of the current level, has no left side, and its right side is the word being read, made
/// at position `b` or after, as in [`tree_state`].
pub open spec fn group_state(t: ParseState, word: Seq<char>, n: nat, repeated: bool, b: int) -> bool {
    let nodes = t.nodes;
    let len = nodes.len() as int;
    let o = root(t).index as int;
    &&& 0 <= t.root_index < t.stack.len()
    &&& (n == 0 ==> word.len() == 0)
    &&& (n >= 2 ==> word.len() > 0 && word.last() == '#')
    &&& 0 <= o < b <= len
    &&& nodes[o].data is OpeningBraces
    &&& nodes[o].left is None
    &&& (n == 0 ==> nodes[o].right is None)
    &&& (n >= 1 ==> (match nodes[o].right {
        Some(r) => {
            let w = r.index as int;
            &&& b <= w < len
            &&& postfix_of(nodes, w) == Some(word)
            &&& word_node(nodes, w, n, repeated, true)
        },
        None => false,
    }))
}

/// A plain character read inside such a group.
#[verifier::spinoff_prover]
#[verifier::rlimit(60)]
proof fn lemma_group_plain(t: ParseState, word: Seq<char>, n: nat, repeated: bool, b: int, c: char)
    requires
        group_state(t, word, n, repeated, b),
        wf(t),
        is_plain(c),
        !t.class_mode,
        !t.repeat_mode,
        t.nodes.len() + 2 <= usize::MAX,
    ensures
        step(t, c, char_is_alphanumeric(c), char_is_numeric(c)) is Some,
        group_state(
            step(t, c, char_is_alphanumeric(c), char_is_numeric(c))->0,
            add_atom(start_reading_with(word, n, repeated), seq![c]).word,
            n + 1,
            false,
            b,
        ),
        keeps_outer(t, step(t, c, char_is_alphanumeric(c), char_is_numeric(c))->0, b),
{
    let nodes = t.nodes;
    let len = nodes.len() as int;
    let top = root(t);
    let o = top.index as int;
    let lit = RegexBuildingBlock::CharacterLiteral(c);
    let u = step(t, c, char_is_alphanumeric(c), char_is_numeric(c))->0;
    assert(id_of(len).index as int == len);
    assert(id_of(len + 1).index as int == len + 1);
    assert(block_text(lit) == seq![c]);
    assert(block_text(RegexBuildingBlock::Concatenation) == seq!['#']);
    assert(Seq::<char>::empty() + Seq::<char>::empty() + seq![c] =~= seq![c]);
    let rank = choose|r: Seq<int>| ranked(nodes, r);
    assert(nodes[o] == nodes[o]);
    assert(link_below(nodes, rank, o, nodes[o].right));
    if n == 0 {
        assert(u.nodes == with_new_right(nodes, o, lit));
        assert(root(u).index == o);
        let m = u.nodes;
        assert(m[len] == leaf(lit));
        assert(postfix_within(m, len, (len + 1) as nat) == Some(Seq::<char>::empty() + Seq::<char>::empty() + seq![c]));
    } else {
        let rr = nodes[o].right->0;
        let r = rr.index as int;
        let pair = crate::builder::concat_with(nodes, r, lit);
        let t2 = ParseState { left: false, ..t };
        assert(crate::builder::walk_literal(t, lit, top, top, top, true, len as nat)
            == crate::builder::walk_literal(t2, lit, top, rr, top, false, (len - 1) as nat));
        assert(crate::builder::walk_literal(t2, lit, top, rr, top, false, (len - 1) as nat)
            == Some(crate::builder::place_concat(t2, pair, len, top, false, false)));
        assert(step(t, c, char_is_alphanumeric(c), char_is_numeric(c))
            == crate::builder::walk_literal(t, lit, top, top, top, true, len as nat));
        assert(u.nodes == with_right(pair, o, Some(id_of(len))));
        assert(root(u).index == o);
        let m = u.nodes;
        assert(forall|j: int| 0 <= j < len && j != o ==> #[trigger] m[j] == nodes[j]);
        lemma_postfix_frame(nodes, m, rank, o, r, len as nat);
        lemma_postfix_fuel_monotone(m, r, len as nat, (len + 1) as nat);
        assert(id_of(r).index as int == r);
        assert(m[len].left == Some(id_of(r)));
        assert(m[len].right == Some(id_of(len + 1)));
        assert(m[len + 1] == leaf(lit));
        assert(postfix_within(m, len + 1, (len + 1) as nat) == Some(Seq::<char>::empty() + Seq::<char>::empty() + seq![c]));
        assert(postfix_within(m, len, (len + 2) as nat) == Some(word + seq![c] + seq!['#']));
        assert((word + seq![c] + seq!['#']).last() == '#');
    }
}

/// The reading of a word alone: no `|` before it and no brackets open.
pub open spec fn start_reading_with(word: Seq<char>, n: nat, repeated: bool) -> Reading {
    Reading { word: word, n: n, repeated: repeated, ..start_reading() }
}

/// A repeat operator read inside such a group.
#[verifier::spinoff_prover]
#[verifier::rlimit(60)]
proof fn lemma_group_repeat(t: ParseState, word: Seq<char>, n: nat, repeated: bool, b: int, c: char)
    requires
        group_state(t, word, n, repeated, b),
        wf(t),
        is_repeat_op(c),
        t.nodes.len() + 2 <= usize::MAX,
    ensures
        (n == 0 || (n == 1 && repeated)) <==> step(t, c, char_is_alphanumeric(c), char_is_numeric(c)) is None,
        !(n == 0 || (n == 1 && repeated)) ==> ({
            let a = add_repeat(start_reading_with(word, n, repeated), seq![c]);
            &&& group_state(step(t, c, char_is_alphanumeric(c), char_is_numeric(c))->0, a.word, a.n, a.repeated, b)
            &&& keeps_outer(t, step(t, c, char_is_alphanumeric(c), char_is_numeric(c))->0, b)
        }),
{
    let nodes = t.nodes;
    let len = nodes.len() as int;
    let top = root(t);
    let o = top.index as int;
    let rep = crate::builder::repeat_of(c);
    assert(step(t, c, char_is_alphanumeric(c), char_is_numeric(c)) == crate::builder::step_repeat(t, c));
    assert(block_text(rep) == seq![c]);
    assert(block_text(RegexBuildingBlock::Concatenation) == seq!['#']);
    assert(id_of(len).index as int == len);
    if n >= 1 {
        let u = crate::builder::step_repeat(t, c)->0;
        let rank = choose|r: Seq<int>| ranked(nodes, r);
        assert(nodes[o] == nodes[o]);
        assert(link_below(nodes, rank, o, nodes[o].right));
        let rr = nodes[o].right->0;
        let r = rr.index as int;
        assert(nodes[r] == nodes[r]);
        assert(link_below(nodes, rank, r, nodes[r].left));
        assert(link_below(nodes, rank, r, nodes[r].right));
        assert(crate::builder::walk_repeat(t, rep, top, top, top, true, len as nat)
            == crate::builder::walk_repeat(t, rep, top, rr, top, false, (len - 1) as nat));
        if n == 1 && !repeated {
            assert(u.nodes == with_repeat_inserted(nodes, o, rep));
            assert(root(u).index == o);
            let m = u.nodes;
            assert(forall|j: int| 0 <= j < len && j != o ==> #[trigger] m[j] == nodes[j]);
            lemma_postfix_frame(nodes, m, rank, o, r, len as nat);
            assert(id_of(r).index as int == r);
            assert(m[len].left == Some(id_of(r)));
            assert(postfix_within(m, len, (len + 1) as nat) == Some(word + Seq::<char>::empty() + seq![c]));
            assert(word + Seq::<char>::empty() + seq![c] =~= word + seq![c]);
        } else if n >= 2 {
            let x = nodes[r].right->0.index as int;
            assert(descend_within(nodes, r, nodes.len()) == Some(r));
            assert(u.nodes == with_repeat_inserted(nodes, r, rep));
            assert(root(u).index == o);
            let m = u.nodes;
            assert(forall|j: int| 0 <= j < len && j != r ==> #[trigger] m[j] == nodes[j]);
            assert(m[o] == nodes[o]);
            let f = (len - 1) as nat;
            lemma_postfix_frame(nodes, m, rank, r, x, f);
            let lt = match nodes[r].left {
                Some(y) => postfix_within(nodes, y.index as int, f),
                None => Some(Seq::<char>::empty()),
            };
            if let Some(y) = nodes[r].left {
                lemma_postfix_frame(nodes, m, rank, r, y.index as int, len as nat);
                lemma_postfix_fuel_monotone(nodes, y.index as int, f, len as nat);
            }
            let xt = postfix_within(nodes, x, f);
            assert(postfix_within(nodes, r, len as nat) == Some(lt->0 + xt->0 + seq!['#']));
            assert(word =~= lt->0 + xt->0 + seq!['#']);
            assert(word.drop_last() =~= lt->0 + xt->0);
            assert(id_of(x).index as int == x);
            assert(m[len].left == Some(id_of(x)));
            assert(postfix_within(m, len, len as nat) == Some(xt->0 + Seq::<char>::empty() + seq![c]));
            assert(m[r].right == Some(id_of(len)));
            assert(lt->0 + (xt->0 + Seq::<char>::empty() + seq![c]) + seq!['#'] =~= word.drop_last() + seq![c] + seq!['#']);
            assert(postfix_within(m, r, (len + 1) as nat) == Some(word.drop_last() + seq![c] + seq!['#']));
            assert((word.drop_last() + seq![c] + seq!['#']).last() == '#');
        }
    }
}

/// Whether `c` is one of the digits `0` to `9`.
pub open spec fn is_digit(c: char) -> bool {
    '0' <= c <= '9'
}

/// The value of the digit `c`.
pub open spec fn digit_value(c: char) -> u8 {
    ((c as u32) - 48) as u8
}

/// A regular expression read left to right: the reading of the whole expression and of each
/// group still open, the outermost first (see [`Reading`]; their bracket fields stay unused),
/// and how far a class `[x-y]` (`class` 1 to 4) or a count `{d}` or `{d,e}` (`count` 1 to 4)
/// has been read, with its characters `first` and `second`.
pub struct Parse {
    pub frames: Seq<Reading>,
    pub class: nat,
    pub count: nat,
    pub first: char,
    pub second: char,
}

/// Nothing read yet.
pub open spec fn parse_start() -> Parse {
    Parse { frames: seq![start_reading()], class: 0, count: 0, first: ' ', second: ' ' }
}

/// The postfix text of a finished group or expression: its alternatives joined by `|`.
pub open spec fn frame_text(f: Reading) -> Seq<char> {
    joined(f.done, f.word, f.alt)
}

/// `p` with the innermost reading replaced by `f`.
pub open spec fn with_inner(p: Parse, f: Reading) -> Parse {
    Parse { frames: p.frames.update(p.frames.len() - 1, f), ..p }
}

/// A count `{a}` or `{a,b}` put on the last atom.
pub open spec fn close_count(p: Parse, a: char, b: char) -> Option<Parse> {
    let f = p.frames.last();
    if f.n == 0 {
        None
    } else {
        let rep = RegexBuildingBlock::Repeat(digit_value(a), digit_value(b));
        Some(Parse { count: 0, ..with_inner(p, add_repeat(f, block_text(rep))) })
    }
}

/// Reading one more character of the grammar
/// `alt := cat ('|' cat)*`, `cat := post+`, `post := atom op*`,
/// `atom := plain | '[' plain '-' plain ']' | '(' alt ')'`,
/// `op := '+' | '*' | '?' | '{' digit '}' | '{' digit ',' digit '}'`;
/// `None` where the input leaves the grammar. The postfix text it builds is
/// `P(S T) = P(S) P(T) #`, `P(S|T) = P(S) P(T) |`, `P(A op) = P(A) op`, `P((R)) = P(R)`, and
/// `P(c) = c`, `P([x-y]) = [x-y]`, a count written as the repeat it stands for.
pub open spec fn parse_char(p: Parse, c: char) -> Option<Parse> {
    let f = p.frames.last();
    let k = p.frames.len() - 1;
    if p.class == 1 {
        if is_plain(c) { Some(Parse { class: 2, first: c, ..p }) } else { None }
    } else if p.class == 2 {
        if c == '-' { Some(Parse { class: 3, ..p }) } else { None }
    } else if p.class == 3 {
        if is_plain(c) { Some(Parse { class: 4, second: c, ..p }) } else { None }
    } else if p.class == 4 {
        if c == ']' {
            let text = block_text(RegexBuildingBlock::CharacterClass(p.first, p.second));
            Some(Parse { class: 0, ..with_inner(p, add_atom(f, text)) })
        } else {
            None
        }
    } else if p.count == 1 {
        if is_digit(c) { Some(Parse { count: 2, first: c, ..p }) } else { None }
    } else if p.count == 2 {
        if c == '}' {
            close_count(p, p.first, p.first)
        } else if c == ',' {
            Some(Parse { count: 3, ..p })
        } else {
            None
        }
    } else if p.count == 3 {
        if is_digit(c) { Some(Parse { count: 4, second: c, ..p }) } else { None }
    } else if p.count == 4 {
        if c == '}' { close_count(p, p.first, p.second) } else { None }
    } else if c == '(' {
        Some(Parse { frames: p.frames.push(start_reading()), ..p })
    } else if c == ')' {
        if k == 0 || f.n == 0 {
            None
        } else {
            let outer = p.frames.drop_last();
            Some(Parse { frames: outer.update(k - 1, add_atom(outer[k - 1], frame_text(f))), ..p })
        }
    } else if c == '|' {
        if f.n == 0 {
            None
        } else {
            Some(with_inner(p, Reading { done: frame_text(f), word: Seq::empty(), alt: true, n: 0, repeated: false, ..f }))
        }
    } else if is_repeat_op(c) {
        if f.n == 0 { None } else { Some(with_inner(p, add_repeat(f, seq![c]))) }
    } else if c == '[' {
        Some(Parse { class: 1, ..p })
    } else if c == '{' {
        Some(Parse { count: 1, ..p })
    } else if is_plain(c) {
        Some(with_inner(p, add_atom(f, seq![c])))
    } else {
        None
    }
}

/// Reading `input` in the grammar of [`parse_char`].
pub open spec fn parse(input: Seq<char>) -> Option<Parse>
    decreases input.len(),
{
    if input.len() == 0 {
        Some(parse_start())
    } else {
        match parse(input.drop_last()) {
            None => None,
            Some(p) => parse_char(p, input.last()),
        }
    }
}

/// The postfix form of the regular expression `input`: `None` where `input` is not a
/// non-empty expression of the grammar of [`parse_char`].
pub open spec fn regex_postfix(input: Seq<char>) -> Option<Seq<char>> {
    match parse(input) {
        Some(p) => if p.frames.len() == 1 && p.class == 0 && p.count == 0 && p.frames[0].n >= 1 {
            Some(frame_text(p.frames[0]))
        } else {
            None
        },
        None => None,
    }
}

/// Whether an opening brace follows an opening brace somewhere in `input`.
pub open spec fn opens_twice(input: Seq<char>) -> bool {
    exists|i: int| 0 <= i < input.len() - 1 && input[i] == '(' && #[trigger] input[i + 1] == '('
}

/// The traversal from node `i` within `fuel` visits only nodes before position `bound`.
pub open spec fn bounded(nodes: Seq<Node<RegexBuildingBlock>>, i: int, bound: int, fuel: nat) -> bool
    decreases fuel,
{
    fuel == 0 || (0 <= i < bound && i < nodes.len() && (match nodes[i].left {
        Some(c) => bounded(nodes, c.index as int, bound, (fuel - 1) as nat),
        None => true,
    }) && (match nodes[i].right {
        Some(c) => bounded(nodes, c.index as int, bound, (fuel - 1) as nat),
        None => true,
    }))
}

/// A traversal that stays before `bound` does not see nodes changed from `bound` on.
proof fn lemma_postfix_agree(nodes: Seq<Node<RegexBuildingBlock>>, more: Seq<Node<RegexBuildingBlock>>, i: int, bound: int, fuel: nat)
    requires
        bounded(nodes, i, bound, fuel),
        bound <= nodes.len(),
        bound <= more.len(),
        forall|j: int| 0 <= j < bound ==> #[trigger] more[j] == nodes[j],
    ensures
        postfix_within(more, i, fuel) == postfix_within(nodes, i, fuel),
        bounded(more, i, bound, fuel),
    decreases fuel,
{
    if fuel > 0 {
        assert(more[i] == nodes[i]);
        if let Some(c) = nodes[i].left {
            lemma_postfix_agree(nodes, more, c.index as int, bound, (fuel - 1) as nat);
        }
        if let Some(c) = nodes[i].right {
            lemma_postfix_agree(nodes, more, c.index as int, bound, (fuel - 1) as nat);
        }
    }
}

/// In ranked nodes every traversal stays among the nodes.
proof fn lemma_bounded_ranked(nodes: Seq<Node<RegexBuildingBlock>>, rank: Seq<int>, i: int, bound: int, fuel: nat)
    requires
        ranked(nodes, rank),
        0 <= i < nodes.len(),
        nodes.len() <= bound,
    ensures
        bounded(nodes, i, bound, fuel),
    decreases fuel,
{
    if fuel > 0 {
        assert(link_below(nodes, rank, i, nodes[i].left));
        assert(link_below(nodes, rank, i, nodes[i].right));
        if let Some(c) = nodes[i].left {
            lemma_bounded_ranked(nodes, rank, c.index as int, bound, (fuel - 1) as nat);
        }
        if let Some(c) = nodes[i].right {
            lemma_bounded_ranked(nodes, rank, c.index as int, bound, (fuel - 1) as nat);
        }
    }
}

/// A traversal that stays before a bound stays before any later one.
proof fn lemma_bounded_wider(nodes: Seq<Node<RegexBuildingBlock>>, i: int, bound: int, wider: int, fuel: nat)
    requires
        bounded(nodes, i, bound, fuel),
        bound <= wider,
    ensures
        bounded(nodes, i, wider, fuel),
    decreases fuel,
{
    if fuel > 0 {
        if let Some(c) = nodes[i].left {
            lemma_bounded_wider(nodes, c.index as int, bound, wider, (fuel - 1) as nat);
        }
        if let Some(c) = nodes[i].right {
            lemma_bounded_wider(nodes, c.index as int, bound, wider, (fuel - 1) as nat);
        }
    }
}

/// Changing node `p` leaves a bound on the traversal from a node of lower rank.
proof fn lemma_bounded_frame(nodes: Seq<Node<RegexBuildingBlock>>, more: Seq<Node<RegexBuildingBlock>>, rank: Seq<int>, p: int, i: int, bound: int, fuel: nat)
    requires
        ranked(nodes, rank),
        0 <= i < nodes.len(),
        0 <= p < nodes.len(),
        rank[i] < rank[p],
        nodes.len() <= more.len(),
        forall|j: int| 0 <= j < nodes.len() && j != p ==> #[trigger] more[j] == nodes[j],
        bounded(nodes, i, bound, fuel),
    ensures
        bounded(more, i, bound, fuel),
    decreases fuel,
{
    if fuel > 0 {
        assert(more[i] == nodes[i]);
        assert(link_below(nodes, rank, i, nodes[i].left));
        assert(link_below(nodes, rank, i, nodes[i].right));
        if let Some(c) = nodes[i].left {
            lemma_bounded_frame(nodes, more, rank, p, c.index as int, bound, (fuel - 1) as nat);
        }
        if let Some(c) = nodes[i].right {
            lemma_bounded_frame(nodes, more, rank, p, c.index as int, bound, (fuel - 1) as nat);
        }
    }
}

/// Where an open group hangs in the reading around it: the concatenation `w` joins the text
/// `prefix` of the atoms before it, on its left, to the group's opening brace `g`, on its right.
pub open spec fn concat_slot(nodes: Seq<Node<RegexBuildingBlock>>, w: int, g: int, prefix: Seq<char>) -> bool {
    &&& 0 <= w < nodes.len()
    &&& w != g
    &&& nodes[w].data is Concatenation
    &&& nodes[w].right == Some(id_of(g))
    &&& nodes[w].left matches Some(l) && 0 <= l.index < g && postfix_within(nodes, l.index as int, g as nat) == Some(prefix)
        && bounded(nodes, l.index as int, g, g as nat)
}

/// Positions of an open group in the tree: the concatenation above it (where there is one),
/// its opening brace, and the first position after the nodes made when it was opened.
pub struct Slot {
    pub w: int,
    pub g: int,
    pub birth: int,
}

/// The first group was opened before anything else: the construction then reads it at the
/// bottom level of the stack of roots.
pub open spec fn shifted(p: Parse) -> bool {
    p.frames.len() >= 2 && p.frames[0].n == 0 && !p.frames[0].alt
}

/// The level of the stack of roots that holds the reading `f` of `p`.
pub open spec fn level(p: Parse, f: int) -> int {
    if shifted(p) { f - 1 } else { f }
}

/// The shape of a reading's texts.
pub open spec fn frame_ok(f: Reading) -> bool {
    &&& (f.n == 0 ==> f.word.len() == 0)
    &&& (f.n >= 2 ==> f.word.len() > 0 && f.word.last() == '#')
    &&& (!f.alt ==> f.done.len() == 0)
}

/// The reading `f` of `p`, which holds an open group, is where `s` says in `t`.
pub open spec fn slot_ok(t: ParseState, p: Parse, f: int, s: Slot) -> bool {
    let nodes = t.nodes;
    let fr = p.frames[f];
    let lv = level(p, f + 1);
    &&& 0 <= lv < t.stack.len()
    &&& t.stack[lv].index as int == s.g
    &&& 0 <= s.g < s.birth <= nodes.len()
    &&& if f == 0 && shifted(p) {
        s.g == 0 && s.birth == 1
    } else if f == 0 && fr.alt && fr.n == 0 {
        let o = t.stack[0].index as int;
        &&& 0 <= o < s.g
        &&& nodes[o].data is Or
        &&& nodes[o].left matches Some(l) && postfix_within(nodes.take(o), l.index as int, o as nat) == Some(fr.done)
        &&& nodes[o].right == Some(id_of(s.g))
        &&& s.birth == s.g + 1
    } else {
        &&& concat_slot(nodes, s.w, s.g, fr.word)
        &&& s.w < s.birth
        &&& fr.n >= 1
        &&& (f == 0 && !fr.alt ==> t.stack[0].index as int == s.w)
        &&& (f == 0 && fr.alt ==> {
            let o = t.stack[0].index as int;
            &&& 0 <= o < s.g
            &&& o < s.w
            &&& nodes[o].data is Or
            &&& nodes[o].left matches Some(l) && postfix_within(nodes.take(o), l.index as int, o as nat) == Some(fr.done)
            &&& nodes[o].right == Some(id_of(s.w))
        })
        &&& (f >= 1 ==> {
            let gl = t.stack[level(p, f)].index as int;
            &&& 0 <= level(p, f) < t.stack.len()
            &&& 0 <= gl < s.g
            &&& gl < s.w
            &&& nodes[gl].data is OpeningBraces
            &&& nodes[gl].left is None
            &&& nodes[gl].right == Some(id_of(s.w))
        })
    }
}

/// The construction's state `t` holds what the grammar's reading `p` has read, with the open
/// groups placed as `lay` says.
pub open spec fn sim(t: ParseState, p: Parse, lay: Seq<Slot>) -> bool {
    let k = p.frames.len() - 1;
    let inner = p.frames[k];
    &&& p.frames.len() >= 1
    &&& lay.len() == k
    &&& t.stack.len() == crate::builder::ROOT_STACK_SIZE
    &&& t.root_index == level(p, k)
    &&& t.class_mode == (p.class > 0)
    &&& t.repeat_mode == (p.count > 0)
    &&& !(p.class > 0 && p.count > 0)
    &&& p.class <= 4
    &&& p.count <= 4
    &&& t.start == (if p.class >= 2 || p.count >= 2 { Some(p.first) } else { None })
    &&& t.end == (if p.class == 4 || p.count == 4 { Some(p.second) } else if p.count == 2 { Some(p.first) } else if p.count == 3 { Some(',') } else { None })
    &&& (p.count >= 2 ==> is_digit(p.first))
    &&& (p.count == 4 ==> is_digit(p.second))
    &&& forall|f: int| 0 <= f <= k ==> frame_ok(#[trigger] p.frames[f])
    &&& forall|f: int| 1 <= f <= k ==> !(#[trigger] p.frames[f]).alt
    &&& forall|f: int| 0 <= f < k ==> slot_ok(t, p, f, #[trigger] lay[f])
    &&& forall|f1: int, f2: int| 0 <= f1 < f2 < k ==> #[trigger] lay[f1].birth <= #[trigger] lay[f2].g
    &&& forall|f1: int, f2: int| 0 <= f1 < f2 < k ==> #[trigger] lay[f1].birth <= #[trigger] lay[f2].w
    &&& if k == 0 {
        tree_state(t, inner.done, inner.word, inner.alt, inner.n, inner.repeated)
    } else {
        group_state(t, inner.word, inner.n, inner.repeated, lay[k - 1].birth)
    }
}

/// A reading that holds an open group keeps its place while nothing before `bound` changes
/// but, from the bound of its own group on, the innermost group's brace `g`.
proof fn lemma_slot_stable(t: ParseState, u: ParseState, p: Parse, f: int, s: Slot, bound: int, g: int)
    requires
        slot_ok(t, p, f, s),
        0 <= level(p, f + 1) <= t.root_index,
        forall|j: int| 0 <= j <= t.root_index ==> #[trigger] u.stack[j] == t.stack[j],
        u.stack.len() == t.stack.len(),
        t.nodes.len() <= u.nodes.len(),
        s.birth <= bound,
        s.birth <= g || s.g == g,
        forall|j: int| 0 <= j < bound && j != g ==> #[trigger] u.nodes[j] == t.nodes[j],
    ensures
        slot_ok(u, p, f, s),
{
    let nodes = t.nodes;
    let more = u.nodes;
    let fr = p.frames[f];
    assert(forall|j: int| 0 <= j < s.g ==> #[trigger] more[j] == nodes[j]);
    assert(u.stack[level(p, f + 1)] == t.stack[level(p, f + 1)]);
    assert(u.stack[0] == t.stack[0]);
    if f >= 1 {
        assert(u.stack[level(p, f)] == t.stack[level(p, f)]);
    }
    if f == 0 && shifted(p) {
    } else if f == 0 && fr.alt && fr.n == 0 {
        let o = t.stack[0].index as int;
        assert(more[o] == nodes[o]);
        assert(more.take(o) =~= nodes.take(o));
    } else {
        assert(more[s.w] == nodes[s.w]);
        let l = nodes[s.w].left->0.index as int;
        lemma_postfix_agree(nodes, more, l, s.g, s.g as nat);
        if f == 0 && fr.alt {
            let o = t.stack[0].index as int;
            assert(more[o] == nodes[o]);
            assert(more.take(o) =~= nodes.take(o));
        }
        if f >= 1 {
            let gl = t.stack[level(p, f)].index as int;
            assert(more[gl] == nodes[gl]);
        }
    }
}

/// All readings that hold open groups keep their places through a step inside the innermost
/// group.
proof fn lemma_slots_stable(t: ParseState, u: ParseState, p: Parse, lay: Seq<Slot>)
    requires
        sim(t, p, lay),
        p.frames.len() >= 2,
        keeps_outer(t, u, lay[p.frames.len() - 2].birth),
    ensures
        forall|f: int| 0 <= f < p.frames.len() - 1 ==> slot_ok(u, p, f, #[trigger] lay[f]),
{
    let k = p.frames.len() - 1;
    let top = lay[k - 1];
    assert(root(t).index as int == top.g) by {
        assert(slot_ok(t, p, k - 1, lay[k - 1]));
    }
    assert forall|f: int| 0 <= f < k implies slot_ok(u, p, f, #[trigger] lay[f]) by {
        assert(slot_ok(t, p, f, lay[f]));
        assert(level(p, f + 1) <= level(p, k));
        if f < k - 1 {
            assert(lay[f].birth <= lay[k - 1].g);
        }
        lemma_slot_stable(t, u, p, f, lay[f], top.birth, top.g);
    }
}

/// An opening brace placed after the word below node `par`: a concatenation joins the word to
/// the new brace and takes the word's place below `par`, and the new brace is the root of the
/// next level.
#[verifier::spinoff_prover]
#[verifier::rlimit(60)]
proof fn lemma_open_after_word(t: ParseState, ts: ParseState, par: int, word: Seq<char>, n: nat, repeated: bool) -> (s: Slot)
    requires
        wf(t),
        ts.nodes == t.nodes,
        ts.stack == t.stack,
        ts.root_index == t.root_index,
        same_modes(t, ts),
        t.nodes.len() + 2 <= usize::MAX,
        t.root_index + 1 < t.stack.len(),
        0 <= par < t.nodes.len(),
        t.nodes[par].right matches Some(r) && word_node(t.nodes, r.index as int, n, repeated, true)
            && postfix_of(t.nodes, r.index as int) == Some(word),
        n >= 1,
    ensures
        ({
            let rr = t.nodes[par].right->0;
            let len = t.nodes.len() as int;
            let res = crate::builder::walk_open(ts, rr, id_of(par), false, (len - 1) as nat);
            &&& res is Some
            &&& res->0.root_index == t.root_index + 1
            &&& res->0.stack == t.stack.update(t.root_index + 1, id_of(s.g))
            &&& same_modes(t, res->0)
            &&& res->0.nodes.len() == len + 2
            &&& forall|j: int| 0 <= j < len && j != par ==> #[trigger] res->0.nodes[j] == t.nodes[j]
            &&& res->0.nodes[par] == Node { right: Some(id_of(s.w)), ..t.nodes[par] }
            &&& s.birth == len + 2
            &&& (s.w == len || s.w == len + 1)
            &&& (s.g == len || s.g == len + 1)
            &&& concat_slot(res->0.nodes, s.w, s.g, word)
            &&& res->0.nodes[s.g] == leaf(RegexBuildingBlock::OpeningBraces)
        }),
{
    let nodes = t.nodes;
    let len = nodes.len() as int;
    let rr = nodes[par].right->0;
    let r = rr.index as int;
    let ob = RegexBuildingBlock::OpeningBraces;
    let rank = choose|q: Seq<int>| ranked(nodes, q);
    assert(nodes[par] == nodes[par]);
    assert(link_below(nodes, rank, par, nodes[par].right));
    assert(id_of(len).index as int == len);
    assert(id_of(len + 1).index as int == len + 1);
    assert(id_of(r) == rr);
    lemma_bounded_ranked(nodes, rank, r, len, len as nat);
    lemma_bounded_ranked(nodes, rank, r, len, (len + 1) as nat);
    let res = crate::builder::walk_open(ts, rr, id_of(par), false, (len - 1) as nat);
    let (w, g) = if nodes[r].data is ClosedBraces { (len + 1, len) } else { (len, len + 1) };
    let m = if nodes[r].data is ClosedBraces {
        crate::concat::concat_right_side_nodes(nodes, par, ob)
    } else {
        with_right(crate::builder::concat_with(nodes, r, ob), par, Some(id_of(len)))
    };
    assert(res is Some);
    assert(res->0.nodes == m);
    assert(res->0.stack == t.stack.update(t.root_index + 1, id_of(g)));
    assert(forall|j: int| 0 <= j < len && j != par ==> #[trigger] m[j] == nodes[j]);
    assert(m[w].left == Some(id_of(r)));
    assert(m[w].right == Some(id_of(g)));
    assert(m[w].data == RegexBuildingBlock::Concatenation);
    assert(m[g] == leaf(ob));
    lemma_postfix_frame(nodes, m, rank, par, r, g as nat);
    lemma_postfix_fuel_monotone(nodes, r, len as nat, g as nat);
    lemma_bounded_frame(nodes, m, rank, par, r, len, g as nat);
    lemma_bounded_wider(m, r, len, g, g as nat);
    let sl = Slot { w: w, g: g, birth: len + 2 };
    assert(concat_slot(m, sl.w, sl.g, word));
    sl
}

/// An opening brace read in step with the grammar.
#[verifier::spinoff_prover]
#[verifier::rlimit(80)]
proof fn lemma_sim_open(t: ParseState, p: Parse, lay: Seq<Slot>) -> (lay2: Seq<Slot>)
    requires
        sim(t, p, lay),
        wf(t),
        t.nodes.len() + 2 <= usize::MAX,
        p.class == 0,
        p.count == 0,
        !(p.frames.len() >= 2 && p.frames.last().n == 0),
    ensures
        step(t, '(', char_is_alphanumeric('('), char_is_numeric('(')) is Some
            ==> sim(step(t, '(', char_is_alphanumeric('('), char_is_numeric('('))->0, parse_char(p, '(')->0, lay2),
{
    let nodes = t.nodes;
    let len = nodes.len() as int;
    let k = p.frames.len() - 1;
    let f = p.frames[k];
    let p2 = parse_char(p, '(')->0;
    let top = root(t);
    let o = top.index as int;
    let ob = RegexBuildingBlock::OpeningBraces;
    assert(p2.frames == p.frames.push(start_reading()));
    assert(forall|i: int| 0 <= i <= k ==> #[trigger] p2.frames[i] == p.frames[i]);
    assert(p2.frames[k + 1] == start_reading());
    assert(step(t, '(', char_is_alphanumeric('('), char_is_numeric('(')) == crate::builder::step_open(t));
    let u = crate::builder::step_open(t)->0;
    assert(id_of(len).index as int == len);
    assert(id_of(len + 1).index as int == len + 1);
    if k == 0 && !f.alt && f.n == 0 {
        assert(shifted(p2));
        assert(u.nodes == seq![leaf(ob)]);
        let sl = Slot { w: 0, g: 0, birth: 1 };
        let lay2 = seq![sl];
        assert(lay2[0] == sl);
        assert(slot_ok(u, p2, 0, sl));
        assert(sim(u, p2, lay2));
        lay2
    } else if k == 0 && !f.alt {
        assert(!shifted(p2));
        let rank = choose|q: Seq<int>| ranked(nodes, q);
        assert(nodes[o] == nodes[o]);
        let m = crate::builder::concat_with(nodes, o, ob);
        assert(u.nodes == m);
        assert(u.root_index == 1);
        assert(u.stack == t.stack.update(0, id_of(len)).update(1, id_of(len + 1)));
        assert(forall|j: int| 0 <= j < len ==> #[trigger] m[j] == nodes[j]);
        lemma_postfix_fuel_monotone(nodes, o, len as nat, (len + 1) as nat);
        lemma_postfix_extend(nodes, m, o, (len + 1) as nat);
        lemma_bounded_ranked(nodes, rank, o, len, (len + 1) as nat);
        lemma_postfix_agree(nodes, m, o, len, (len + 1) as nat);
        lemma_bounded_wider(m, o, len, len + 1, (len + 1) as nat);
        assert(id_of(o) == top);
        let sl = Slot { w: len, g: len + 1, birth: len + 2 };
        let lay2 = seq![sl];
        assert(lay2[0] == sl);
        assert(concat_slot(m, len, len + 1, f.word));
        assert(slot_ok(u, p2, 0, sl));
        assert(sim(u, p2, lay2));
        lay2
    } else if k == 0 && f.n == 0 {
        assert(!shifted(p2));
        let m = with_new_right(nodes, o, ob);
        assert(u.nodes == m);
        assert(u.root_index == 1);
        assert(u.stack == t.stack.update(1, id_of(len)));
        assert(m.take(o) =~= nodes.take(o));
        let sl = Slot { w: 0, g: len, birth: len + 1 };
        let lay2 = seq![sl];
        assert(lay2[0] == sl);
        assert(slot_ok(u, p2, 0, sl));
        assert(sim(u, p2, lay2));
        lay2
    } else if k == 0 {
        assert(!shifted(p2));
        let t2 = ParseState { left: false, ..t };
        let rr = nodes[o].right->0;
        assert(crate::builder::walk_open(t, top, top, true, len as nat)
            == crate::builder::walk_open(t2, rr, top, false, (len - 1) as nat));
        assert(id_of(o) == top);
        let sl = lemma_open_after_word(t, t2, o, f.word, f.n, f.repeated);
        let m = u.nodes;
        assert(m.take(o) =~= nodes.take(o));
        let lay2 = seq![sl];
        assert(lay2[0] == sl);
        assert(slot_ok(u, p2, 0, sl));
        assert(sim(u, p2, lay2));
        lay2
    } else {
        assert(shifted(p2) == shifted(p));
        assert(forall|i: int| 0 <= i <= k ==> level(p2, i) == level(p, i));
        let b = lay[k - 1].birth;
        let rr = nodes[o].right->0;
        assert(crate::builder::walk_open(t, top, top, true, len as nat)
            == crate::builder::walk_open(t, rr, top, false, (len - 1) as nat));
        assert(id_of(o) == top);
        if t.root_index + 1 < t.stack.len() {
            let sl = lemma_open_after_word(t, t, o, f.word, f.n, f.repeated);
            let lay2 = lay.push(sl);
            assert(forall|i: int| 0 <= i < k ==> #[trigger] lay2[i] == lay[i]);
            assert(lay2[k] == sl);
            assert forall|i: int| 0 <= i < k implies slot_ok(u, p2, i, #[trigger] lay2[i]) by {
                assert(slot_ok(t, p, i, lay[i]));
                assert(level(p, i + 1) <= level(p, k));
                if i < k - 1 {
                    assert(lay[i].birth <= lay[k - 1].g);
                }
                assert(slot_ok(t, p2, i, lay[i]));
                lemma_slot_stable(t, u, p2, i, lay[i], b, o);
            }
            assert(slot_ok(u, p2, k, sl));
            assert forall|f1: int, f2: int| 0 <= f1 < f2 < k + 1 implies #[trigger] lay2[f1].birth <= #[trigger] lay2[f2].g by {
                if f2 == k {
                    assert(slot_ok(t, p, f1, lay[f1]));
                }
            }
            assert forall|f1: int, f2: int| 0 <= f1 < f2 < k + 1 implies #[trigger] lay2[f1].birth <= #[trigger] lay2[f2].w by {
                if f2 == k {
                    assert(slot_ok(t, p, f1, lay[f1]));
                }
            }
            assert(sim(u, p2, lay2));
            lay2
        } else {
            lay
        }
    }
}

/// Closing the innermost group turns its brace into a closed one, whose text is the group's.
proof fn lemma_closed_text(t: ParseState, g: int, word: Seq<char>, fuel: nat)
    requires
        wf(t),
        0 <= g < t.nodes.len(),
        t.nodes[g].left is None,
        t.nodes[g].right matches Some(r) && postfix_of(t.nodes, r.index as int) == Some(word),
        postfix_within(t.nodes, g, fuel) is Some,
    ensures
        postfix_within(with_data(t.nodes, g, RegexBuildingBlock::ClosedBraces), g, fuel) == Some(word),
        forall|j: int| 0 <= j < t.nodes.len() && j != g ==> #[trigger] with_data(t.nodes, g, RegexBuildingBlock::ClosedBraces)[j] == t.nodes[j],
{
    let nodes = t.nodes;
    let len = nodes.len() as int;
    let m = with_data(nodes, g, RegexBuildingBlock::ClosedBraces);
    let rank = choose|q: Seq<int>| ranked(nodes, q);
    assert(nodes[g] == nodes[g]);
    assert(link_below(nodes, rank, g, nodes[g].right));
    let r = nodes[g].right->0.index as int;
    let f1 = (fuel - 1) as nat;
    assert(postfix_within(nodes, r, f1) is Some);
    if f1 <= len {
        lemma_postfix_fuel_monotone(nodes, r, f1, len as nat);
    } else {
        lemma_postfix_fuel_monotone(nodes, r, len as nat, f1);
    }
    lemma_postfix_frame(nodes, m, rank, g, r, f1);
    assert(block_text(RegexBuildingBlock::ClosedBraces) == Seq::<char>::empty());
    assert(Seq::<char>::empty() + word + Seq::<char>::empty() =~= word);
}

/// The text of the concatenation above a group that has just been closed.
proof fn lemma_closed_slot_text(t: ParseState, s: Slot, prefix: Seq<char>, word: Seq<char>)
    requires
        wf(t),
        t.nodes.len() <= usize::MAX,
        concat_slot(t.nodes, s.w, s.g, prefix),
        0 <= s.g < t.nodes.len(),
        t.nodes[s.g].left is None,
        t.nodes[s.g].right matches Some(r) && postfix_of(t.nodes, r.index as int) == Some(word),
    ensures
        postfix_of(with_data(t.nodes, s.g, RegexBuildingBlock::ClosedBraces), s.w) == Some(prefix + word + seq!['#']),
{
    let nodes = t.nodes;
    let len = nodes.len() as int;
    let m = with_data(nodes, s.g, RegexBuildingBlock::ClosedBraces);
    let rank = choose|q: Seq<int>| ranked(nodes, q);
    assert(nodes[s.w] == nodes[s.w]);
    assert(link_below(nodes, rank, s.w, nodes[s.w].right));
    assert(id_of(s.g).index as int == s.g);
    assert(0 <= rank[s.w] < len);
    lemma_ranked_postfix(nodes, rank, s.g, (len - 1) as nat);
    lemma_closed_text(t, s.g, word, (len - 1) as nat);
    let l = nodes[s.w].left->0.index as int;
    assert(forall|j: int| 0 <= j < s.g ==> #[trigger] m[j] == nodes[j]);
    lemma_postfix_agree(nodes, m, l, s.g, s.g as nat);
    lemma_postfix_fuel_monotone(m, l, s.g as nat, (len - 1) as nat);
    assert(m[s.w] == nodes[s.w]);
    assert(block_text(RegexBuildingBlock::Concatenation) == seq!['#']);
}

/// A closing brace read in step with the grammar.
#[verifier::spinoff_prover]
#[verifier::rlimit(100)]
proof fn lemma_sim_close(t: ParseState, p: Parse, lay: Seq<Slot>)
    requires
        sim(t, p, lay),
        wf(t),
        t.nodes.len() + 2 <= usize::MAX,
        p.class == 0,
        p.count == 0,
        p.frames.len() >= 2,
        p.frames.last().n >= 1,
    ensures
        step(t, ')', char_is_alphanumeric(')'), char_is_numeric(')')) is Some,
        parse_char(p, ')') is Some,
        sim(step(t, ')', char_is_alphanumeric(')'), char_is_numeric(')'))->0, parse_char(p, ')')->0, lay.drop_last()),
{
    let nodes = t.nodes;
    let len = nodes.len() as int;
    let k = p.frames.len() - 1;
    let inner = p.frames[k];
    let p2 = parse_char(p, ')')->0;
    let lay2 = lay.drop_last();
    let sl = lay[k - 1];
    let g = sl.g;
    let fr = p.frames[k - 1];
    let fr2 = add_atom(fr, inner.word);
    assert(slot_ok(t, p, k - 1, sl));
    assert(root(t).index as int == g);
    assert(frame_text(inner) == inner.word);
    assert(p2.frames == p.frames.drop_last().update(k - 1, fr2));
    assert(forall|i: int| 0 <= i < k - 1 ==> #[trigger] p2.frames[i] == p.frames[i]);
    assert(p2.frames[k - 1] == fr2);
    assert(p2.class == 0 && p2.count == 0);
    assert(step(t, ')', char_is_alphanumeric(')'), char_is_numeric(')')) == crate::builder::step_close(t));
    let m = with_data(nodes, g, RegexBuildingBlock::ClosedBraces);
    let u = crate::builder::step_close(t)->0;
    assert(u.nodes == m);
    assert(u.stack == t.stack);
    assert(u.root_index == if t.root_index != 0 { t.root_index - 1 } else { t.root_index });
    let rank = choose|q: Seq<int>| ranked(nodes, q);
    lemma_ranked_postfix(nodes, rank, g, len as nat);
    lemma_closed_text(t, g, inner.word, len as nat);
    assert(forall|j: int| 0 <= j < len && j != g ==> #[trigger] m[j] == nodes[j]);
    assert(frame_ok(fr));
    assert(frame_ok(fr2));
    if k >= 2 {
        assert(shifted(p2) == shifted(p));
        assert(forall|i: int| 0 <= i <= k - 1 ==> level(p2, i) == level(p, i));
        assert forall|i: int| 0 <= i < k - 1 implies slot_ok(u, p2, i, #[trigger] lay2[i]) by {
            assert(lay2[i] == lay[i]);
            assert(slot_ok(t, p, i, lay[i]));
            assert(level(p, i + 1) <= level(p, k));
            if i < k - 2 {
                assert(lay[i].birth <= lay[k - 1].g);
            }
            assert(slot_ok(t, p2, i, lay[i]));
            lemma_slot_stable(t, u, p2, i, lay[i], sl.birth, g);
        }
        let pre = lay[k - 2];
        assert(slot_ok(t, p, k - 2, pre));
        assert(pre.birth <= sl.w);
        lemma_closed_slot_text(t, sl, fr.word, inner.word);
        assert(group_state(u, fr2.word, fr2.n, fr2.repeated, pre.birth));
        assert forall|f1: int, f2: int| 0 <= f1 < f2 < k - 1 implies #[trigger] lay2[f1].birth <= #[trigger] lay2[f2].g by {
            assert(lay2[f1] == lay[f1] && lay2[f2] == lay[f2]);
        }
        assert forall|f1: int, f2: int| 0 <= f1 < f2 < k - 1 implies #[trigger] lay2[f1].birth <= #[trigger] lay2[f2].w by {
            assert(lay2[f1] == lay[f1] && lay2[f2] == lay[f2]);
        }
        assert(sim(u, p2, lay2));
    } else {
        assert(!shifted(p2));
        assert(p2.frames.len() == 1);
        if shifted(p) {
            assert(tree_state(u, fr2.done, fr2.word, fr2.alt, fr2.n, fr2.repeated));
        } else if fr.alt && fr.n == 0 {
            let o = t.stack[0].index as int;
            assert(m.take(o) =~= nodes.take(o));
            assert(m[o] == nodes[o]);
            assert(tree_state(u, fr2.done, fr2.word, fr2.alt, fr2.n, fr2.repeated));
        } else {
            lemma_closed_slot_text(t, sl, fr.word, inner.word);
            if fr.alt {
                let o = t.stack[0].index as int;
                assert(m.take(o) =~= nodes.take(o));
                assert(m[o] == nodes[o]);
            }
            assert(m[sl.w] == nodes[sl.w]);
            assert(tree_state(u, fr2.done, fr2.word, fr2.alt, fr2.n, fr2.repeated));
        }
        assert(sim(u, p2, lay2));
    }
}

/// A character inside brackets, or one that opens them, read in step with the grammar: only
/// the bracket state changes.
#[verifier::spinoff_prover]
#[verifier::rlimit(60)]
proof fn lemma_sim_mode(t: ParseState, p: Parse, lay: Seq<Slot>, c: char)
    requires
        sim(t, p, lay),
        parse_char(p, c) is Some,
        (p.class == 0 && p.count == 0 && (c == '[' || c == '{')) || (p.class >= 1 && p.class <= 3)
            || p.count == 1 || (p.count == 2 && c == ',') || p.count == 3,
    ensures
        step(t, c, char_is_alphanumeric(c), char_is_numeric(c)) is Some ==> sim(
            step(t, c, char_is_alphanumeric(c), char_is_numeric(c))->0,
            parse_char(p, c)->0,
            lay,
        ),
{
    let p2 = parse_char(p, c)->0;
    let su = step(t, c, char_is_alphanumeric(c), char_is_numeric(c));
    if su is Some {
        let u = su->0;
        assert(p2.frames == p.frames);
        assert(u.nodes == t.nodes && u.stack == t.stack && u.root_index == t.root_index);
        assert(forall|f: int| 0 <= f < lay.len() ==> slot_ok(u, p2, f, #[trigger] lay[f]) == slot_ok(t, p, f, lay[f]));
        assert(sim(u, p2, lay));
    }
}

/// A plain character, `|` or a repeat operator read at the top level in step with the grammar.
#[verifier::spinoff_prover]
#[verifier::rlimit(60)]
proof fn lemma_sim_top(t: ParseState, p: Parse, c: char)
    requires
        sim(t, p, Seq::empty()),
        wf(t),
        t.nodes.len() + 2 <= usize::MAX,
        p.frames.len() == 1,
        p.class == 0,
        p.count == 0,
        is_plain(c) || c == '|' || is_repeat_op(c),
        parse_char(p, c) is Some,
    ensures
        step(t, c, char_is_alphanumeric(c), char_is_numeric(c)) is Some ==> sim(
            step(t, c, char_is_alphanumeric(c), char_is_numeric(c))->0,
            parse_char(p, c)->0,
            Seq::empty(),
        ),
{
    let f = p.frames[0];
    let p2 = parse_char(p, c)->0;
    assert(p.frames.last() == f);
    if c == '|' {
        lemma_tree_bar(t, f.done, f.word, f.alt, f.n, f.repeated);
        assert(p2.frames[0] == Reading { done: frame_text(f), word: Seq::empty(), alt: true, n: 0, repeated: false, ..f });
    } else if is_repeat_op(c) {
        lemma_tree_repeat(t, f.done, f.word, f.alt, f.n, f.repeated, c);
        assert(p2.frames[0] == add_repeat(f, seq![c]));
        assert(f.word + seq![c] =~= f.word.push(c));
        assert(f.word.drop_last() + seq![c] + seq!['#'] =~= f.word.drop_last() + seq![c, '#']);
    } else {
        lemma_tree_plain(t, f.done, f.word, f.alt, f.n, f.repeated, c);
        assert(p2.frames[0] == add_atom(f, seq![c]));
        assert(f.word + seq![c] + seq!['#'] =~= f.word + seq![c, '#']);
    }
    let su = step(t, c, char_is_alphanumeric(c), char_is_numeric(c));
    if su is Some {
        let u = su->0;
        assert(p2.frames.len() == 1);
        assert(p2.class == 0 && p2.count == 0 && p2.first == p.first && p2.second == p.second);
        assert(frame_ok(p2.frames[0]));
        assert(level(p2, 0) == 0);
        assert(u.root_index == t.root_index);
        assert(sim(u, p2, Seq::empty()));
    }
}

/// A closing bracket of a class or a count read at the top level in step with the grammar.
#[verifier::spinoff_prover]
#[verifier::rlimit(60)]
proof fn lemma_sim_top_close(t: ParseState, p: Parse, c: char)
    requires
        sim(t, p, Seq::empty()),
        wf(t),
        t.nodes.len() + 2 <= usize::MAX,
        p.frames.len() == 1,
        (p.class == 4 && c == ']') || ((p.count == 2 || p.count == 4) && c == '}'),
        parse_char(p, c) is Some,
    ensures
        step(t, c, char_is_alphanumeric(c), char_is_numeric(c)) is Some ==> sim(
            step(t, c, char_is_alphanumeric(c), char_is_numeric(c))->0,
            parse_char(p, c)->0,
            Seq::empty(),
        ),
{
    let f = p.frames[0];
    let p2 = parse_char(p, c)->0;
    assert(p.frames.last() == f);
    let r = Reading {
        done: f.done,
        word: f.word,
        alt: f.alt,
        n: f.n,
        repeated: f.repeated,
        class: t.class_mode,
        count: t.repeat_mode,
        start: t.start,
        end: t.end,
    };
    assert(reads(t, r));
    let su = step(t, c, char_is_alphanumeric(c), char_is_numeric(c));
    if root_closed(t) {
        if c == ']' {
            assert(su == crate::builder::step_close_class(t));
        } else {
            assert(su == crate::builder::step_close_repeat(t));
        }
        assert(su is None);
    } else if c == ']' {
        lemma_tree_close_class(t, r);
        if su is Some {
            let text = block_text(RegexBuildingBlock::CharacterClass(p.first, p.second));
            assert(held(r.start) == p.first && held(r.end) == p.second);
            assert(p2.frames[0] == add_atom(f, text));
            assert(read_char(r, ']')->0 == add_atom(Reading { class: false, start: None, end: None, ..r }, text));
        }
    } else {
        lemma_tree_close_count(t, r);
        if su is Some {
            let b = if p.count == 4 { p.second } else { p.first };
            assert(held(r.start) == p.first);
            assert(held(r.end) == b);
            assert(low_byte(p.first) == (p.first as u32) as int);
            assert(low_byte(b) == (b as u32) as int);
            let rep = RegexBuildingBlock::Repeat(digit_value(p.first), digit_value(b));
            assert(RegexBuildingBlock::Repeat((low_byte(p.first) - 0x30) as u8, (low_byte(b) - 0x30) as u8) == rep);
            assert(p2 == Parse { count: 0, ..with_inner(p, add_repeat(f, block_text(rep))) });
            assert(p2.frames[0] == add_repeat(f, block_text(rep)));
        }
    }
}

/// A plain character or a repeat operator read inside the innermost group in step with the
/// grammar.
#[verifier::spinoff_prover]
#[verifier::rlimit(80)]
proof fn lemma_sim_group(t: ParseState, p: Parse, lay: Seq<Slot>, c: char)
    requires
        sim(t, p, lay),
        wf(t),
        t.nodes.len() + 2 <= usize::MAX,
        p.frames.len() >= 2,
        p.class == 0,
        p.count == 0,
        is_plain(c) || is_repeat_op(c),
        parse_char(p, c) is Some,
    ensures
        step(t, c, char_is_alphanumeric(c), char_is_numeric(c)) is Some ==> sim(
            step(t, c, char_is_alphanumeric(c), char_is_numeric(c))->0,
            parse_char(p, c)->0,
            lay,
        ),
{
    let k = p.frames.len() - 1;
    let f = p.frames[k];
    let b = lay[k - 1].birth;
    let p2 = parse_char(p, c)->0;
    assert(p.frames.last() == f);
    assert(f == start_reading_with(f.word, f.n, f.repeated) || true);
    let su = step(t, c, char_is_alphanumeric(c), char_is_numeric(c));
    if is_repeat_op(c) {
        lemma_group_repeat(t, f.word, f.n, f.repeated, b, c);
        assert(p2.frames == p.frames.update(k, add_repeat(f, seq![c])));
        assert(add_repeat(f, seq![c]).word == add_repeat(start_reading_with(f.word, f.n, f.repeated), seq![c]).word);
    } else {
        lemma_group_plain(t, f.word, f.n, f.repeated, b, c);
        assert(p2.frames == p.frames.update(k, add_atom(f, seq![c])));
        assert(add_atom(f, seq![c]).word == add_atom(start_reading_with(f.word, f.n, f.repeated), seq![c]).word);
    }
    if su is Some {
        let u = su->0;
        lemma_slots_stable(t, u, p, lay);
        assert(forall|i: int| 0 <= i < k ==> #[trigger] p2.frames[i] == p.frames[i]);
        assert(shifted(p2) == shifted(p));
        assert(forall|i: int| 0 <= i <= k ==> level(p2, i) == level(p, i));
        assert forall|i: int| 0 <= i < k implies slot_ok(u, p2, i, #[trigger] lay[i]) by {
            assert(slot_ok(u, p, i, lay[i]));
        }
        assert(sim(u, p2, lay));
    }
}

/// The grammar's reading always holds at least the reading of the whole expression.
proof fn lemma_parse_frames(input: Seq<char>)
    ensures
        parse(input) is Some ==> parse(input)->0.frames.len() >= 1,
    decreases input.len(),
{
    if input.len() > 0 {
        lemma_parse_frames(input.drop_last());
    }
}

/// In the grammar, the innermost reading is an empty group only right after its opening brace.
proof fn lemma_empty_group_just_opened(p: Parse, c: char)
    requires
        p.frames.len() >= 1,
        parse_char(p, c) is Some,
        parse_char(p, c)->0.frames.len() >= 2,
        parse_char(p, c)->0.frames.last().n == 0,
        !parse_char(p, c)->0.frames.last().alt,
        parse_char(p, c)->0.class == 0,
        parse_char(p, c)->0.count == 0,
    ensures
        c == '(',
{
    let k = p.frames.len() - 1;
    let p2 = parse_char(p, c)->0;
    if p.class == 0 && p.count == 0 && c != '(' && c != '[' && c != '{' {
        if c == ')' {
            assert(p2.frames.last() == add_atom(p.frames.drop_last()[k - 1], frame_text(p.frames[k])));
        } else if c == '|' {
            assert(p2.frames.last().alt);
        } else if is_repeat_op(c) {
            assert(p2.frames.last() == add_repeat(p.frames[k], seq![c]));
        } else {
            assert(p2.frames.last() == add_atom(p.frames[k], seq![c]));
        }
    } else if p.class == 4 {
        assert(p2.frames.last().n >= 1);
    } else if p.count == 2 || p.count == 4 {
        if c == '}' {
            assert(p2.frames.last().n == p.frames[k].n);
        }
    }
}

/// Any character read in step with the grammar.
#[verifier::spinoff_prover]
#[verifier::rlimit(60)]
proof fn lemma_sim_step(t: ParseState, p: Parse, lay: Seq<Slot>, c: char) -> (lay2: Seq<Slot>)
    requires
        sim(t, p, lay),
        wf(t),
        t.nodes.len() + 2 <= usize::MAX,
        parse_char(p, c) is Some,
        c == '(' ==> !(p.frames.len() >= 2 && p.frames.last().n == 0),
    ensures
        step(t, c, char_is_alphanumeric(c), char_is_numeric(c)) is Some ==> sim(
            step(t, c, char_is_alphanumeric(c), char_is_numeric(c))->0,
            parse_char(p, c)->0,
            lay2,
        ),
{
    let k = p.frames.len() - 1;
    let su = step(t, c, char_is_alphanumeric(c), char_is_numeric(c));
    if (p.class == 0 && p.count == 0 && (c == '[' || c == '{')) || (p.class >= 1 && p.class <= 3) || p.count == 1
        || (p.count == 2 && c == ',') || p.count == 3 {
        lemma_sim_mode(t, p, lay, c);
        lay
    } else if p.class == 4 || p.count == 2 || p.count == 4 {
        if k == 0 {
            assert(lay =~= Seq::<Slot>::empty());
            lemma_sim_top_close(t, p, c);
        } else {
            let o = root(t).index as int;
            assert(t.nodes[o].data is OpeningBraces);
            if c == ']' {
                assert(su == crate::builder::step_close_class(t));
            } else {
                assert(su == crate::builder::step_close_repeat(t));
            }
        }
        lay
    } else if c == '(' {
        lemma_sim_open(t, p, lay)
    } else if c == ')' {
        lemma_sim_close(t, p, lay);
        lay.drop_last()
    } else if k == 0 {
        assert(lay =~= Seq::<Slot>::empty());
        lemma_sim_top(t, p, c);
        lay
    } else if c == '|' {
        let o = root(t).index as int;
        assert(t.nodes[o].data is OpeningBraces);
        lay
    } else {
        lemma_sim_group(t, p, lay, c);
        lay
    }
}

proof fn lemma_sim_run(input: Seq<char>) -> (lay: Seq<Slot>)
    requires
        2 * input.len() <= usize::MAX,
        !opens_twice(input),
    ensures
        parse(input) is Some && run(initial_state(), input) is Some ==> sim(run(initial_state(), input)->0, parse(input)->0, lay),
    decreases input.len(),
{
    let s0 = initial_state();
    if input.len() == 0 {
        assert(run(s0, input) == Some(s0));
        let lay: Seq<Slot> = Seq::empty();
        assert(sim(s0, parse_start(), lay));
        lay
    } else {
        let pr = input.drop_last();
        let c = input.last();
        assert(!opens_twice(pr)) by {
            if opens_twice(pr) {
                let i = choose|i: int| 0 <= i < pr.len() - 1 && pr[i] == '(' && #[trigger] pr[i + 1] == '(';
                assert(input[i] == '(' && input[i + 1] == '(');
            }
        }
        let lay0 = lemma_sim_run(pr);
        assert(input =~= pr + seq![c]);
        lemma_run_append(s0, pr, seq![c]);
        if parse(input) is Some && run(s0, input) is Some {
            let p = parse(pr)->0;
            let t = run(s0, pr)->0;
            lemma_initial_wf();
            lemma_run_keeps_wf(s0, pr);
            if c == '(' && p.frames.len() >= 2 && p.frames.last().n == 0 {
                assert(!p.frames.last().alt);
                assert(p.class == 0 && p.count == 0);
                assert(pr.len() > 0);
                assert(parse(pr) == parse_char(parse(pr.drop_last())->0, pr.last()));
                lemma_parse_frames(pr.drop_last());
                lemma_empty_group_just_opened(parse(pr.drop_last())->0, pr.last());
                assert(pr.last() == input[input.len() - 2]);
                let i = input.len() - 2;
                assert(input[i] == '(' && input[i + 1] == '(');
                assert(opens_twice(input));
            }
            let lay2 = lemma_sim_step(t, p, lay0, c);
            assert(seq![c].drop_first() =~= Seq::<char>::empty());
            assert(seq![c][0] == c);
            let u = step(t, c, char_is_alphanumeric(c), char_is_numeric(c))->0;
            assert(run(u, seq![c].drop_first()) == Some(u));
            lay2
        } else {
            lay0
        }
    }
}

/// For every non-empty input of the grammar of [`parse_char`] that the conversion accepts, the
/// conversion gives the postfix form [`regex_postfix`] of the grammar: concatenations and
/// alternatives joined from the left and marked by `#` and `|`, each repeat right after the
/// atom it applies to, and groups leaving no trace.
pub proof fn lemma_converts_to_grammar(input: Seq<char>)
    requires
        2 * input.len() <= usize::MAX,
        regex_postfix(input) is Some,
        infix_to_postfix_spec(input) is Some,
    ensures
        infix_to_postfix_spec(input) == regex_postfix(input),
{
    if opens_twice(input) {
        lemma_opens_twice_refused(input);
    } else {
        lemma_converts_single_opens(input);
    }
}

/// [`lemma_converts_to_grammar`] where no opening brace directly follows another.
proof fn lemma_converts_single_opens(input: Seq<char>)
    requires
        2 * input.len() <= usize::MAX,
        !opens_twice(input),
        regex_postfix(input) is Some,
        infix_to_postfix_spec(input) is Some,
    ensures
        infix_to_postfix_spec(input) == regex_postfix(input),
{
    let lay = lemma_sim_run(input);
    let t = run(initial_state(), input)->0;
    let p = parse(input)->0;
    let f = p.frames[0];
    lemma_initial_wf();
    lemma_run_keeps_wf(initial_state(), input);
    assert(lay.len() == 0);
    lemma_tree_text(t, f.done, f.word, f.alt, f.n, f.repeated);
}

/// The plain characters of a reading's texts.
pub open spec fn frame_ops(f: Reading) -> Seq<char> {
    operands(f.done + f.word)
}

/// The `|` of a reading's texts, with the one its alternative will add.
pub open spec fn frame_bars(f: Reading) -> int {
    bars(f.done) + bars(f.word) + (if f.alt { 1int } else { 0int })
}

/// Whether a reading's texts hold no brace.
pub open spec fn frame_brace_free(f: Reading) -> bool {
    brace_free(f.done) && brace_free(f.word)
}

/// The plain characters of all the readings, the outermost first.
pub open spec fn frames_ops(fs: Seq<Reading>) -> Seq<char>
    decreases fs.len(),
{
    if fs.len() == 0 { Seq::empty() } else { frames_ops(fs.drop_last()) + frame_ops(fs.last()) }
}

/// The `|` of all the readings.
pub open spec fn frames_bars(fs: Seq<Reading>) -> int
    decreases fs.len(),
{
    if fs.len() == 0 { 0 } else { frames_bars(fs.drop_last()) + frame_bars(fs.last()) }
}

/// The plain characters read inside brackets that are not closed yet.
pub open spec fn pending_ops(p: Parse) -> Seq<char> {
    if p.class >= 2 {
        if p.class == 4 { seq![p.first, p.second] } else { seq![p.first] }
    } else if p.count >= 2 {
        if p.count == 4 { seq![p.first, ',', p.second] } else if p.count == 3 { seq![p.first, ','] } else { seq![p.first] }
    } else {
        Seq::empty()
    }
}

/// Whether no count `{d,e}` of `input` has two equal digits or is `{0,1}`: those are written
/// `{d}` and `?`.
pub open spec fn counts_written_out(input: Seq<char>) -> bool {
    forall|i: int| #![trigger input[i]]
        0 <= i && i + 4 < input.len() && input[i] == '{' && input[i + 2] == ',' && input[i + 4] == '}'
            ==> input[i + 1] != input[i + 3] && !(input[i + 1] == '0' && input[i + 3] == '1')
}

proof fn lemma_text_ops(a: Seq<char>, b: Seq<char>, c: Seq<char>)
    ensures
        operands(a + b + c) == operands(a) + operands(b) + operands(c),
        bars(a + b + c) == bars(a) + bars(b) + bars(c),
{
    lemma_operands_bars_append(a, b);
    lemma_operands_bars_append(a + b, c);
}

/// An atom with text `text` added to a reading.
proof fn lemma_atom_ops(f: Reading, text: Seq<char>)
    requires
        frame_ok(f),
        frame_brace_free(f),
        brace_free(text),
    ensures
        frame_ops(add_atom(f, text)) == frame_ops(f) + operands(text),
        frame_bars(add_atom(f, text)) == frame_bars(f) + bars(text),
        frame_ok(add_atom(f, text)),
        frame_brace_free(add_atom(f, text)),
{
    lemma_operands_single('#');
    if f.n == 0 {
        assert(f.word =~= Seq::<char>::empty());
        assert(f.done + text =~= f.done + f.word + text);
        lemma_operands_bars_append(f.done + f.word, text);
        assert(f.done + f.word =~= f.done);
    } else {
        lemma_text_ops(f.word, text, seq!['#']);
        lemma_text_ops(f.done, f.word + text, seq!['#']);
        assert(f.done + (f.word + text + seq!['#']) =~= f.done + f.word + text + seq!['#']);
        lemma_text_ops(f.done + f.word, text, seq!['#']);
        lemma_operands_bars_append(f.done, f.word);
        assert(operands(f.done + f.word) + operands(text) + Seq::<char>::empty() =~= operands(f.done + f.word) + operands(text));
    }
}

/// A repeat with text `text` put on a reading's last atom.
proof fn lemma_repeat_ops(f: Reading, text: Seq<char>)
    requires
        frame_ok(f),
        frame_brace_free(f),
        f.n >= 1,
        brace_free(text),
        bars(text) == 0,
    ensures
        frame_ops(add_repeat(f, text)) == frame_ops(f) + operands(text),
        frame_bars(add_repeat(f, text)) == frame_bars(f),
        frame_ok(add_repeat(f, text)),
        frame_brace_free(add_repeat(f, text)),
{
    lemma_operands_single('#');
    if f.n == 1 {
        lemma_text_ops(f.done, f.word, text);
        assert(f.done + (f.word + text) =~= f.done + f.word + text);
        lemma_operands_bars_append(f.done, f.word);
        assert(add_repeat(f, text).word == f.word + text);
        lemma_operands_bars_append(f.word, text);
        assert(frame_ops(add_repeat(f, text)) == operands(f.done + f.word + text));
        assert(operands(f.done) + operands(f.word) + operands(text) == operands(f.done + f.word) + operands(text));
    } else {
        let w = f.word.drop_last();
        assert(f.word =~= w + seq!['#']);
        lemma_operands_bars_append(w, seq!['#']);
        lemma_text_ops(f.done, w, text);
        lemma_operands_bars_append(f.done + w + text, seq!['#']);
        assert(f.done + (w + text + seq!['#']) =~= f.done + w + text + seq!['#']);
        lemma_operands_bars_append(f.done, f.word);
        lemma_operands_bars_append(f.done, w);
        lemma_operands_bars_append(w + text, seq!['#']);
        lemma_operands_bars_append(w, text);
        assert(operands(f.done + w + text) + Seq::<char>::empty() =~= operands(f.done + w + text));
        assert(operands(w) + Seq::<char>::empty() =~= operands(w));
        assert(brace_free(w + text + seq!['#']));
        assert(add_repeat(f, text).word == w + text + seq!['#']);
        lemma_text_ops(w, text, seq!['#']);
        assert(frame_ops(add_repeat(f, text)) == operands(f.done + w + text + seq!['#']));
        assert(operands(f.done + w + text + seq!['#']) == operands(f.done + w + text));
        assert(operands(f.done + w + text) == operands(f.done) + operands(w) + operands(text));
        assert(operands(f.word) == operands(w));
        assert(frame_ops(f) == operands(f.done) + operands(w));
    }
}

/// A `|` ends a reading's alternative.
proof fn lemma_bar_ops(f: Reading)
    requires
        frame_ok(f),
        frame_brace_free(f),
        f.n >= 1,
    ensures
        ({
            let g = Reading { done: frame_text(f), word: Seq::empty(), alt: true, n: 0, repeated: false, ..f };
            &&& frame_ops(g) == frame_ops(f)
            &&& frame_bars(g) == frame_bars(f) + 1
            &&& frame_ok(g)
            &&& frame_brace_free(g)
        }),
{
    lemma_frame_text_ops(f);
    let t = frame_text(f);
    assert(t + Seq::<char>::empty() =~= t);
    assert(bars(Seq::<char>::empty()) == 0);
}

/// The text of a finished reading keeps its plain characters and its `|`.
proof fn lemma_frame_text_ops(f: Reading)
    requires
        frame_ok(f),
        frame_brace_free(f),
    ensures
        operands(frame_text(f)) == frame_ops(f),
        bars(frame_text(f)) == frame_bars(f),
        brace_free(frame_text(f)),
{
    lemma_operands_single('|');
    lemma_operands_bars_append(f.done, f.word);
    if f.alt {
        lemma_operands_bars_append(f.done + f.word, seq!['|']);
        assert(operands(f.done + f.word) + Seq::<char>::empty() =~= operands(f.done + f.word));
    } else {
        assert(f.done =~= Seq::<char>::empty());
        assert(f.done + f.word =~= f.word);
    }
}

/// Replacing the innermost reading.
proof fn lemma_frames_last(fs: Seq<Reading>, x: Reading)
    requires
        fs.len() >= 1,
    ensures
        frames_ops(fs.update(fs.len() - 1, x)) == frames_ops(fs.drop_last()) + frame_ops(x),
        frames_bars(fs.update(fs.len() - 1, x)) == frames_bars(fs.drop_last()) + frame_bars(x),
        frames_ops(fs) == frames_ops(fs.drop_last()) + frame_ops(fs.last()),
        frames_bars(fs) == frames_bars(fs.drop_last()) + frame_bars(fs.last()),
{
    assert(fs.update(fs.len() - 1, x).drop_last() =~= fs.drop_last());
}

/// The plain characters, `|` and braces of `[x-y]` and of the text of a count.
proof fn lemma_bracket_texts(x: char, y: char, d: char, e: char)
    requires
        is_plain(x),
        is_plain(y),
        is_digit(d),
        is_digit(e),
    ensures
        operands(block_text(RegexBuildingBlock::CharacterClass(x, y))) == seq![x, y],
        bars(block_text(RegexBuildingBlock::CharacterClass(x, y))) == 0,
        brace_free(block_text(RegexBuildingBlock::CharacterClass(x, y))),
        operands(block_text(RegexBuildingBlock::Repeat(digit_value(d), digit_value(d)))) == seq![d],
        bars(block_text(RegexBuildingBlock::Repeat(digit_value(d), digit_value(d)))) == 0,
        brace_free(block_text(RegexBuildingBlock::Repeat(digit_value(d), digit_value(d)))),
        d != e && !(d == '0' && e == '1') ==> operands(block_text(RegexBuildingBlock::Repeat(digit_value(d), digit_value(e)))) == seq![d, ',', e],
        bars(block_text(RegexBuildingBlock::Repeat(digit_value(d), digit_value(e)))) == 0,
        brace_free(block_text(RegexBuildingBlock::Repeat(digit_value(d), digit_value(e)))),
{
    lemma_operands_single('[');
    lemma_operands_single(']');
    lemma_operands_single('-');
    lemma_operands_single('{');
    lemma_operands_single('}');
    lemma_operands_single(',');
    lemma_operands_single('?');
    lemma_operands_single(x);
    lemma_operands_single(y);
    lemma_operands_single(d);
    lemma_operands_single(e);
    let vd = digit_value(d);
    let ve = digit_value(e);
    assert(digit_char(vd as int) == d && vd < 10) by {
        assert('0' <= d <= '9');
    }
    assert(digit_char(ve as int) == e && ve < 10) by {
        assert('0' <= e <= '9');
    }
    assert(vd == ve <==> d == e);
    assert(vd == 0 <==> d == '0');
    assert(ve == 1 <==> e == '1');
    let ct = block_text(RegexBuildingBlock::CharacterClass(x, y));
    assert(ct =~= seq!['['] + seq![x] + seq!['-'] + seq![y] + seq![']']);
    lemma_text_ops(seq!['['], seq![x], seq!['-']);
    lemma_text_ops(seq!['['] + seq![x] + seq!['-'], seq![y], seq![']']);
    assert(Seq::<char>::empty() + seq![x] + Seq::<char>::empty() + seq![y] + Seq::<char>::empty() =~= seq![x, y]);
    let one = block_text(RegexBuildingBlock::Repeat(vd, vd));
    assert(decimal(vd) == seq![d]);
    assert(decimal(ve) == seq![e]);
    assert(one =~= seq!['{'] + seq![d] + seq!['}']);
    lemma_text_ops(seq!['{'], seq![d], seq!['}']);
    assert(Seq::<char>::empty() + seq![d] + Seq::<char>::empty() =~= seq![d]);
    let two = block_text(RegexBuildingBlock::Repeat(vd, ve));
    if vd == ve {
        assert(two =~= seq!['{'] + seq![d] + seq!['}']);
    } else if vd == 0 && ve == 1 {
        assert(two == seq!['?']);
    } else {
        assert(two =~= seq!['{'] + seq![d] + seq![','] + seq![e] + seq!['}']);
        lemma_text_ops(seq!['{'], seq![d], seq![',']);
        lemma_text_ops(seq!['{'] + seq![d] + seq![','], seq![e], seq!['}']);
        assert(Seq::<char>::empty() + seq![d] + seq![','] + seq![e] + Seq::<char>::empty() =~= seq![d, ',', e]);
    }
}

/// What the grammar's reading keeps of the input read so far: its plain characters, those in
/// the texts of the readings and those inside brackets not yet closed, and its `|`.
pub open spec fn keeps_input(p: Parse, ops: Seq<char>, bs: int) -> bool {
    &&& p.frames.len() >= 1
    &&& frames_ops(p.frames) + pending_ops(p) == ops
    &&& frames_bars(p.frames) == bs
    &&& forall|f: int| 0 <= f < p.frames.len() ==> frame_ok(#[trigger] p.frames[f]) && frame_brace_free(p.frames[f])
    &&& p.class <= 4
    &&& p.count <= 4
    &&& !(p.class > 0 && p.count > 0)
    &&& (p.class >= 2 ==> is_plain(p.first))
    &&& (p.class == 4 ==> is_plain(p.second))
    &&& (p.count >= 2 ==> is_digit(p.first))
    &&& (p.count == 4 ==> is_digit(p.second))
}

/// One more character read by the grammar.
#[verifier::spinoff_prover]
#[verifier::rlimit(80)]
proof fn lemma_parse_char_keeps(p: Parse, c: char, ops: Seq<char>, bs: int)
    requires
        keeps_input(p, ops, bs),
        parse_char(p, c) is Some,
        p.count == 4 && c == '}' ==> p.first != p.second && !(p.first == '0' && p.second == '1'),
    ensures
        keeps_input(
            parse_char(p, c)->0,
            if is_plain(c) { ops.push(c) } else { ops },
            if c == '|' { bs + 1 } else { bs },
        ),
{
    let p2 = parse_char(p, c)->0;
    let fs = p.frames;
    let k = fs.len() - 1;
    let f = fs[k];
    assert(fs.last() == f);
    assert(frame_ok(f) && frame_brace_free(f));
    lemma_frames_last(fs, f);
    lemma_operands_single(c);
    let ops2 = if is_plain(c) { ops.push(c) } else { ops };
    if p.class >= 1 || p.count >= 1 {
        if p.class == 4 {
            lemma_bracket_texts(p.first, p.second, '0', '0');
            let x = add_atom(f, block_text(RegexBuildingBlock::CharacterClass(p.first, p.second)));
            lemma_atom_ops(f, block_text(RegexBuildingBlock::CharacterClass(p.first, p.second)));
            lemma_frames_last(fs, x);
            assert(p2.frames == fs.update(k, x));
            assert(frames_ops(p2.frames) + pending_ops(p2) =~= frames_ops(fs) + seq![p.first, p.second]);
            assert forall|i: int| 0 <= i < p2.frames.len() implies frame_ok(#[trigger] p2.frames[i]) && frame_brace_free(p2.frames[i]) by {
                if i != k {
                    assert(p2.frames[i] == fs[i]);
                }
            }
        } else if (p.count == 2 || p.count == 4) && c == '}' {
            let b = if p.count == 4 { p.second } else { p.first };
            lemma_bracket_texts('a', 'a', p.first, b);
            let text = block_text(RegexBuildingBlock::Repeat(digit_value(p.first), digit_value(b)));
            let x = add_repeat(f, text);
            lemma_repeat_ops(f, text);
            lemma_frames_last(fs, x);
            assert(p2.frames == fs.update(k, x));
            assert(frames_ops(p2.frames) + pending_ops(p2) =~= frames_ops(fs) + pending_ops(p));
            assert forall|i: int| 0 <= i < p2.frames.len() implies frame_ok(#[trigger] p2.frames[i]) && frame_brace_free(p2.frames[i]) by {
                if i != k {
                    assert(p2.frames[i] == fs[i]);
                }
            }
        } else {
            assert(p2.frames == fs);
            assert(frames_ops(p2.frames) + pending_ops(p2) =~= ops2);
        }
    } else if c == '(' {
        let x = start_reading();
        assert(p2.frames == fs.push(x));
        assert(p2.frames.drop_last() =~= fs);
        assert(operands(Seq::<char>::empty() + Seq::<char>::empty()) == Seq::<char>::empty()) by {
            assert(Seq::<char>::empty() + Seq::<char>::empty() =~= Seq::<char>::empty());
        }
        assert(bars(Seq::<char>::empty()) == 0);
        assert(frames_ops(p2.frames) =~= frames_ops(fs));
        assert(frames_ops(p2.frames) + pending_ops(p2) =~= ops2);
        assert forall|i: int| 0 <= i < p2.frames.len() implies frame_ok(#[trigger] p2.frames[i]) && frame_brace_free(p2.frames[i]) by {
            if i != k + 1 {
                assert(p2.frames[i] == fs[i]);
            }
        }
    } else if c == ')' {
        let outer = fs.drop_last();
        let g = outer[k - 1];
        assert(frame_ok(fs[k - 1]) && frame_brace_free(fs[k - 1]));
        assert(g == fs[k - 1]);
        lemma_frame_text_ops(f);
        let x = add_atom(g, frame_text(f));
        lemma_atom_ops(g, frame_text(f));
        lemma_frames_last(outer, x);
        lemma_frames_last(outer, g);
        assert(p2.frames == outer.update(k - 1, x));
        assert(outer.update(k - 1, g) =~= outer);
        assert(frames_ops(p2.frames) + pending_ops(p2) =~= frames_ops(fs));
        assert forall|i: int| 0 <= i < p2.frames.len() implies frame_ok(#[trigger] p2.frames[i]) && frame_brace_free(p2.frames[i]) by {
            if i != k - 1 {
                assert(p2.frames[i] == fs[i]);
            }
        }
    } else if c == '|' {
        lemma_bar_ops(f);
        let x = Reading { done: frame_text(f), word: Seq::empty(), alt: true, n: 0, repeated: false, ..f };
        lemma_frames_last(fs, x);
        assert(p2.frames == fs.update(k, x));
        assert(frames_ops(p2.frames) + pending_ops(p2) =~= ops2);
        assert forall|i: int| 0 <= i < p2.frames.len() implies frame_ok(#[trigger] p2.frames[i]) && frame_brace_free(p2.frames[i]) by {
            if i != k {
                assert(p2.frames[i] == fs[i]);
            }
        }
    } else if is_repeat_op(c) {
        lemma_repeat_ops(f, seq![c]);
        let x = add_repeat(f, seq![c]);
        lemma_frames_last(fs, x);
        assert(p2.frames == fs.update(k, x));
        assert(frames_ops(p2.frames) + pending_ops(p2) =~= ops2);
        assert forall|i: int| 0 <= i < p2.frames.len() implies frame_ok(#[trigger] p2.frames[i]) && frame_brace_free(p2.frames[i]) by {
            if i != k {
                assert(p2.frames[i] == fs[i]);
            }
        }
    } else if c == '[' || c == '{' {
        assert(p2.frames == fs);
        assert(frames_ops(p2.frames) + pending_ops(p2) =~= ops2);
    } else {
        lemma_atom_ops(f, seq![c]);
        let x = add_atom(f, seq![c]);
        lemma_frames_last(fs, x);
        assert(p2.frames == fs.update(k, x));
        assert(frames_ops(p2.frames) + pending_ops(p2) =~= ops2);
        assert forall|i: int| 0 <= i < p2.frames.len() implies frame_ok(#[trigger] p2.frames[i]) && frame_brace_free(p2.frames[i]) by {
            if i != k {
                assert(p2.frames[i] == fs[i]);
            }
        }
    }
}

proof fn lemma_parse_keeps(input: Seq<char>)
    requires
        counts_written_out(input),
    ensures
        parse(input) is Some ==> ({
            let p = parse(input)->0;
            let n = input.len() as int;
            &&& keeps_input(p, operands(input), bars(input) as int)
            &&& (p.count == 1 ==> n >= 1 && input[n - 1] == '{')
            &&& (p.count == 2 ==> n >= 2 && input[n - 2] == '{' && input[n - 1] == p.first)
            &&& (p.count == 3 ==> n >= 3 && input[n - 3] == '{' && input[n - 2] == p.first && input[n - 1] == ',')
            &&& (p.count == 4 ==> n >= 4 && input[n - 4] == '{' && input[n - 3] == p.first && input[n - 2] == ','
                && input[n - 1] == p.second)
        }),
    decreases input.len(),
{
    if input.len() == 0 {
        let p = parse_start();
        let e = Seq::<char>::empty();
        lemma_frames_last(p.frames, start_reading());
        assert(p.frames.drop_last() =~= Seq::<Reading>::empty());
        assert(p.frames.last() == start_reading());
        assert(frames_ops(Seq::<Reading>::empty()) == e);
        assert(frames_bars(Seq::<Reading>::empty()) == 0);
        assert(e + e =~= e);
        assert(operands(e) == e);
        assert(bars(e) == 0);
        assert(frame_ops(start_reading()) == e);
        assert(frame_bars(start_reading()) == 0);
        assert(frames_ops(p.frames) + pending_ops(p) =~= e);
        assert(input =~= e);
        assert forall|i: int| 0 <= i < p.frames.len() implies frame_ok(#[trigger] p.frames[i]) && frame_brace_free(p.frames[i]) by {
            assert(p.frames[i] == start_reading());
        }
        assert(keeps_input(p, operands(input), bars(input) as int));
    } else {
        let pr = input.drop_last();
        let c = input.last();
        let n = input.len() as int;
        assert(forall|j: int| 0 <= j < pr.len() ==> pr[j] == input[j]);
        assert(counts_written_out(pr)) by {
            assert forall|i: int| #![trigger pr[i]]
                0 <= i && i + 4 < pr.len() && pr[i] == '{' && pr[i + 2] == ',' && pr[i + 4] == '}'
                    implies pr[i + 1] != pr[i + 3] && !(pr[i + 1] == '0' && pr[i + 3] == '1') by {
                assert(input[i] == '{');
            }
        }
        lemma_parse_keeps(pr);
        if parse(input) is Some {
            let p = parse(pr)->0;
            if p.count == 4 && c == '}' {
                let i = n - 5;
                assert(input[i] == '{' && input[i + 2] == ',' && input[i + 4] == '}');
                assert(input[i + 1] == p.first && input[i + 3] == p.second);
            }
            lemma_parse_char_keeps(p, c, operands(pr), bars(pr) as int);
            assert(input.last() == c && input.drop_last() == pr);
        }
    }
}

/// For every expression of the grammar whose counts are written out as they stand (no `{d,d}`,
/// no `{0,1}`), its postfix form holds its plain characters in the same order, as many `|`
/// as it does, and no brace: groups leave no trace.
pub proof fn lemma_grammar_keeps_operands(input: Seq<char>)
    requires
        regex_postfix(input) is Some,
        counts_written_out(input),
    ensures
        operands(regex_postfix(input)->0) == operands(input),
        bars(regex_postfix(input)->0) == bars(input),
        brace_free(regex_postfix(input)->0),
{
    lemma_parse_keeps(input);
    let p = parse(input)->0;
    let f = p.frames[0];
    assert(frame_ok(f) && frame_brace_free(f));
    lemma_frames_last(p.frames, f);
    assert(p.frames.drop_last() =~= Seq::<Reading>::empty());
    assert(p.frames.last() == f);
    lemma_frame_text_ops(f);
    assert(frames_ops(p.frames) =~= frame_ops(f));
}

/// The conversion keeps the plain characters of every expression of the grammar in order,
/// as many `|` and no brace, where it accepts the expression and its counts are written out
/// as they stand.
pub proof fn lemma_conversion_keeps_operands(input: Seq<char>)
    requires
        2 * input.len() <= usize::MAX,
        regex_postfix(input) is Some,
        infix_to_postfix_spec(input) is Some,
        counts_written_out(input),
    ensures
        operands(infix_to_postfix_spec(input)->0) == operands(input),
        bars(infix_to_postfix_spec(input)->0) == bars(input),
        brace_free(infix_to_postfix_spec(input)->0),
{
    lemma_converts_to_grammar(input);
    lemma_grammar_keeps_operands(input);
}

/// A repeat after two groups side by side applies to the second group alone.
pub proof fn lemma_repeat_after_groups()
    ensures
        infix_to_postfix_spec(seq!['(', 'a', ')', '(', 'b', ')', '+']) == Some(seq!['a', 'b', '+', '#']),
{
    let input = seq!['(', 'a', ')', '(', 'b', ')', '+'];
    let ob = RegexBuildingBlock::OpeningBraces;
    let cb = RegexBuildingBlock::ClosedBraces;
    let cat = RegexBuildingBlock::Concatenation;
    let a = RegexBuildingBlock::CharacterLiteral('a');
    let b = RegexBuildingBlock::CharacterLiteral('b');
    let rep = RegexBuildingBlock::Repeat(1, u8::MAX);
    let s0 = initial_state();
    let s1 = step(s0, '(', char_is_alphanumeric('('), char_is_numeric('('))->0;
    assert(s1.nodes == seq![leaf(ob)]);
    assert(root(s1).index == 0 && s1.root_index == 0);
    let s2 = step(s1, 'a', char_is_alphanumeric('a'), char_is_numeric('a'))->0;
    assert(s2.nodes == seq![Node { parent: None, left: None, right: Some(id_of(1)), data: ob }, leaf(a)]);
    assert(root(s2).index == 0 && s2.root_index == 0);
    let s3 = step(s2, ')', char_is_alphanumeric(')'), char_is_numeric(')'))->0;
    assert(s3.nodes == seq![Node { parent: None, left: None, right: Some(id_of(1)), data: cb }, leaf(a)]);
    assert(root(s3).index == 0 && s3.root_index == 0);
    let s4 = step(s3, '(', char_is_alphanumeric('('), char_is_numeric('('))->0;
    assert(s4.nodes == seq![
        Node { parent: None, left: None, right: Some(id_of(1)), data: cb },
        leaf(a),
        Node { parent: None, left: Some(id_of(0)), right: Some(id_of(3)), data: cat },
        leaf(ob),
    ]);
    assert(s4.root_index == 1 && root(s4).index == 3 && s4.stack[0].index == 2);
    let s5 = step(s4, 'b', char_is_alphanumeric('b'), char_is_numeric('b'))->0;
    assert(s5.nodes == seq![
        Node { parent: None, left: None, right: Some(id_of(1)), data: cb },
        leaf(a),
        Node { parent: None, left: Some(id_of(0)), right: Some(id_of(3)), data: cat },
        Node { parent: None, left: None, right: Some(id_of(4)), data: ob },
        leaf(b),
    ]);
    assert(s5.root_index == 1 && root(s5).index == 3 && s5.stack[0].index == 2);
    let s6 = step(s5, ')', char_is_alphanumeric(')'), char_is_numeric(')'))->0;
    assert(s6.nodes == seq![
        Node { parent: None, left: None, right: Some(id_of(1)), data: cb },
        leaf(a),
        Node { parent: None, left: Some(id_of(0)), right: Some(id_of(3)), data: cat },
        Node { parent: None, left: None, right: Some(id_of(4)), data: cb },
        leaf(b),
    ]);
    assert(s6.root_index == 0 && root(s6).index == 2);
    assert(descend_within(s6.nodes, 2, 6) == Some(2int));
    let s7 = step(s6, '+', char_is_alphanumeric('+'), char_is_numeric('+'))->0;
    assert(s7.nodes == seq![
        Node { parent: None, left: None, right: Some(id_of(1)), data: cb },
        leaf(a),
        Node { parent: None, left: Some(id_of(0)), right: Some(id_of(3)), data: rep },
        Node { parent: None, left: None, right: Some(id_of(4)), data: cb },
        leaf(b),
        Node { parent: None, left: Some(id_of(2)), right: None, data: cat },
    ]);
    assert(root(s7).index == 5);
    let e = Seq::<char>::empty();
    assert(block_text(a) == seq!['a']);
    assert(block_text(b) == seq!['b']);
    assert(block_text(cb) == e);
    assert(block_text(cat) == seq!['#']);
    assert(block_text(rep) == seq!['+']);
    assert(postfix_within(s7.nodes, 1, 3) == Some(e + e + seq!['a']));
    assert(e + e + seq!['a'] =~= seq!['a']);
    assert(postfix_within(s7.nodes, 4, 3) == Some(e + e + seq!['b']));
    assert(e + e + seq!['b'] =~= seq!['b']);
    assert(postfix_within(s7.nodes, 0, 4) == Some(e + seq!['a'] + e));
    assert(e + seq!['a'] + e =~= seq!['a']);
    assert(postfix_within(s7.nodes, 3, 4) == Some(e + seq!['b'] + e));
    assert(e + seq!['b'] + e =~= seq!['b']);
    assert(postfix_within(s7.nodes, 2, 5) == Some(seq!['a'] + seq!['b'] + seq!['+']));
    assert(seq!['a'] + seq!['b'] + seq!['+'] =~= seq!['a', 'b', '+']);
    assert(postfix_within(s7.nodes, 5, 6) == Some(seq!['a', 'b', '+'] + e + seq!['#']));
    assert(seq!['a', 'b', '+'] + e + seq!['#'] =~= seq!['a', 'b', '+', '#']);
    let r6 = input.drop_first().drop_first().drop_first().drop_first().drop_first().drop_first();
    assert(r6 =~= seq!['+']);
    assert(r6.drop_first() =~= e);
    assert(run(s7, r6.drop_first()) == Some(s7));
    assert(run(s6, r6) == Some(s7));
    assert(input.drop_first().drop_first().drop_first().drop_first().drop_first() =~= seq![')', '+']);
    assert(run(s5, seq![')', '+']) == Some(s7));
    assert(input.drop_first().drop_first().drop_first().drop_first() =~= seq!['b', ')', '+']);
    assert(run(s4, seq!['b', ')', '+']) == Some(s7));
    assert(input.drop_first().drop_first().drop_first() =~= seq!['(', 'b', ')', '+']);
    assert(run(s3, seq!['(', 'b', ')', '+']) == Some(s7));
    assert(input.drop_first().drop_first() =~= seq![')', '(', 'b', ')', '+']);
    assert(run(s2, seq![')', '(', 'b', ')', '+']) == Some(s7));
    assert(input.drop_first() =~= seq!['a', ')', '(', 'b', ')', '+']);
    assert(run(s1, seq!['a', ')', '(', 'b', ')', '+']) == Some(s7));
    assert(run(s0, input) == Some(s7));
}

} // verus!
