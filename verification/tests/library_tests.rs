use regex_postfix::arena::{checked_postfix, recurse_postfix, Arena, NodeId, Render};
use regex_postfix::block::RegexBuildingBlock;
use regex_postfix::builder::TreeBuilder;
use regex_postfix::concat::{concat_right_side, descend_into_concatenation_right_side};
use regex_postfix::infix::{accepts, infix_to_postfix, try_infix_to_postfix};

fn text(b: RegexBuildingBlock) -> String {
    b.render()
}

#[test]
fn arena_starts_empty_and_numbers_nodes_in_order() {
    let mut arena: Arena<u32> = Arena::new();
    assert!(arena.is_empty());
    let a = arena.new_node(10);
    let b = arena.new_node(20);
    assert!(!arena.is_empty());
    assert_eq!(a.index, 0);
    assert_eq!(b.index, 1);
    assert_eq!(*arena.get_payload(&a), 10);
    assert_eq!(*arena.get_payload(&b), 20);
    assert!(arena.get_left_id(&a).is_none());
    assert!(arena.get_right_id(&a).is_none());
}

#[test]
fn arena_reads_back_what_was_written() {
    let mut arena: Arena<u32> = Arena::new();
    let p = arena.new_node(1);
    arena.change_payload(&p, 7);
    assert_eq!(*arena.get_payload(&p), 7);
    arena.add_left(&p, 2);
    let r = arena.add_right(&p, 3);
    assert_eq!(r.index, 2);
    assert_eq!(arena.get_left_id(&p).unwrap().index, 1);
    assert_eq!(arena.get_right_id(&p).unwrap().index, 2);
    assert_eq!(*arena.get_payload(&r), 3);
    let q = arena.new_node(4);
    arena.insert_left(&p, q);
    arena.insert_right(&p, NodeId { index: 1 });
    assert_eq!(arena.get_left_id(&p).unwrap().index, 3);
    assert_eq!(arena.get_right_id(&p).unwrap().index, 1);
    assert_eq!(*arena.get_payload(&p), 7);
}

#[test]
fn repeat_node_goes_between_node_and_right_child() {
    let mut arena: Arena<u32> = Arena::new();
    let p = arena.new_node(1);
    let old_right = arena.add_right(&p, 2);
    arena.insert_repeat_node_into_node(&p, 9);
    let fresh = arena.get_right_id(&p).unwrap().index;
    assert_eq!(fresh, 2);
    let fresh_id = NodeId { index: fresh };
    assert_eq!(*arena.get_payload(&fresh_id), 9);
    assert_eq!(arena.get_left_id(&fresh_id).unwrap().index, old_right.index);
    assert!(arena.get_right_id(&fresh_id).is_none());
}

#[test]
fn repeat_node_without_right_child_has_no_children() {
    let mut arena: Arena<u32> = Arena::new();
    let p = arena.new_node(1);
    arena.insert_repeat_node_into_node(&p, 9);
    let fresh_id = NodeId { index: 1 };
    assert_eq!(arena.get_right_id(&p).unwrap().index, 1);
    assert!(arena.get_left_id(&fresh_id).is_none());
    assert!(arena.get_right_id(&fresh_id).is_none());
}

#[test]
fn building_blocks_render_as_postfix_tokens() {
    assert_eq!(text(RegexBuildingBlock::CharacterLiteral('x')), "x");
    assert_eq!(text(RegexBuildingBlock::Concatenation), "#");
    assert_eq!(text(RegexBuildingBlock::CharacterClass('a', 'z')), "[a-z]");
    assert_eq!(text(RegexBuildingBlock::Repeat(0, 1)), "?");
    assert_eq!(text(RegexBuildingBlock::Repeat(0, 255)), "*");
    assert_eq!(text(RegexBuildingBlock::Repeat(1, 255)), "+");
    assert_eq!(text(RegexBuildingBlock::Repeat(3, 3)), "{3}");
    assert_eq!(text(RegexBuildingBlock::Repeat(3, 4)), "{3,4}");
    assert_eq!(text(RegexBuildingBlock::Or), "|");
    assert_eq!(text(RegexBuildingBlock::OpeningBraces), "(");
    assert_eq!(text(RegexBuildingBlock::ClosingBraces), ")");
    assert_eq!(text(RegexBuildingBlock::ClosedBraces), "");
}

#[test]
fn repeat_counts_render_in_decimal() {
    assert_eq!(text(RegexBuildingBlock::Repeat(0, 0)), "{0}");
    assert_eq!(text(RegexBuildingBlock::Repeat(10, 10)), "{10}");
    assert_eq!(text(RegexBuildingBlock::Repeat(99, 100)), "{99,100}");
    assert_eq!(text(RegexBuildingBlock::Repeat(205, 7)), "{205,7}");
    assert_eq!(text(RegexBuildingBlock::Repeat(2, 255)), "{2,255}");
    assert_eq!(text(RegexBuildingBlock::Repeat(255, 255)), "{255}");
}

#[test]
fn postfix_traversal_visits_children_first() {
    let mut arena: Arena<RegexBuildingBlock> = Arena::new();
    let concat = arena.new_node(RegexBuildingBlock::Concatenation);
    arena.add_left(&concat, RegexBuildingBlock::CharacterLiteral('a'));
    let right = arena.add_right(&concat, RegexBuildingBlock::Or);
    arena.add_left(&right, RegexBuildingBlock::CharacterLiteral('b'));
    arena.add_right(&right, RegexBuildingBlock::CharacterClass('0', '9'));
    let mut buffer = String::from(">");
    recurse_postfix(&arena, &concat, &mut buffer);
    assert_eq!(buffer, ">ab[0-9]|#");
    let mut sub = String::new();
    recurse_postfix(&arena, &right, &mut sub);
    assert_eq!(sub, "b[0-9]|");
}

#[test]
fn descent_follows_right_concatenations() {
    let mut arena: Arena<RegexBuildingBlock> = Arena::new();
    let top = arena.new_node(RegexBuildingBlock::Concatenation);
    let middle = arena.add_right(&top, RegexBuildingBlock::Concatenation);
    let bottom = arena.add_right(&middle, RegexBuildingBlock::Concatenation);
    arena.add_right(&bottom, RegexBuildingBlock::CharacterLiteral('z'));
    assert_eq!(descend_into_concatenation_right_side(&arena, &top).index, bottom.index);
    assert_eq!(descend_into_concatenation_right_side(&arena, &bottom).index, bottom.index);
    let lone = arena.new_node(RegexBuildingBlock::CharacterLiteral('q'));
    assert_eq!(descend_into_concatenation_right_side(&arena, &lone).index, lone.index);
}

#[test]
fn concat_right_side_splices_a_concatenation() {
    let mut arena: Arena<RegexBuildingBlock> = Arena::new();
    let parent = arena.new_node(RegexBuildingBlock::Or);
    arena.add_right(&parent, RegexBuildingBlock::CharacterLiteral('a'));
    let leaf = concat_right_side(&mut arena, &parent, RegexBuildingBlock::CharacterLiteral('b'));
    assert_eq!(leaf, 2);
    let concat = arena.get_right_id(&parent).unwrap().index;
    assert_eq!(concat, 3);
    let concat_id = NodeId { index: concat };
    assert!(*arena.get_payload(&concat_id) == RegexBuildingBlock::Concatenation);
    assert_eq!(arena.get_left_id(&concat_id).unwrap().index, 1);
    assert_eq!(arena.get_right_id(&concat_id).unwrap().index, 2);
    let mut buffer = String::new();
    recurse_postfix(&arena, &parent, &mut buffer);
    assert_eq!(buffer, "ab#|");
}

#[test]
fn concat_right_side_without_right_child() {
    let mut arena: Arena<RegexBuildingBlock> = Arena::new();
    let parent = arena.new_node(RegexBuildingBlock::OpeningBraces);
    let leaf = concat_right_side(&mut arena, &parent, RegexBuildingBlock::OpeningBraces);
    assert_eq!(leaf, 1);
    let concat_id = NodeId { index: 2 };
    assert!(arena.get_left_id(&concat_id).is_none());
    assert_eq!(arena.get_right_id(&concat_id).unwrap().index, 1);
}

#[test]
fn builder_feeds_characters_one_at_a_time() {
    let mut builder = TreeBuilder::new();
    assert!(builder.is_empty());
    assert!(builder.feed('a'));
    assert_eq!(builder.postfix(), "a");
    assert!(builder.feed('b'));
    assert_eq!(builder.postfix(), "ab#");
    assert!(builder.feed('+'));
    assert_eq!(builder.postfix(), "ab+#");
    assert!(builder.feed('|'));
    assert!(builder.feed('c'));
    assert_eq!(builder.postfix(), "ab+#c|");
}

#[test]
fn builder_rejection_keeps_the_tree() {
    let mut builder = TreeBuilder::new();
    assert!(!builder.feed('|'));
    assert!(builder.is_empty());
    assert!(builder.feed('x'));
    assert!(!builder.feed('#'));
    assert!(!builder.feed(')'));
    assert_eq!(builder.postfix(), "x");
}

#[test]
fn builder_classification_is_taken_as_given() {
    let mut builder = TreeBuilder::new();
    assert!(builder.feed_classified('[', false, false));
    assert!(!builder.feed_classified('a', false, false));
    let mut other = TreeBuilder::new();
    assert!(other.feed_classified('[', false, false));
    assert!(other.feed_classified('%', true, false));
    assert!(other.feed_classified('&', true, false));
    assert!(other.feed_classified(']', false, false));
    assert_eq!(other.postfix(), "[%-&]");
}

#[test]
fn single_plain_character_converts_to_itself() {
    assert_eq!(infix_to_postfix("x"), "x");
    assert_eq!(infix_to_postfix("."), ".");
    assert_eq!(infix_to_postfix("é"), "é");
}

#[test]
fn two_plain_characters_are_concatenated() {
    assert_eq!(infix_to_postfix("xy"), "xy#");
    assert_eq!(infix_to_postfix("1."), "1.#");
}

#[test]
fn reserved_characters_are_rejected() {
    assert!(!accepts("#"));
    assert!(!accepts("a#b"));
    assert!(!accepts("ab!"));
    assert_eq!(try_infix_to_postfix("x|y#"), None);
}

#[test]
fn rejected_inputs() {
    assert!(!accepts(""));
    assert!(!accepts("-"));
    assert!(!accepts("|a"));
    assert!(!accepts("+"));
    assert!(!accepts(")"));
    assert!(!accepts("a)"));
    assert!(!accepts("}"));
    assert!(!accepts("]"));
    assert!(!accepts("[a]"));
    assert!(!accepts("[[a-b]"));
    assert!(!accepts("a{[3}"));
    assert!(!accepts("a{,}"));
    assert!(!accepts("a{3,}"));
    assert!(!accepts("[a-%]"));
    assert!(!accepts("a{x}"));
    assert!(!accepts("(|"));
    assert!(!accepts("(a)+*"));
}

#[test]
fn accepted_inputs_match_the_conversion() {
    for input in ["a|b", "(ab)+|(c?d)+", "[a-z]{3,4}[0-9]", "c(d+c*)bc", "(a(b)+)+"] {
        assert!(accepts(input));
        assert_eq!(try_infix_to_postfix(input), Some(infix_to_postfix(input)));
    }
    assert_eq!(try_infix_to_postfix("a|b|c"), Some(String::from("ab|c|")));
}

#[test]
fn stack_of_roots_has_room_for_six_nested_levels() {
    assert_eq!(infix_to_postfix("a(b(c(d(e(f(g"), "g(");
    assert!(!accepts("a(b(c(d(e(f(g(h"));
}

#[test]
fn closing_brace_returns_to_the_outer_level() {
    assert_eq!(infix_to_postfix("a(b)c"), "ab#c#");
    assert_eq!(infix_to_postfix("(a)b"), "ab#");
}

#[test]
fn repeat_counts_take_the_low_byte_of_the_digit() {
    assert_eq!(infix_to_postfix("a{9}"), "a{9}");
    assert_eq!(infix_to_postfix("a{٣}"), "a{51}");
    assert_eq!(infix_to_postfix("[٣-٩]"), "[٣-٩]");
}

#[test]
fn dash_outside_brackets_is_ignored() {
    assert_eq!(infix_to_postfix("a-b"), "ab#");
}

#[test]
fn checked_postfix_agrees_with_the_traversal() {
    let mut arena: Arena<RegexBuildingBlock> = Arena::new();
    let concat = arena.new_node(RegexBuildingBlock::Concatenation);
    arena.add_left(&concat, RegexBuildingBlock::CharacterLiteral('a'));
    arena.add_right(&concat, RegexBuildingBlock::Repeat(0, 1));
    let mut buffer = String::new();
    recurse_postfix(&arena, &concat, &mut buffer);
    assert_eq!(checked_postfix(&arena, &concat), Some(buffer));
    assert_eq!(checked_postfix(&arena, &concat), Some(String::from("a?#")));
}

#[test]
fn checked_postfix_refuses_cycles_and_missing_nodes() {
    let mut arena: Arena<RegexBuildingBlock> = Arena::new();
    let top = arena.new_node(RegexBuildingBlock::Or);
    let child = arena.add_right(&top, RegexBuildingBlock::OpeningBraces);
    arena.insert_left(&child, top);
    assert_eq!(checked_postfix(&arena, &top), None);
    let mut other: Arena<RegexBuildingBlock> = Arena::new();
    let lone = other.new_node(RegexBuildingBlock::Or);
    other.insert_right(&lone, NodeId { index: 5 });
    assert_eq!(checked_postfix(&other, &lone), None);
    assert_eq!(checked_postfix(&other, &NodeId { index: 1 }), None);
}

#[test]
fn repeat_after_two_groups_applies_to_the_second() {
    assert_eq!(infix_to_postfix("(a)(b)+"), "ab+#");
    assert_eq!(infix_to_postfix("(a)(b)*"), "ab*#");
    assert_eq!(infix_to_postfix("(ab)+"), "ab#+");
}

#[test]
fn plain_characters_are_concatenated_from_the_left() {
    assert_eq!(infix_to_postfix("abcd"), "ab#c#d#");
    assert_eq!(infix_to_postfix("x1y2z"), "x1#y#2#z#");
}

#[test]
fn ascii_letters_and_digits_fill_brackets() {
    assert_eq!(infix_to_postfix("[A-Z]"), "[A-Z]");
    assert_eq!(infix_to_postfix("a{5}"), "a{5}");
    assert_eq!(try_infix_to_postfix("a{Z}"), None);
    assert_eq!(try_infix_to_postfix("[a-_]"), None);
}

fn child_ids(arena: &Arena<RegexBuildingBlock>) -> Vec<usize> {
    let mut ids = Vec::new();
    for node in arena.nodes.iter() {
        if let Some(id) = node.left {
            ids.push(id.index);
        }
        if let Some(id) = node.right {
            ids.push(id.index);
        }
    }
    ids
}

fn found_from(arena: &Arena<RegexBuildingBlock>, start: usize) -> Vec<usize> {
    let mut seen = vec![start];
    let mut next = 0;
    while next < seen.len() {
        let node = &arena.nodes[seen[next]];
        for link in [node.left, node.right] {
            if let Some(id) = link {
                if !seen.contains(&id.index) {
                    seen.push(id.index);
                }
            }
        }
        next += 1;
    }
    seen.sort();
    seen
}

#[test]
fn splicing_keeps_a_tree_and_detaches_nothing() {
    let mut arena: Arena<RegexBuildingBlock> = Arena::new();
    let top = arena.new_node(RegexBuildingBlock::Concatenation);
    arena.add_left(&top, RegexBuildingBlock::CharacterLiteral('a'));
    arena.add_right(&top, RegexBuildingBlock::CharacterLiteral('b'));
    assert_eq!(found_from(&arena, 0), vec![0, 1, 2]);
    concat_right_side(&mut arena, &top, RegexBuildingBlock::CharacterLiteral('c'));
    let mut ids = child_ids(&arena);
    ids.sort();
    assert_eq!(ids, vec![1, 2, 3, 4]);
    assert_eq!(found_from(&arena, 0), vec![0, 1, 2, 3, 4]);
    arena.insert_repeat_node_into_node(&top, RegexBuildingBlock::Repeat(0, 1));
    let mut ids = child_ids(&arena);
    ids.sort();
    assert_eq!(ids, vec![1, 2, 3, 4, 5]);
    assert_eq!(found_from(&arena, 0), vec![0, 1, 2, 3, 4, 5]);
    let mut buffer = String::new();
    recurse_postfix(&arena, &top, &mut buffer);
    assert_eq!(buffer, "abc#?#");
}

#[test]
fn alternatives_are_joined_from_the_left() {
    assert_eq!(infix_to_postfix("ab|c"), "ab#c|");
    assert_eq!(infix_to_postfix("ab|cd|e"), "ab#cd#|e|");
    assert_eq!(infix_to_postfix("a||b"), "a|b|");
    assert_eq!(infix_to_postfix("a|"), "a|");
}

#[test]
fn alternatives_keep_operands_and_bars() {
    let input = "xy|z1|w";
    let output = infix_to_postfix(input);
    let operands = |s: &str| s.chars().filter(|c| *c != '|' && *c != '#').collect::<String>();
    assert_eq!(operands(&output), operands(input));
    assert_eq!(output.matches('|').count(), input.matches('|').count());
    assert!(!output.contains('(') && !output.contains(')'));
}

#[test]
fn repeats_follow_the_character_they_apply_to() {
    assert_eq!(infix_to_postfix("ab+|c*d?"), "ab+#c*d?#|");
    assert_eq!(infix_to_postfix("ab+*"), "ab+*#");
    assert_eq!(infix_to_postfix("x|a+"), "xa+|");
    assert_eq!(infix_to_postfix("x|ab*?c"), "xab*?#c#|");
    assert_eq!(try_infix_to_postfix("a+*"), None);
    assert_eq!(try_infix_to_postfix("x|a?+"), None);
    assert_eq!(try_infix_to_postfix("a|+"), None);
    assert_eq!(try_infix_to_postfix("|"), None);
}

#[test]
fn classes_and_counts_outside_alternatives() {
    assert_eq!(infix_to_postfix("ab{2}"), "ab{2}#");
    assert_eq!(infix_to_postfix("{3}"), "{3}");
    assert_eq!(infix_to_postfix("[abc]"), "[a-c]");
    assert_eq!(infix_to_postfix("x-y"), "xy#");
    assert_eq!(infix_to_postfix("[a-c]|d"), "[a-c]d|");
    assert_eq!(try_infix_to_postfix("a|[b-c]"), None);
    assert_eq!(try_infix_to_postfix("a|b{2}"), None);
    assert_eq!(try_infix_to_postfix("a+{2}"), None);
}

#[test]
fn braces_around_the_whole_input_leave_no_trace() {
    for input in ["a", "a*", "ab+c", "xy?z*"] {
        let grouped = format!("({})", input);
        assert_eq!(infix_to_postfix(&grouped), infix_to_postfix(input));
    }
    assert_eq!(infix_to_postfix("(ab+c)"), "ab+#c#");
    assert_eq!(try_infix_to_postfix("(a+*)"), None);
    assert_eq!(try_infix_to_postfix("a+*"), None);
}

#[test]
fn grouped_expressions_convert_to_their_postfix_form() {
    assert_eq!(infix_to_postfix("(a(b)+)+"), "ab+#+");
    assert_eq!(infix_to_postfix("x|(ab)c"), "xab#c#|");
    assert_eq!(infix_to_postfix("(a)(b)"), "ab#");
    assert_eq!(infix_to_postfix("[a-c](xy){2,3}|z"), "[a-c]xy#{2,3}#z|");
}

#[test]
fn groups_with_alternatives_or_nested_openings_are_refused() {
    assert_eq!(try_infix_to_postfix("(ab|c)d"), None);
    assert_eq!(try_infix_to_postfix("(a|b)"), None);
    assert_eq!(try_infix_to_postfix("((a))"), None);
    assert_eq!(try_infix_to_postfix("x((y)z)"), None);
    assert_eq!(try_infix_to_postfix("((a)(b))"), None);
    assert_eq!(try_infix_to_postfix("((a))+"), None);
}

#[test]
fn grouped_expressions_keep_operands_and_bars() {
    let operands = |s: &str| s.chars().filter(|c| c.is_alphanumeric()).collect::<String>();
    for input in ["(a(b)+)+|x", "x|(ab)c", "(ab)+|(c?d)+", "[a-z]{3,4}(q1)|y"] {
        let output = infix_to_postfix(input);
        assert_eq!(operands(&output), operands(input));
        assert_eq!(output.matches('|').count(), input.matches('|').count());
        assert!(!output.contains('(') && !output.contains(')'));
    }
}
