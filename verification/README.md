# regex_postfix

Converts a regular expression from infix to postfix notation, marking each concatenation
with `#` (`ab|c` becomes `ab#c|`). The expression is read one character at a time into a
binary tree whose nodes live in an arena and refer to each other by index; the tree is then
written out in post-order.

The library is verified with Verus:

- `arena`: the arena (`Arena`, `Node`, `NodeId`), its operations, the post-order traversal
  (`recurse_postfix`, `checked_postfix`), the ranking argument that an arena is acyclic, and
  what splicing a node in keeps of a tree (no shared child, nothing detached).
- `block`: the building blocks of the tree and their postfix text.
- `concat`: walking down chains of concatenations and splicing in a new concatenation.
- `builder`: the construction as a state machine (`ParseState`, `step`, `run`), its
  invariant, and `TreeBuilder`, which carries it out character by character.
- `infix`: `infix_to_postfix`, `accepts` and `try_infix_to_postfix`.
- `laws`: properties that relate several operations. `regex_postfix` states the grammar
  (alternatives of concatenations of atoms with their repeats, an atom being a plain
  character, `[x-y]` or a group in braces) and the postfix form of each expression of it;
  `lemma_converts_to_grammar` proves that the conversion gives that form wherever it accepts
  such an expression, and `lemma_conversion_keeps_operands` that the result keeps the plain
  characters in order and the `|`, with no trace of the groups. For inputs without braces,
  `lemma_unbraced` gives the result in closed form.
- `nesting`: counting the opening braces the construction leaves open, and why an opening
  brace directly after another one buries it for good, so that such an expression is refused.
- `text`: the calls into the standard library that Verus takes on trust.

`app/main.rs` is the command-line program.
