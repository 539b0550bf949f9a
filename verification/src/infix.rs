use vstd::prelude::*;

use crate::arena::lemma_acyclic_postfix;
use crate::builder::{infix_to_postfix_spec, initial_state, root, run, wf, TreeBuilder};

verus! {

broadcast use vstd::string::group_string_axioms;

fn build(regex_infix: &str) -> (built: Option<TreeBuilder>)
    ensures
        match built {
            Some(b) => run(initial_state(), regex_infix@) == Some(b@) && wf(b@),
            None => run(initial_state(), regex_infix@) is None,
        },
{
    let mut builder = TreeBuilder::new();
    let ghost input = regex_infix@;
    assert(input.skip(0) =~= input);
    for c in it: regex_infix.chars()
        invariant
            input == regex_infix@,
            it.seq() == input,
            wf(builder@),
            run(builder@, input.skip(it.index() as int)) == run(initial_state(), input),
    {
            assert(input.skip(it.index() as int).drop_first() =~= input.skip(it.index() as int + 1));
        if !builder.feed(c) {
            return None;
        }
    }
    proof {
        assert(input.skip(input.len() as int) =~= Seq::<char>::empty());
    }
    Some(builder)
}

/// Whether [`infix_to_postfix`] converts `regex_infix`, that is whether the conversion neither
/// panics nor runs forever on it.
pub fn accepts(regex_infix: &str) -> (ok: bool)
    ensures
        ok == (infix_to_postfix_spec(regex_infix@) is Some),
{
    match build(regex_infix) {
        Some(builder) => {
            if builder.is_empty() {
                false
            } else {
                proof {
                    lemma_acyclic_postfix(builder@.nodes, root(builder@).index as int);
                }
                true
            }
        },
        None => false,
    }
}

/// Converts a regular expression from infix to postfix notation, with `#` marking each
/// concatenation: the tree built from the infix form, written out in post-order.
pub fn infix_to_postfix(regex_infix: &str) -> (postfix: String)
    requires
        infix_to_postfix_spec(regex_infix@) is Some,
    ensures
        postfix@ == infix_to_postfix_spec(regex_infix@)->0,
{
    match build(regex_infix) {
        Some(builder) => {
            if builder.is_empty() {
                proof {
                    assert(false);
                }
                String::new()
            } else {
                builder.postfix()
            }
        },
        None => {
            proof {
                assert(false);
            }
            String::new()
        },
    }
}

/// The postfix form of `regex_infix`, or `None` where [`infix_to_postfix`] does not convert it.
pub fn try_infix_to_postfix(regex_infix: &str) -> (postfix: Option<String>)
    ensures
        match postfix {
            Some(p) => infix_to_postfix_spec(regex_infix@) == Some(p@),
            None => infix_to_postfix_spec(regex_infix@) is None,
        },
{
    if accepts(regex_infix) {
        Some(infix_to_postfix(regex_infix))
    } else {
        None
    }
}

} // verus!
