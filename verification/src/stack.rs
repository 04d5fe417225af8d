use crate::codegenerator::{code, operation, program, Instruction};
use crate::node::Tree;
use vstd::prelude::*;

verus! {

/// By how many values the instruction makes the stack deeper.
pub open spec fn effect(i: Instruction) -> int {
    match i {
        Instruction::Push(_) => 1,
        Instruction::PushRax => 1,
        Instruction::PopRax => -1,
        Instruction::PopRdi => -1,
        _ => 0,
    }
}

/// The depth of the stack behind `code`, run on a stack of `depth` values;
/// nothing where a pop finds the stack empty.
pub open spec fn depth_after(code: Seq<Instruction>, depth: nat) -> Option<nat>
    decreases code.len(),
{
    if code.len() == 0 {
        Some(depth)
    } else {
        match depth_after(code.drop_last(), depth) {
            None => None,
            Some(d) => if d + effect(code.last()) < 0 {
                None
            } else {
                Some((d + effect(code.last())) as nat)
            },
        }
    }
}

/// Whether no identifier stands in `tree`.
pub open spec fn without_identifiers(tree: Tree) -> bool
    decreases tree,
{
    match tree {
        Tree::Num(_) => true,
        Tree::Var(_) => false,
        Tree::Op(_, lhs, rhs) => without_identifiers(*lhs) && without_identifiers(*rhs),
    }
}

/// Code that runs behind other code starts at the depth that the other left.
pub proof fn lemma_depth_after_both(first: Seq<Instruction>, second: Seq<Instruction>, depth: nat)
    ensures
        depth_after(first + second, depth) == match depth_after(first, depth) {
            Some(d) => depth_after(second, d),
            None => None,
        },
    decreases second.len(),
{
    if second.len() == 0 {
        assert(first + second == first);
    } else {
        assert((first + second).drop_last() == first + second.drop_last());
        lemma_depth_after_both(first, second.drop_last(), depth);
    }
}

/// What the machine does for an operator leaves the stack alone.
pub proof fn lemma_operation_keeps_depth(symbol: Seq<char>, depth: nat)
    ensures
        depth_after(operation(symbol), depth) == Some(depth),
{
    let ops = operation(symbol);
    assert(ops.len() <= 3);
    assert(forall|i: int| 0 <= i < ops.len() ==> effect(#[trigger] ops[i]) == 0);
    lemma_neutral_keeps_depth(ops, depth);
}

/// Instructions that neither push nor pop leave the stack alone.
proof fn lemma_neutral_keeps_depth(code: Seq<Instruction>, depth: nat)
    requires
        forall|i: int| 0 <= i < code.len() ==> effect(#[trigger] code[i]) == 0,
    ensures
        depth_after(code, depth) == Some(depth),
    decreases code.len(),
{
    if code.len() > 0 {
        lemma_neutral_keeps_depth(code.drop_last(), depth);
    }
}

/// The stack discipline of an expression: the code of a tree without
/// identifiers never pops what was on the stack before it, and leaves one
/// value more than it found.
pub proof fn lemma_code_leaves_one_value(tree: Tree, depth: nat)
    requires
        without_identifiers(tree),
    ensures
        depth_after(code(tree), depth) == Some(depth + 1),
    decreases tree,
{
    match tree {
        Tree::Num(n) => {
            let c = seq![Instruction::Push(n)];
            assert(c.drop_last().len() == 0);
            assert(depth_after(c.drop_last(), depth) == Some(depth));
        },
        Tree::Var(_) => {},
        Tree::Op(symbol, lhs, rhs) => {
            let pops = seq![Instruction::PopRdi, Instruction::PopRax];
            let push = seq![Instruction::PushRax];
            lemma_code_leaves_one_value(*lhs, depth);
            lemma_code_leaves_one_value(*rhs, depth + 1);
            lemma_depth_after_both(code(*lhs), code(*rhs), depth);
            lemma_depth_after_both(code(*lhs) + code(*rhs), pops, depth);
            lemma_two_pops(depth);
            lemma_depth_after_both(code(*lhs) + code(*rhs) + pops, operation(symbol), depth);
            lemma_operation_keeps_depth(symbol, depth);
            lemma_depth_after_both(
                code(*lhs) + code(*rhs) + pops + operation(symbol),
                push,
                depth,
            );
            assert(push.drop_last().len() == 0);
            assert(depth_after(push.drop_last(), depth) == Some(depth));
        },
    }
}

/// The two pops of an operation take its two operands.
proof fn lemma_two_pops(depth: nat)
    ensures
        depth_after(seq![Instruction::PopRdi, Instruction::PopRax], depth + 2) == Some(depth),
{
    let pops = seq![Instruction::PopRdi, Instruction::PopRax];
    let first = pops.drop_last();
    assert(first.len() == 1);
    assert(first.drop_last().len() == 0);
    assert(depth_after(first.drop_last(), depth + 2) == Some(depth + 2));
    assert(first.last() == Instruction::PopRdi);
    assert(depth_after(first, depth + 2) == Some((depth + 1) as nat));
    assert(pops.last() == Instruction::PopRax);
}

/// The stack discipline of a program: the code of a program over a tree
/// without identifiers leaves the stack as deep as it found it, with the one
/// value of the tree popped as the result.
pub proof fn lemma_program_is_balanced(tree: Tree, depth: nat)
    requires
        without_identifiers(tree),
    ensures
        depth_after(program(Some(tree)), depth) == Some(depth),
{
    let end = seq![Instruction::PopRax, Instruction::Ret];
    lemma_code_leaves_one_value(tree, depth);
    lemma_depth_after_both(code(tree), end, depth);
    let first = end.drop_last();
    assert(first.len() == 1);
    assert(first.drop_last().len() == 0);
    assert(depth_after(first.drop_last(), depth + 1) == Some(depth + 1));
    assert(first.last() == Instruction::PopRax);
    assert(depth_after(first, depth + 1) == Some(depth));
    assert(end.last() == Instruction::Ret);
}

} // verus!
