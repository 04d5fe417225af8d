use crate::codegenerator::{code, operation, program, Instruction};
use crate::node::Tree;
use crate::stack::without_identifiers;
use vstd::prelude::*;

verus! {

/// Two to the 63: the words of the machine are the integers from minus this
/// up to, but not including, this.
pub open spec fn half() -> int {
    0x8000_0000_0000_0000int
}

/// Two to the 64: the number of words.
pub open spec fn modulus() -> int {
    0x1_0000_0000_0000_0000int
}

/// Whether `x` is a word of the machine, read as a signed number.
pub open spec fn is_word(x: int) -> bool {
    -half() <= x < half()
}

/// The word that `x` wraps to: the one that differs from `x` by a multiple
/// of two to the 64.
pub open spec fn wrap(x: int) -> int {
    (x + half()) % modulus() - half()
}

/// The word `x` read as an unsigned number.
pub open spec fn unsigned(x: int) -> int {
    if x < 0 {
        x + modulus()
    } else {
        x
    }
}

/// The quotient of `a` by `b`, rounded toward zero.
pub open spec fn quotient(a: int, b: int) -> int
    recommends
        b != 0,
{
    if a >= 0 && b > 0 {
        a / b
    } else if a >= 0 {
        -(a / (-b))
    } else if b > 0 {
        -((-a) / b)
    } else {
        (-a) / (-b)
    }
}

/// One if `b` holds, else zero.
pub open spec fn truth(b: bool) -> int {
    if b {
        1
    } else {
        0
    }
}

/// The state of the machine, as far as the generated code can tell.
pub struct Machine {
    /// The stack, with its top at the end.
    pub stack: Seq<int>,
    pub rax: int,
    pub rdi: int,
    pub rdx: int,
    /// The two numbers that the last `cmp` compared, where no instruction
    /// has changed the flags since.
    pub compared: Option<(int, int)>,
}

/// The state behind the instruction `i`, run in the state `m`; nothing where
/// the machine faults, as on a division by zero, or where what it does is
/// left open here, as a pop from an empty stack or a `set` behind flags
/// that no `cmp` has set.
pub open spec fn step(i: Instruction, m: Machine) -> Option<Machine> {
    match i {
        Instruction::Push(n) => Some(Machine { stack: m.stack.push(wrap(n as int)), ..m }),
        Instruction::PushRax => Some(Machine { stack: m.stack.push(m.rax), ..m }),
        Instruction::PopRax => if m.stack.len() == 0 {
            None
        } else {
            Some(Machine { stack: m.stack.drop_last(), rax: m.stack.last(), ..m })
        },
        Instruction::PopRdi => if m.stack.len() == 0 {
            None
        } else {
            Some(Machine { stack: m.stack.drop_last(), rdi: m.stack.last(), ..m })
        },
        Instruction::Add => Some(Machine { rax: wrap(m.rax + m.rdi), compared: None, ..m }),
        Instruction::Sub => Some(Machine { rax: wrap(m.rax - m.rdi), compared: None, ..m }),
        Instruction::Imul => Some(Machine { rax: wrap(m.rax * m.rdi), compared: None, ..m }),
        Instruction::Cqo => Some(Machine { rdx: if m.rax < 0 {
            -1
        } else {
            0
        }, ..m }),
        Instruction::Idiv => {
            let dividend = m.rdx * modulus() + unsigned(m.rax);
            if m.rdi == 0 || !is_word(quotient(dividend, m.rdi)) {
                None
            } else {
                Some(
                    Machine {
                        rax: quotient(dividend, m.rdi),
                        rdx: dividend - quotient(dividend, m.rdi) * m.rdi,
                        compared: None,
                        ..m
                    },
                )
            }
        },
        Instruction::Cmp => Some(Machine { compared: Some((m.rax, m.rdi)), ..m }),
        Instruction::Sete => set_low_byte(m, |a: int, b: int| a == b),
        Instruction::Setne => set_low_byte(m, |a: int, b: int| a != b),
        Instruction::Setl => set_low_byte(m, |a: int, b: int| a < b),
        Instruction::Setle => set_low_byte(m, |a: int, b: int| a <= b),
        Instruction::Movzb => Some(Machine { rax: m.rax % 256, ..m }),
        Instruction::Ret => Some(m),
    }
}

/// The state behind a `set` instruction: the low byte of `rax` is one where
/// `holds` is true of the two numbers that were compared, else zero, and the
/// rest of `rax` is as it was.
pub open spec fn set_low_byte(m: Machine, holds: spec_fn(int, int) -> bool) -> Option<Machine> {
    match m.compared {
        Some((a, b)) => Some(Machine { rax: m.rax - m.rax % 256 + truth(holds(a, b)), ..m }),
        None => None,
    }
}

/// The state behind `code`, run from the state `m`, or nothing where one of
/// its instructions gives none.
pub open spec fn run(code: Seq<Instruction>, m: Machine) -> Option<Machine>
    decreases code.len(),
{
    if code.len() == 0 {
        Some(m)
    } else {
        match run(code.drop_last(), m) {
            Some(before) => step(code.last(), before),
            None => None,
        }
    }
}

/// What the operator `symbol` makes of the words `a` and `b`; nothing where
/// the division faults. Arithmetic wraps; a comparison gives one or zero;
/// assignment, which has no storage yet, gives its left operand.
pub open spec fn apply(symbol: Seq<char>, a: int, b: int) -> Option<int> {
    if symbol == "+"@ {
        Some(wrap(a + b))
    } else if symbol == "-"@ {
        Some(wrap(a - b))
    } else if symbol == "*"@ {
        Some(wrap(a * b))
    } else if symbol == "/"@ {
        if b == 0 || !is_word(quotient(a, b)) {
            None
        } else {
            Some(quotient(a, b))
        }
    } else if symbol == "=="@ {
        Some(truth(a == b))
    } else if symbol == "!="@ {
        Some(truth(a != b))
    } else if symbol == "<"@ {
        Some(truth(a < b))
    } else if symbol == "<="@ {
        Some(truth(a <= b))
    } else {
        Some(a)
    }
}

/// The value of a tree without identifiers: that of its operator applied to
/// the values of its operands, the left one first; nothing where a division
/// faults. An identifier has no value.
pub open spec fn value(tree: Tree) -> Option<int>
    decreases tree,
{
    match tree {
        Tree::Num(n) => Some(wrap(n as int)),
        Tree::Var(_) => None,
        Tree::Op(symbol, lhs, rhs) => match value(*lhs) {
            None => None,
            Some(a) => match value(*rhs) {
                None => None,
                Some(b) => apply(symbol, a, b),
            },
        },
    }
}

/// Code that runs behind other code starts in the state that the other left.
pub proof fn lemma_run_both(first: Seq<Instruction>, second: Seq<Instruction>, m: Machine)
    ensures
        run(first + second, m) == match run(first, m) {
            Some(between) => run(second, between),
            None => None,
        },
    decreases second.len(),
{
    if second.len() == 0 {
        assert(first + second == first);
    } else {
        assert((first + second).drop_last() == first + second.drop_last());
        lemma_run_both(first, second.drop_last(), m);
    }
}

/// One instruction runs as one step.
pub proof fn lemma_run_one(i: Instruction, m: Machine)
    ensures
        run(seq![i], m) == step(i, m),
{
    let c = seq![i];
    assert(c.drop_last().len() == 0);
    assert(run(c.drop_last(), m) == Some(m));
    assert(c.last() == i);
}

/// Division behind the extension of the sign divides `rax` by `rdi`.
proof fn lemma_run_division(m: Machine)
    ensures
        run(seq![Instruction::Cqo, Instruction::Idiv], m) == if m.rdi == 0 || !is_word(
            quotient(m.rax, m.rdi),
        ) {
            None
        } else {
            Some(
                Machine {
                    rax: quotient(m.rax, m.rdi),
                    rdx: m.rax - quotient(m.rax, m.rdi) * m.rdi,
                    compared: None,
                    ..m
                },
            )
        },
{
    let c = seq![Instruction::Cqo, Instruction::Idiv];
    assert(c =~= seq![Instruction::Cqo] + seq![Instruction::Idiv]);
    lemma_run_both(seq![Instruction::Cqo], seq![Instruction::Idiv], m);
    lemma_run_one(Instruction::Cqo, m);
    let extended = step(Instruction::Cqo, m)->0;
    lemma_run_one(Instruction::Idiv, extended);
    assert(extended.rdx * modulus() + unsigned(extended.rax) == m.rax);
}

/// A comparison with its `set` and its extension leaves one or zero in
/// `rax`.
proof fn lemma_run_comparison(set: Instruction, holds: spec_fn(int, int) -> bool, m: Machine)
    requires
        forall|x: Machine| step(set, x) == set_low_byte(x, holds),
    ensures
        run(seq![Instruction::Cmp, set, Instruction::Movzb], m) == Some(
            Machine {
                rax: truth(holds(m.rax, m.rdi)),
                compared: Some((m.rax, m.rdi)),
                ..m
            },
        ),
{
    let c = seq![Instruction::Cmp, set, Instruction::Movzb];
    assert(c =~= seq![Instruction::Cmp] + seq![set] + seq![Instruction::Movzb]);
    lemma_run_both(seq![Instruction::Cmp] + seq![set], seq![Instruction::Movzb], m);
    lemma_run_both(seq![Instruction::Cmp], seq![set], m);
    lemma_run_one(Instruction::Cmp, m);
    let compared = step(Instruction::Cmp, m)->0;
    lemma_run_one(set, compared);
    let flagged = step(set, compared)->0;
    lemma_run_one(Instruction::Movzb, flagged);
    let bit = truth(holds(m.rax, m.rdi));
    assert((m.rax - m.rax % 256 + bit) % 256 == bit);
}

/// The instructions of an operator apply it to `rax` and `rdi` and leave the
/// result in `rax`; they leave the stack alone.
pub proof fn lemma_operation_applies(symbol: Seq<char>, m: Machine)
    ensures
        match apply(symbol, m.rax, m.rdi) {
            Some(v) => run(operation(symbol), m) matches Some(behind) && behind.rax == v
                && behind.stack == m.stack,
            None => run(operation(symbol), m) is None,
        },
{
    if symbol == "+"@ {
        lemma_run_one(Instruction::Add, m);
    } else if symbol == "-"@ {
        lemma_run_one(Instruction::Sub, m);
    } else if symbol == "*"@ {
        lemma_run_one(Instruction::Imul, m);
    } else if symbol == "/"@ {
        lemma_run_division(m);
    } else if symbol == "=="@ {
        lemma_run_comparison(Instruction::Sete, |a: int, b: int| a == b, m);
    } else if symbol == "!="@ {
        lemma_run_comparison(Instruction::Setne, |a: int, b: int| a != b, m);
    } else if symbol == "<"@ {
        lemma_run_comparison(Instruction::Setl, |a: int, b: int| a < b, m);
    } else if symbol == "<="@ {
        lemma_run_comparison(Instruction::Setle, |a: int, b: int| a <= b, m);
    } else {
        assert(operation(symbol).len() == 0);
    }
}

/// The generated code evaluates the expression: the code of a tree without
/// identifiers, run on any stack, pushes the value of the tree and leaves
/// what was on the stack alone; it faults where the tree has no value.
pub proof fn lemma_code_computes_value(tree: Tree, m: Machine)
    requires
        without_identifiers(tree),
    ensures
        match value(tree) {
            Some(v) => run(code(tree), m) matches Some(behind) && behind.stack == m.stack.push(
                v,
            ),
            None => run(code(tree), m) is None,
        },
    decreases tree,
{
    match tree {
        Tree::Num(n) => {
            lemma_run_one(Instruction::Push(n), m);
        },
        Tree::Var(_) => {},
        Tree::Op(symbol, lhs, rhs) => {
            let pop_rdi = seq![Instruction::PopRdi];
            let pop_rax = seq![Instruction::PopRax];
            let push = seq![Instruction::PushRax];
            let pops = seq![Instruction::PopRdi, Instruction::PopRax];
            assert(pops =~= pop_rdi + pop_rax);
            lemma_run_both(code(*lhs) + code(*rhs) + pops + operation(symbol), push, m);
            lemma_run_both(code(*lhs) + code(*rhs) + pops, operation(symbol), m);
            lemma_run_both(code(*lhs) + code(*rhs), pops, m);
            lemma_run_both(code(*lhs), code(*rhs), m);
            lemma_code_computes_value(*lhs, m);
            if let Some(a) = value(*lhs) {
                let left = run(code(*lhs), m)->0;
                lemma_code_computes_value(*rhs, left);
                if let Some(b) = value(*rhs) {
                    let right = run(code(*rhs), left)->0;
                    lemma_run_both(pop_rdi, pop_rax, right);
                    lemma_run_one(Instruction::PopRdi, right);
                    let first = step(Instruction::PopRdi, right)->0;
                    lemma_run_one(Instruction::PopRax, first);
                    let second = step(Instruction::PopRax, first)->0;
                    assert(right.stack.drop_last() == m.stack.push(a));
                    assert(first.stack.drop_last() == m.stack);
                    assert(second.rax == a && second.rdi == b && second.stack == m.stack);
                    lemma_operation_applies(symbol, second);
                    if let Some(v) = apply(symbol, a, b) {
                        let applied = run(operation(symbol), second)->0;
                        lemma_run_one(Instruction::PushRax, applied);
                    }
                }
            }
        },
    }
}

/// The program returns the value of its tree: run on any stack, the program
/// over a tree without identifiers ends with the value of the tree in `rax`
/// and the stack as it found it; it faults where the tree has no value.
pub proof fn lemma_program_returns_value(tree: Tree, m: Machine)
    requires
        without_identifiers(tree),
    ensures
        match value(tree) {
            Some(v) => run(program(Some(tree)), m) matches Some(behind) && behind.rax == v
                && behind.stack == m.stack,
            None => run(program(Some(tree)), m) is None,
        },
{
    let pop = seq![Instruction::PopRax];
    let ret = seq![Instruction::Ret];
    let end = seq![Instruction::PopRax, Instruction::Ret];
    assert(end =~= pop + ret);
    lemma_code_computes_value(tree, m);
    lemma_run_both(code(tree), end, m);
    if let Some(v) = value(tree) {
        let computed = run(code(tree), m)->0;
        lemma_run_both(pop, ret, computed);
        lemma_run_one(Instruction::PopRax, computed);
        let popped = step(Instruction::PopRax, computed)->0;
        lemma_run_one(Instruction::Ret, popped);
        assert(computed.stack.drop_last() == m.stack);
    }
}

} // verus!
