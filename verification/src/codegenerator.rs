use crate::grammar::{parse_program, SyntaxError};
use crate::lexer::Input;
use crate::node::{Node, NodeKind, Tree};
use crate::utils::{decimal_value, is_digit};
use vstd::prelude::*;
use vstd::string::*;

verus! {

/// One instruction of the stack machine that the generated code runs on.
///
/// The machine has a stack of words and two registers, `rax` and `rdi`;
/// `al` is the low byte of `rax`, and `cqo` and `idiv` also touch `rdx`.
#[derive(Clone, Copy, Debug, PartialEq, Eq)]
pub enum Instruction {
    /// Push a constant.
    Push(usize),
    /// Push `rax`.
    PushRax,
    /// Pop into `rax`.
    PopRax,
    /// Pop into `rdi`.
    PopRdi,
    /// `rax = rax + rdi`
    Add,
    /// `rax = rax - rdi`
    Sub,
    /// `rax = rax * rdi`
    Imul,
    /// Extend the sign of `rax` into `rdx`.
    Cqo,
    /// Divide `rdx:rax` by `rdi`; the quotient goes to `rax`.
    Idiv,
    /// Compare `rax` with `rdi` and set the flags.
    Cmp,
    /// `al = 1` where the comparison found equal, else 0.
    Sete,
    /// `al = 1` where the comparison found not equal, else 0.
    Setne,
    /// `al = 1` where the comparison found less, else 0.
    Setl,
    /// `al = 1` where the comparison found less or equal, else 0.
    Setle,
    /// Extend `al` with zeros into `rax`.
    Movzb,
    /// Return to the caller, with the result in `rax`.
    Ret,
}

/// The character that writes the digit `d`.
pub open spec fn digit_char(d: nat) -> char
    recommends
        d < 10,
{
    ('0' as u32 + d) as char
}

/// The decimal writing of `n`, without leading zeros.
pub open spec fn decimal_text(n: nat) -> Seq<char>
    decreases n,
{
    if n < 10 {
        seq![digit_char(n)]
    } else {
        decimal_text(n / 10).push(digit_char(n % 10))
    }
}

impl Instruction {
    /// The instruction as a line of assembly text.
    pub open spec fn text(self) -> Seq<char> {
        match self {
            Instruction::Push(n) => "    push "@ + decimal_text(n as nat),
            Instruction::PushRax => "    push rax"@,
            Instruction::PopRax => "    pop rax"@,
            Instruction::PopRdi => "    pop rdi"@,
            Instruction::Add => "    add rax, rdi"@,
            Instruction::Sub => "    sub rax, rdi"@,
            Instruction::Imul => "    imul rax, rdi"@,
            Instruction::Cqo => "    cqo"@,
            Instruction::Idiv => "    idiv rdi"@,
            Instruction::Cmp => "    cmp rax, rdi"@,
            Instruction::Sete => "    sete al"@,
            Instruction::Setne => "    setne al"@,
            Instruction::Setl => "    setl al"@,
            Instruction::Setle => "    setle al"@,
            Instruction::Movzb => "    movzb rax, al"@,
            Instruction::Ret => "    ret"@,
        }
    }

    /// Writes the instruction as a line of assembly text.
    pub fn line(&self) -> (s: String)
        ensures
            s@ == self.text(),
    {
        match self {
            Instruction::Push(n) => {
                let mut s = String::from_str("    push ");
                push_decimal(*n, &mut s);
                s
            },
            Instruction::PushRax => String::from_str("    push rax"),
            Instruction::PopRax => String::from_str("    pop rax"),
            Instruction::PopRdi => String::from_str("    pop rdi"),
            Instruction::Add => String::from_str("    add rax, rdi"),
            Instruction::Sub => String::from_str("    sub rax, rdi"),
            Instruction::Imul => String::from_str("    imul rax, rdi"),
            Instruction::Cqo => String::from_str("    cqo"),
            Instruction::Idiv => String::from_str("    idiv rdi"),
            Instruction::Cmp => String::from_str("    cmp rax, rdi"),
            Instruction::Sete => String::from_str("    sete al"),
            Instruction::Setne => String::from_str("    setne al"),
            Instruction::Setl => String::from_str("    setl al"),
            Instruction::Setle => String::from_str("    setle al"),
            Instruction::Movzb => String::from_str("    movzb rax, al"),
            Instruction::Ret => String::from_str("    ret"),
        }
    }
}

/// Appends the decimal writing of `n` to `s`.
fn push_decimal(n: usize, s: &mut String)
    ensures
        final(s)@ == old(s)@ + decimal_text(n as nat),
    decreases n,
{
    if n >= 10 {
        push_decimal(n / 10, s);
    }
    let d: u8 = (n % 10) as u8;
    s.push((48u8 + d) as char);
}

/// A number that is written and read again is the same number: the decimal
/// writing of `n` holds digits only, at least one, and their value is `n`.
pub proof fn lemma_decimal_round_trip(n: nat)
    ensures
        decimal_text(n).len() >= 1,
        forall|i: int| 0 <= i < decimal_text(n).len() ==> is_digit(#[trigger] decimal_text(n)[i]),
        decimal_value(decimal_text(n)) == n,
    decreases n,
{
    if n < 10 {
        let text = seq![digit_char(n)];
        assert(text.drop_last().len() == 0);
        assert(decimal_value(text.drop_last()) == 0);
    } else {
        lemma_decimal_round_trip(n / 10);
        let text = decimal_text(n / 10).push(digit_char(n % 10));
        assert(text.drop_last() == decimal_text(n / 10));
    }
}

/// What the machine does for the operator `symbol` with the left operand in
/// `rax` and the right one in `rdi`; the result is left in `rax`.
///
/// Assignment has no instruction of its own: the left operand stays in `rax`.
pub open spec fn operation(symbol: Seq<char>) -> Seq<Instruction> {
    if symbol == "+"@ {
        seq![Instruction::Add]
    } else if symbol == "-"@ {
        seq![Instruction::Sub]
    } else if symbol == "*"@ {
        seq![Instruction::Imul]
    } else if symbol == "/"@ {
        seq![Instruction::Cqo, Instruction::Idiv]
    } else if symbol == "=="@ {
        seq![Instruction::Cmp, Instruction::Sete, Instruction::Movzb]
    } else if symbol == "!="@ {
        seq![Instruction::Cmp, Instruction::Setne, Instruction::Movzb]
    } else if symbol == "<"@ {
        seq![Instruction::Cmp, Instruction::Setl, Instruction::Movzb]
    } else if symbol == "<="@ {
        seq![Instruction::Cmp, Instruction::Setle, Instruction::Movzb]
    } else {
        Seq::empty()
    }
}

/// The instructions that evaluate `tree`, children before parents and the
/// left child before the right one.
///
/// A number is pushed. An operation pops its right operand into `rdi` and its
/// left one into `rax`, operates, and pushes `rax`. An identifier has no
/// storage and no instruction.
pub open spec fn code(tree: Tree) -> Seq<Instruction>
    decreases tree,
{
    match tree {
        Tree::Num(n) => seq![Instruction::Push(n)],
        Tree::Var(_) => Seq::empty(),
        Tree::Op(symbol, lhs, rhs) => code(*lhs) + code(*rhs) + seq![
            Instruction::PopRdi,
            Instruction::PopRax,
        ] + operation(symbol) + seq![Instruction::PushRax],
    }
}

/// The instructions of a whole program: the code of the tree, where there is
/// one, then the pop of its value into `rax`; then the return.
pub open spec fn program(head: Option<Tree>) -> Seq<Instruction> {
    match head {
        Some(tree) => code(tree) + seq![Instruction::PopRax, Instruction::Ret],
        None => seq![Instruction::Ret],
    }
}

/// The assembly text of a whole program, line by line: the directives that
/// choose the syntax and export the entry point, its label, and the
/// instructions.
pub open spec fn listing(head: Option<Tree>) -> Seq<Seq<char>> {
    seq![".intel_syntax noprefix"@, ".global main"@, "main:"@] + program(head).map_values(
        |i: Instruction| i.text(),
    )
}

/// The texts of a sequence of strings.
pub open spec fn texts(lines: Seq<String>) -> Seq<Seq<char>> {
    lines.map_values(|line: String| line@)
}

/// Turns a syntax tree into assembly for a stack machine.
pub struct CodeGenerator {
    head: Option<Node>,
}

impl CodeGenerator {
    /// The tree that is to be compiled, if there is one.
    pub closed spec fn head(&self) -> Option<Tree> {
        match self.head {
            Some(node) => Some(node@),
            None => None,
        }
    }

    /// A generator without a tree.
    pub fn new() -> (g: Self)
        ensures
            g.head() is None,
    {
        Self { head: None }
    }

    /// A generator for the tree under `head`.
    pub fn from_node(head: Node) -> (g: Self)
        ensures
            g.head() == Some(head@),
    {
        Self { head: Some(head) }
    }

    /// A generator for the last statement of the program `s`, or the reason
    /// why `s` is no program. A program without statements gives a generator
    /// without a tree.
    pub fn from_str(s: &str) -> (r: Result<Self, SyntaxError>)
        ensures
            match r {
                Ok(g) => parse_program(s@, 0) matches Ok(statements) && g.head() == if statements.len()
                    > 0 {
                    Some(statements.last())
                } else {
                    None
                },
                Err(e) => parse_program(s@, 0) == Err::<Seq<Tree>, SyntaxError>(e),
            },
    {
        let mut input = Input::new(s);
        match input.tokenize() {
            Ok(mut nodes) => {
                let head = nodes.pop();
                Ok(Self { head })
            },
            Err(e) => Err(e),
        }
    }

    /// Gives the assembly text of the program, line by line, and gives up
    /// the tree: a second call finds none.
    pub fn compile(&mut self) -> (lines: Vec<String>)
        ensures
            texts(lines@) == listing(old(self).head()),
            final(self).head() is None,
    {
        let mut instructions: Vec<Instruction> = Vec::new();
        if let Some(head) = Option::take(&mut self.head) {
            Self::gen(&head, &mut instructions);
            instructions.push(Instruction::PopRax);
        }
        instructions.push(Instruction::Ret);
        let mut lines: Vec<String> = Vec::new();
        lines.push(String::from_str(".intel_syntax noprefix"));
        lines.push(String::from_str(".global main"));
        lines.push(String::from_str("main:"));
        let ghost directives = texts(lines@);
        let mut i: usize = 0;
        while i < instructions.len()
            invariant
                i <= instructions.len(),
                texts(lines@) == directives + instructions@.take(i as int).map_values(
                    |i: Instruction| i.text(),
                ),
            decreases instructions.len() - i,
        {
            let ghost done = texts(lines@);
            let line = instructions[i].line();
            lines.push(line);
            i += 1;
            proof {
                let text = |i: Instruction| i.text();
                assert(texts(lines@) =~= done.push(line@));
                assert(instructions@.take(i as int).map_values(text) =~= instructions@.take(
                    i - 1,
                ).map_values(text).push(line@));
            }
        }
        assert(instructions@.take(i as int) == instructions@);
        lines
    }

    /// Appends the code of the tree under `node` to `out`.
    pub fn gen(node: &Node, out: &mut Vec<Instruction>)
        ensures
            final(out)@ == old(out)@ + code(node@),
        decreases node@,
    {
        if let Some(child) = node.lhs() {
            Self::gen(child, out);
        }
        if let Some(child) = node.rhs() {
            Self::gen(child, out);
        }
        match node.kind() {
            NodeKind::Num(n) => {
                out.push(Instruction::Push(*n));
            },
            NodeKind::Op(op) => {
                out.push(Instruction::PopRdi);
                out.push(Instruction::PopRax);
                if *op == String::from_str("+") {
                    out.push(Instruction::Add);
                } else if *op == String::from_str("-") {
                    out.push(Instruction::Sub);
                } else if *op == String::from_str("*") {
                    out.push(Instruction::Imul);
                } else if *op == String::from_str("/") {
                    out.push(Instruction::Cqo);
                    out.push(Instruction::Idiv);
                } else if *op == String::from_str("==") {
                    // rax == rdi sets the flag, sete loads it into al, the
                    // low byte of rax, and movzb clears the rest of rax
                    out.push(Instruction::Cmp);
                    out.push(Instruction::Sete);
                    out.push(Instruction::Movzb);
                } else if *op == String::from_str("!=") {
                    out.push(Instruction::Cmp);
                    out.push(Instruction::Setne);
                    out.push(Instruction::Movzb);
                } else if *op == String::from_str("<") {
                    out.push(Instruction::Cmp);
                    out.push(Instruction::Setl);
                    out.push(Instruction::Movzb);
                } else if *op == String::from_str("<=") {
                    out.push(Instruction::Cmp);
                    out.push(Instruction::Setle);
                    out.push(Instruction::Movzb);
                }
                out.push(Instruction::PushRax);
            },
            NodeKind::LVar(_) => {},
        }
    }
}

} // verus!
