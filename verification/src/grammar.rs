use crate::node::Tree;
use crate::utils::{
    blanks, decimal_value, digits, is_digit, left, lemma_blanks_bound, lemma_digits_bound, wrapped,
};
use vstd::prelude::*;
use vstd::string::*;

verus! {

/// Whether Unicode gives `c` the property Alphabetic.
pub uninterp spec fn alphabetic(c: char) -> bool;

/// Whether Unicode puts `c` in one of its general categories for numbers.
pub uninterp spec fn numeric(c: char) -> bool;

/// `char::is_alphabetic` tells whether the character has the Unicode property
/// Alphabetic, which depends on the character alone.
pub assume_specification[ char::is_alphabetic ](c: char) -> (b: bool)
    ensures
        b == alphabetic(c),
;

/// `char::is_numeric` tells whether the character lies in one of the Unicode
/// general categories for numbers, which depends on the character alone.
pub assume_specification[ char::is_numeric ](c: char) -> (b: bool)
    ensures
        b == numeric(c),
;

/// Why a text is no program.
#[derive(Clone, Copy, Debug, PartialEq, Eq)]
pub enum SyntaxError {
    /// An operand was due where the input ended.
    MissingOperand,
    /// An operand was due where this character stands, which starts none.
    InvalidElement(char),
    /// The input ended inside a parenthesis.
    UnclosedParen,
    /// A `)` was due where this character stands.
    ExpectedCloseParen(char),
    /// A `;` was due where this character stands.
    ExpectedSemicolon(char),
}

impl SyntaxError {
    /// What is wrong, in words.
    pub open spec fn text(self) -> Seq<char> {
        match self {
            SyntaxError::MissingOperand => "expected a value, but found the end of the input"@,
            SyntaxError::InvalidElement(c) => "invalid element: "@.push(c),
            SyntaxError::UnclosedParen => "expected `)`, but found the end of the input"@,
            SyntaxError::ExpectedCloseParen(c) => "expected `)`, but found `"@.push(c).push('`'),
            SyntaxError::ExpectedSemicolon(c) => "expected `;`, but found `"@.push(c).push('`'),
        }
    }

    /// Says what is wrong, in words.
    pub fn message(&self) -> (s: String)
        ensures
            s@ == self.text(),
    {
        match self {
            SyntaxError::MissingOperand => String::from_str(
                "expected a value, but found the end of the input",
            ),
            SyntaxError::InvalidElement(c) => {
                let mut s = String::from_str("invalid element: ");
                s.push(*c);
                s
            },
            SyntaxError::UnclosedParen => String::from_str(
                "expected `)`, but found the end of the input",
            ),
            SyntaxError::ExpectedCloseParen(c) => {
                let mut s = String::from_str("expected `)`, but found `");
                s.push(*c);
                s.push('`');
                s
            },
            SyntaxError::ExpectedSemicolon(c) => {
                let mut s = String::from_str("expected `;`, but found `");
                s.push(*c);
                s.push('`');
                s
            },
        }
    }
}

/// What reading one construct gives: its tree and the number of characters
/// read, or the reason why there is no such construct.
pub type Parsed = Result<(Tree, nat), SyntaxError>;

/// The result `r` of reading behind `k` characters that were read before.
pub open spec fn after(k: nat, r: Parsed) -> Parsed {
    match r {
        Ok((tree, n)) => Ok((tree, k + n)),
        Err(e) => Err(e),
    }
}

/// A binary operator as it stands in the text.
pub struct Operator {
    /// The symbol that the tree holds for it.
    pub symbol: Seq<char>,
    /// The number of characters it takes in the text.
    pub width: nat,
    /// Whether the operand written first becomes the right one.
    pub swapped: bool,
}

/// The level of `*` and `/`, which bind tightest of the binary operators.
pub open spec fn multiplicative() -> nat {
    0
}

/// The level of `+` and `-`.
pub open spec fn additive() -> nat {
    1
}

/// The level of `<`, `<=`, `>` and `>=`.
pub open spec fn relational() -> nat {
    2
}

/// The level of `==` and `!=`, which bind loosest of the binary operators
/// but for assignment.
pub open spec fn equality() -> nat {
    3
}

/// The operator of the given level that stands at `pos`, if one does.
///
/// `>` and `>=` stand for `<` and `<=` with the operands exchanged.
pub open spec fn operator_at(s: Seq<char>, pos: nat, level: nat) -> Option<Operator> {
    if pos >= s.len() {
        None
    } else if level == multiplicative() {
        if s[pos as int] == '*' {
            Some(Operator { symbol: "*"@, width: 1, swapped: false })
        } else if s[pos as int] == '/' {
            Some(Operator { symbol: "/"@, width: 1, swapped: false })
        } else {
            None
        }
    } else if level == additive() {
        if s[pos as int] == '+' {
            Some(Operator { symbol: "+"@, width: 1, swapped: false })
        } else if s[pos as int] == '-' {
            Some(Operator { symbol: "-"@, width: 1, swapped: false })
        } else {
            None
        }
    } else if level == relational() {
        let equal = pos + 1 < s.len() && s[pos + 1 as int] == '=';
        if s[pos as int] == '<' {
            if equal {
                Some(Operator { symbol: "<="@, width: 2, swapped: false })
            } else {
                Some(Operator { symbol: "<"@, width: 1, swapped: false })
            }
        } else if s[pos as int] == '>' {
            if equal {
                Some(Operator { symbol: "<="@, width: 2, swapped: true })
            } else {
                Some(Operator { symbol: "<"@, width: 1, swapped: true })
            }
        } else {
            None
        }
    } else if level == equality() {
        if pos + 1 < s.len() && s[pos as int] == '=' && s[pos + 1 as int] == '=' {
            Some(Operator { symbol: "=="@, width: 2, swapped: false })
        } else if pos + 1 < s.len() && s[pos as int] == '!' && s[pos + 1 as int] == '=' {
            Some(Operator { symbol: "!="@, width: 2, swapped: false })
        } else {
            None
        }
    } else {
        None
    }
}

/// The tree of `first op second`.
pub open spec fn join(op: Operator, first: Tree, second: Tree) -> Tree {
    if op.swapped {
        Tree::Op(op.symbol, Box::new(second), Box::new(first))
    } else {
        Tree::Op(op.symbol, Box::new(first), Box::new(second))
    }
}

/// primary := integer-literal | identifier | "(" expression ")"
///
/// Read at `pos`, behind any blanks.
pub open spec fn parse_primary(s: Seq<char>, pos: nat) -> Parsed
    decreases left(s, pos), 0nat,
{
    let b = blanks(s, pos);
    let q = pos + b;
    if q >= s.len() {
        Err(SyntaxError::MissingOperand)
    } else {
        let c = s[q as int];
        if is_digit(c) {
            let k = digits(s, q);
            Ok((Tree::Num(wrapped(decimal_value(s.subrange(q as int, (q + k) as int)))), b + k))
        } else if c == '(' {
            match parse_assign(s, q + 1) {
                Err(e) => Err(e),
                Ok((tree, n)) => {
                    let g = blanks(s, q + 1 + n);
                    let r = q + 1 + n + g;
                    if r >= s.len() {
                        Err(SyntaxError::UnclosedParen)
                    } else if s[r as int] == ')' {
                        Ok((tree, b + 1 + n + g + 1))
                    } else {
                        Err(SyntaxError::ExpectedCloseParen(s[r as int]))
                    }
                },
            }
        } else if numeric(c) {
            Err(SyntaxError::InvalidElement(c))
        } else if alphabetic(c) {
            Ok((Tree::Var(seq![c]), b + 1))
        } else {
            Err(SyntaxError::InvalidElement(c))
        }
    }
}

/// unary := ("+" | "-")? primary
///
/// A leading `+` is dropped; `-x` is the tree of `0 - x`.
pub open spec fn parse_unary(s: Seq<char>, pos: nat) -> Parsed
    decreases left(s, pos), 1nat,
{
    let b = blanks(s, pos);
    let q = pos + b;
    if q >= s.len() {
        Err(SyntaxError::MissingOperand)
    } else if s[q as int] == '+' {
        after(b + 1, parse_primary(s, q + 1))
    } else if s[q as int] == '-' {
        match parse_primary(s, q + 1) {
            Err(e) => Err(e),
            Ok((tree, n)) => Ok(
                (Tree::Op("-"@, Box::new(Tree::Num(0)), Box::new(tree)), b + 1 + n),
            ),
        }
    } else {
        after(b, parse_primary(s, q))
    }
}

/// level := operand (operator operand)*, where the operators are those of
/// the level and an operand is a construct of the next tighter level, or a
/// unary where there is none tighter. The operators associate to the left.
pub open spec fn parse_level(s: Seq<char>, pos: nat, level: nat) -> Parsed
    decreases left(s, pos), 2 * level + 3,
{
    let first = if level == 0 {
        parse_unary(s, pos)
    } else {
        parse_level(s, pos, (level - 1) as nat)
    };
    match first {
        Err(e) => Err(e),
        Ok((tree, n)) => after(n, parse_rest(s, pos + n, tree, level)),
    }
}

/// The rest of a level behind its first operands, whose tree is `acc`:
/// (operator operand)*, then any blanks.
pub open spec fn parse_rest(s: Seq<char>, pos: nat, acc: Tree, level: nat) -> Parsed
    decreases left(s, pos), 2 * level + 2,
{
    let b = blanks(s, pos);
    let q = pos + b;
    match operator_at(s, q, level) {
        None => Ok((acc, b)),
        Some(op) => {
            let operand = if level == 0 {
                parse_unary(s, q + op.width)
            } else {
                parse_level(s, q + op.width, (level - 1) as nat)
            };
            match operand {
                Err(e) => Err(e),
                Ok((tree, n)) => after(
                    b + op.width + n,
                    parse_rest(s, q + op.width + n, join(op, acc, tree), level),
                ),
            }
        },
    }
}

/// assignment := equality ("=" assignment)?
///
/// Assignment associates to the right.
pub open spec fn parse_assign(s: Seq<char>, pos: nat) -> Parsed
    decreases left(s, pos), 10nat,
{
    match parse_level(s, pos, equality()) {
        Err(e) => Err(e),
        Ok((target, n)) => {
            let b = blanks(s, pos + n);
            let q = pos + n + b;
            if q < s.len() && s[q as int] == '=' {
                match parse_assign(s, q + 1) {
                    Err(e) => Err(e),
                    Ok((value, m)) => Ok(
                        (Tree::Op("="@, Box::new(target), Box::new(value)), n + b + 1 + m),
                    ),
                }
            } else {
                Ok((target, n + b))
            }
        },
    }
}

/// expression := assignment
pub open spec fn parse_expr(s: Seq<char>, pos: nat) -> Parsed {
    parse_assign(s, pos)
}

/// statement := expression ";"?
///
/// The `;` may be left out only where the input ends.
pub open spec fn parse_stmt(s: Seq<char>, pos: nat) -> Parsed {
    match parse_expr(s, pos) {
        Err(e) => Err(e),
        Ok((tree, n)) => {
            let b = blanks(s, pos + n);
            let q = pos + n + b;
            if q >= s.len() {
                Ok((tree, n + b))
            } else if s[q as int] == ';' {
                Ok((tree, n + b + 1))
            } else {
                Err(SyntaxError::ExpectedSemicolon(s[q as int]))
            }
        },
    }
}

/// program := statement*
///
/// The trees of the statements from `pos` to the end of the input, in the
/// order in which they stand.
pub open spec fn parse_program(s: Seq<char>, pos: nat) -> Result<Seq<Tree>, SyntaxError>
    decreases left(s, pos),
{
    let q = pos + blanks(s, pos);
    if q >= s.len() {
        Ok(Seq::empty())
    } else {
        match parse_stmt(s, q) {
            Err(e) => Err(e),
            Ok((tree, n)) => {
                proof {
                    lemma_assign_consumes(s, q);
                }
                match parse_program(s, q + n) {
                    Err(e) => Err(e),
                    Ok(trees) => Ok(seq![tree] + trees),
                }
            },
        }
    }
}

/// A primary that is read takes at least one character and ends inside the
/// input.
pub proof fn lemma_primary_consumes(s: Seq<char>, pos: nat)
    ensures
        parse_primary(s, pos) matches Ok((_, n)) ==> 1 <= n && pos + n <= s.len(),
    decreases left(s, pos), 0nat,
{
    let b = blanks(s, pos);
    let q = pos + b;
    lemma_blanks_bound(s, pos);
    if q < s.len() {
        lemma_digits_bound(s, q);
        if s[q as int] == '(' {
            lemma_assign_consumes(s, q + 1);
            if let Ok((_, n)) = parse_assign(s, q + 1) {
                lemma_blanks_bound(s, q + 1 + n);
            }
        }
    }
}

/// A unary that is read takes at least one character and ends inside the
/// input.
pub proof fn lemma_unary_consumes(s: Seq<char>, pos: nat)
    ensures
        parse_unary(s, pos) matches Ok((_, n)) ==> 1 <= n && pos + n <= s.len(),
    decreases left(s, pos), 1nat,
{
    let b = blanks(s, pos);
    let q = pos + b;
    lemma_blanks_bound(s, pos);
    if q < s.len() {
        if s[q as int] == '+' || s[q as int] == '-' {
            lemma_primary_consumes(s, q + 1);
        } else {
            lemma_primary_consumes(s, q);
        }
    }
}

/// A construct of a level that is read takes at least one character and ends
/// inside the input.
pub proof fn lemma_level_consumes(s: Seq<char>, pos: nat, level: nat)
    ensures
        parse_level(s, pos, level) matches Ok((_, n)) ==> 1 <= n && pos + n <= s.len(),
    decreases left(s, pos), 2 * level + 3,
{
    if level == 0 {
        lemma_unary_consumes(s, pos);
    } else {
        lemma_level_consumes(s, pos, (level - 1) as nat);
    }
    let first = if level == 0 {
        parse_unary(s, pos)
    } else {
        parse_level(s, pos, (level - 1) as nat)
    };
    if let Ok((tree, n)) = first {
        lemma_rest_consumes(s, pos + n, tree, level);
    }
}

/// The rest of a level that starts inside the input ends inside it.
pub proof fn lemma_rest_consumes(s: Seq<char>, pos: nat, acc: Tree, level: nat)
    requires
        pos <= s.len(),
    ensures
        parse_rest(s, pos, acc, level) matches Ok((_, n)) ==> pos + n <= s.len(),
    decreases left(s, pos), 2 * level + 2,
{
    let b = blanks(s, pos);
    let q = pos + b;
    lemma_blanks_bound(s, pos);
    if let Some(op) = operator_at(s, q, level) {
        if level == 0 {
            lemma_unary_consumes(s, q + op.width);
        } else {
            lemma_level_consumes(s, q + op.width, (level - 1) as nat);
        }
        let operand = if level == 0 {
            parse_unary(s, q + op.width)
        } else {
            parse_level(s, q + op.width, (level - 1) as nat)
        };
        if let Ok((tree, n)) = operand {
            lemma_rest_consumes(s, q + op.width + n, join(op, acc, tree), level);
        }
    }
}

/// An assignment that is read takes at least one character and ends inside
/// the input.
pub proof fn lemma_assign_consumes(s: Seq<char>, pos: nat)
    ensures
        parse_assign(s, pos) matches Ok((_, n)) ==> 1 <= n && pos + n <= s.len(),
    decreases left(s, pos), 10nat,
{
    lemma_level_consumes(s, pos, equality());
    if let Ok((_, n)) = parse_level(s, pos, equality()) {
        let b = blanks(s, pos + n);
        let q = pos + n + b;
        lemma_blanks_bound(s, pos + n);
        if q < s.len() && s[q as int] == '=' {
            lemma_assign_consumes(s, q + 1);
        }
    }
}

} // verus!
