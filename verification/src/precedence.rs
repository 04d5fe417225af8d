use crate::grammar::{
    additive, alphabetic, equality, join, lemma_assign_consumes, multiplicative, operator_at,
    parse_assign, parse_level, parse_primary, parse_program, parse_rest, parse_stmt, parse_unary,
    relational,
};
use crate::node::{is_operator, Tree};
use crate::utils::{blanks, left};
use vstd::prelude::*;

verus! {

/// Whether `symbol` is an operator of the given level.
pub open spec fn has_level(symbol: Seq<char>, level: nat) -> bool {
    if level == multiplicative() {
        symbol == "*"@ || symbol == "/"@
    } else if level == additive() {
        symbol == "+"@ || symbol == "-"@
    } else if level == relational() {
        symbol == "<"@ || symbol == "<="@
    } else if level == equality() {
        symbol == "=="@ || symbol == "!="@
    } else {
        false
    }
}

/// Whether every part of `tree` is one that the grammar can give: each
/// operation has one of the nine operators, and each identifier is one
/// alphabetic character.
pub open spec fn grammatical(tree: Tree) -> bool
    decreases tree,
{
    match tree {
        Tree::Num(_) => true,
        Tree::Var(name) => name.len() == 1 && alphabetic(name[0]),
        Tree::Op(symbol, lhs, rhs) => is_operator(symbol) && grammatical(*lhs) && grammatical(
            *rhs,
        ),
    }
}

/// The trees of the parts of `s` that stand in parentheses: those of the
/// expressions that are read behind a `(`.
pub open spec fn parenthesized(s: Seq<char>) -> Set<Tree> {
    Set::new(
        |tree: Tree|
            exists|p: nat|
                0 < p <= s.len() && s[p - 1] == '(' && (#[trigger] parse_assign(s, p)) is Ok
                    && parse_assign(s, p)->Ok_0.0 == tree,
    )
}

/// Whether `tree` is a number, an identifier, or one of `atoms`, which
/// stand for what was written in parentheses.
pub open spec fn is_operand(tree: Tree, atoms: Set<Tree>) -> bool {
    tree is Num || tree is Var || atoms.contains(tree)
}

/// Whether `tree` is an operand, or zero minus an operand, which is how an
/// operand with a minus sign is written down.
pub open spec fn is_signed_operand(tree: Tree, atoms: Set<Tree>) -> bool {
    ||| is_operand(tree, atoms)
    ||| tree matches Tree::Op(symbol, lhs, rhs) && symbol == "-"@ && *lhs == Tree::Num(0)
        && is_operand(*rhs, atoms)
}

/// Whether `tree` is layered up to `level`: it is a signed operand, or an
/// operation of `level` or a tighter level whose operands hold no operation
/// that is looser than it, unless in one of `atoms`, and of whose two
/// operands only the one written first holds an operation of the same level.
/// That is the left operand, but for `>` and `>=`, which come out as `<` and
/// `<=` with the operands exchanged.
pub open spec fn layered(tree: Tree, level: nat, atoms: Set<Tree>) -> bool
    decreases tree, level,
{
    ||| if level == 0 {
        is_signed_operand(tree, atoms)
    } else {
        layered(tree, (level - 1) as nat, atoms)
    }
    ||| tree matches Tree::Op(symbol, lhs, rhs) && has_level(symbol, level) && {
        ||| layered(*lhs, level, atoms) && tighter(*rhs, level, atoms)
        ||| level == relational() && tighter(*lhs, level, atoms) && layered(*rhs, level, atoms)
    }
}

/// Whether `tree` can be an operand of the operators of `level` without
/// parentheses of its own: it is layered up to the next tighter level.
pub open spec fn tighter(tree: Tree, level: nat, atoms: Set<Tree>) -> bool
    decreases tree, level, 0nat,
{
    if level == 0 {
        is_signed_operand(tree, atoms)
    } else {
        layered(tree, (level - 1) as nat, atoms)
    }
}

/// Whether `tree` is a chain of assignments that nests to the right, over
/// trees that are layered up to equality.
pub open spec fn layered_assignment(tree: Tree, atoms: Set<Tree>) -> bool
    decreases tree,
{
    ||| layered(tree, equality(), atoms)
    ||| tree matches Tree::Op(symbol, lhs, rhs) && symbol == "="@ && layered(
        *lhs,
        equality(),
        atoms,
    ) && layered_assignment(*rhs, atoms)
}

/// Whether no parenthesis opens in `s`.
pub open spec fn without_parentheses(s: Seq<char>) -> bool {
    forall|i: int| 0 <= i < s.len() ==> s[i] != '('
}

/// The nine operator symbols are nine different texts, so each has one
/// level, and `=` has none.
pub proof fn lemma_symbols_differ()
    ensures
        forall|symbol: Seq<char>, a: nat, b: nat|
            has_level(symbol, a) && has_level(symbol, b) ==> a == b,
        forall|level: nat| !has_level("="@, level),
        forall|symbol: Seq<char>|
            is_operator(symbol) <==> symbol == "="@ || exists|level: nat|
                has_level(symbol, level),
{
    reveal_strlit("+");
    reveal_strlit("-");
    reveal_strlit("*");
    reveal_strlit("/");
    reveal_strlit("==");
    reveal_strlit("!=");
    reveal_strlit("<");
    reveal_strlit("<=");
    reveal_strlit("=");
    // a symbol is told from the others by its length and its first character
    assert("+"@.len() == 1 && "+"@[0] == '+');
    assert("-"@.len() == 1 && "-"@[0] == '-');
    assert("*"@.len() == 1 && "*"@[0] == '*');
    assert("/"@.len() == 1 && "/"@[0] == '/');
    assert("<"@.len() == 1 && "<"@[0] == '<');
    assert("="@.len() == 1 && "="@[0] == '=');
    assert("=="@.len() == 2 && "=="@[0] == '=');
    assert("!="@.len() == 2 && "!="@[0] == '!');
    assert("<="@.len() == 2 && "<="@[0] == '<');
    assert forall|symbol: Seq<char>, a: nat, b: nat|
        has_level(symbol, a) && has_level(symbol, b) implies a == b by {
        let first = symbol[0];
        let length = symbol.len();
    }
    assert forall|level: nat| !has_level("="@, level) by {
        let first = "="@[0];
        let length = "="@.len();
    }
    assert forall|symbol: Seq<char>| is_operator(symbol) implies symbol == "="@ || exists|
        level: nat,
    |
        has_level(symbol, level) by {
        if symbol == "*"@ || symbol == "/"@ {
            assert(has_level(symbol, multiplicative()));
        } else if symbol == "+"@ || symbol == "-"@ {
            assert(has_level(symbol, additive()));
        } else if symbol == "<"@ || symbol == "<="@ {
            assert(has_level(symbol, relational()));
        } else if symbol == "=="@ || symbol == "!="@ {
            assert(has_level(symbol, equality()));
        }
    }
}

/// Greater is less with the operands exchanged: `first > second` has the
/// tree of `second < first`, and `first >= second` that of `second <= first`.
pub proof fn lemma_greater_is_less_exchanged(
    s: Seq<char>,
    i: nat,
    t: Seq<char>,
    j: nat,
    first: Tree,
    second: Tree,
)
    requires
        i < s.len() && s[i as int] == '>',
        j < t.len() && t[j as int] == '<',
        (i + 1 < s.len() && s[i + 1 as int] == '=') == (j + 1 < t.len() && t[j + 1 as int] == '='),
    ensures
        operator_at(s, i, relational()) matches Some(greater) && operator_at(
            t,
            j,
            relational(),
        ) matches Some(less) && greater.width == less.width && join(greater, first, second)
            == join(less, second, first),
{
}

/// A primary that the grammar reads is grammatical.
pub proof fn lemma_primary_grammatical(s: Seq<char>, pos: nat)
    ensures
        parse_primary(s, pos) matches Ok((tree, _)) ==> grammatical(tree),
    decreases left(s, pos), 0nat,
{
    let q = pos + blanks(s, pos);
    if q < s.len() && s[q as int] == '(' {
        lemma_assign_grammatical(s, q + 1);
    }
}

/// A unary that the grammar reads is grammatical.
pub proof fn lemma_unary_grammatical(s: Seq<char>, pos: nat)
    ensures
        parse_unary(s, pos) matches Ok((tree, _)) ==> grammatical(tree),
    decreases left(s, pos), 1nat,
{
    let q = pos + blanks(s, pos);
    if q < s.len() {
        if s[q as int] == '+' || s[q as int] == '-' {
            lemma_primary_grammatical(s, q + 1);
            assert(grammatical(Tree::Num(0)));
        } else {
            lemma_primary_grammatical(s, q);
        }
    }
}

/// A construct of a level that the grammar reads is grammatical.
pub proof fn lemma_level_grammatical(s: Seq<char>, pos: nat, level: nat)
    ensures
        parse_level(s, pos, level) matches Ok((tree, _)) ==> grammatical(tree),
    decreases left(s, pos), 2 * level + 3,
{
    if level == 0 {
        lemma_unary_grammatical(s, pos);
    } else {
        lemma_level_grammatical(s, pos, (level - 1) as nat);
    }
    let first = if level == 0 {
        parse_unary(s, pos)
    } else {
        parse_level(s, pos, (level - 1) as nat)
    };
    if let Ok((tree, n)) = first {
        lemma_rest_grammatical(s, pos + n, tree, level);
    }
}

/// The rest of a level behind a grammatical tree gives a grammatical tree.
pub proof fn lemma_rest_grammatical(s: Seq<char>, pos: nat, acc: Tree, level: nat)
    requires
        grammatical(acc),
    ensures
        parse_rest(s, pos, acc, level) matches Ok((tree, _)) ==> grammatical(tree),
    decreases left(s, pos), 2 * level + 2,
{
    let q = pos + blanks(s, pos);
    if let Some(op) = operator_at(s, q, level) {
        if level == 0 {
            lemma_unary_grammatical(s, q + op.width);
        } else {
            lemma_level_grammatical(s, q + op.width, (level - 1) as nat);
        }
        let operand = if level == 0 {
            parse_unary(s, q + op.width)
        } else {
            parse_level(s, q + op.width, (level - 1) as nat)
        };
        if let Ok((tree, n)) = operand {
            lemma_rest_grammatical(s, q + op.width + n, join(op, acc, tree), level);
        }
    }
}

/// An assignment that the grammar reads is grammatical.
pub proof fn lemma_assign_grammatical(s: Seq<char>, pos: nat)
    ensures
        parse_assign(s, pos) matches Ok((tree, _)) ==> grammatical(tree),
    decreases left(s, pos), 10nat,
{
    lemma_level_grammatical(s, pos, equality());
    if let Ok((_, n)) = parse_level(s, pos, equality()) {
        let q = pos + n + blanks(s, pos + n);
        if q < s.len() && s[q as int] == '=' {
            lemma_assign_grammatical(s, q + 1);
        }
    }
}

/// Every tree of a program that the grammar reads is grammatical.
pub proof fn lemma_program_grammatical(s: Seq<char>, pos: nat)
    ensures
        parse_program(s, pos) matches Ok(statements) ==> forall|i: int|
            0 <= i < statements.len() ==> grammatical(#[trigger] statements[i]),
    decreases left(s, pos),
{
    let q = pos + blanks(s, pos);
    if q < s.len() {
        lemma_assign_grammatical(s, q);
        if let Ok((tree, n)) = parse_stmt(s, q) {
            lemma_assign_consumes(s, q);
            lemma_program_grammatical(s, q + n);
        }
    }
}

/// A text without parentheses has no parenthesized parts, so the operands in
/// its trees are numbers and identifiers.
pub proof fn lemma_nothing_parenthesized(s: Seq<char>)
    requires
        without_parentheses(s),
    ensures
        parenthesized(s) == Set::<Tree>::empty(),
{
    assert(parenthesized(s) =~= Set::<Tree>::empty());
}

/// A primary is a number, an identifier, or the tree of what stands in its
/// parentheses.
pub proof fn lemma_primary_is_operand(s: Seq<char>, pos: nat)
    ensures
        parse_primary(s, pos) matches Ok((tree, _)) ==> is_operand(tree, parenthesized(s)),
{
    let q = pos + blanks(s, pos);
    if q < s.len() && s[q as int] == '(' {
        let p = q + 1;
        assert(s[p - 1] == '(');
        if let Ok((tree, _)) = parse_assign(s, p) {
            assert(parenthesized(s).contains(tree));
        }
    }
}

/// A unary is an operand, or zero minus an operand.
pub proof fn lemma_unary_is_signed_operand(s: Seq<char>, pos: nat)
    ensures
        parse_unary(s, pos) matches Ok((tree, _)) ==> is_signed_operand(tree, parenthesized(s)),
{
    let q = pos + blanks(s, pos);
    if q < s.len() {
        if s[q as int] == '+' || s[q as int] == '-' {
            lemma_primary_is_operand(s, q + 1);
        } else {
            lemma_primary_is_operand(s, q);
        }
    }
}

/// Precedence and associativity of the binary operators: the tree of a
/// construct of a level is layered up to that level, over the trees of the
/// parenthesized parts of the text.
pub proof fn lemma_level_is_layered(s: Seq<char>, pos: nat, level: nat)
    ensures
        parse_level(s, pos, level) matches Ok((tree, _)) ==> layered(
            tree,
            level,
            parenthesized(s),
        ),
    decreases left(s, pos), 2 * level + 3,
{
    if level == 0 {
        lemma_unary_is_signed_operand(s, pos);
    } else {
        lemma_level_is_layered(s, pos, (level - 1) as nat);
    }
    let first = if level == 0 {
        parse_unary(s, pos)
    } else {
        parse_level(s, pos, (level - 1) as nat)
    };
    if let Ok((tree, n)) = first {
        lemma_rest_is_layered(s, pos + n, tree, level);
    }
}

/// The rest of a level behind a tree that is layered up to the level gives a
/// tree that is layered up to it.
pub proof fn lemma_rest_is_layered(s: Seq<char>, pos: nat, acc: Tree, level: nat)
    requires
        layered(acc, level, parenthesized(s)),
    ensures
        parse_rest(s, pos, acc, level) matches Ok((tree, _)) ==> layered(
            tree,
            level,
            parenthesized(s),
        ),
    decreases left(s, pos), 2 * level + 2,
{
    let atoms = parenthesized(s);
    let q = pos + blanks(s, pos);
    if let Some(op) = operator_at(s, q, level) {
        if level == 0 {
            lemma_unary_is_signed_operand(s, q + op.width);
        } else {
            lemma_level_is_layered(s, q + op.width, (level - 1) as nat);
        }
        let operand = if level == 0 {
            parse_unary(s, q + op.width)
        } else {
            parse_level(s, q + op.width, (level - 1) as nat)
        };
        if let Ok((tree, n)) = operand {
            assert(has_level(op.symbol, level));
            assert(tighter(tree, level, atoms));
            assert(op.swapped ==> level == relational());
            assert(layered(join(op, acc, tree), level, atoms));
            lemma_rest_is_layered(s, q + op.width + n, join(op, acc, tree), level);
        }
    }
}

/// Precedence and associativity of the whole expression grammar: the tree
/// of an assignment is a chain of assignments that nests to the right, over
/// trees that are layered up to equality, over the trees of the
/// parenthesized parts of the text.
pub proof fn lemma_assign_is_layered(s: Seq<char>, pos: nat)
    ensures
        parse_assign(s, pos) matches Ok((tree, _)) ==> layered_assignment(
            tree,
            parenthesized(s),
        ),
    decreases left(s, pos),
{
    lemma_level_is_layered(s, pos, equality());
    if let Ok((_, n)) = parse_level(s, pos, equality()) {
        let q = pos + n + blanks(s, pos + n);
        if q < s.len() && s[q as int] == '=' {
            lemma_assign_is_layered(s, q + 1);
        }
    }
}

/// Every statement of a program is layered.
pub proof fn lemma_program_is_layered(s: Seq<char>, pos: nat)
    ensures
        parse_program(s, pos) matches Ok(statements) ==> forall|i: int|
            0 <= i < statements.len() ==> layered_assignment(
                #[trigger] statements[i],
                parenthesized(s),
            ),
    decreases left(s, pos),
{
    let q = pos + blanks(s, pos);
    if q < s.len() {
        lemma_assign_is_layered(s, q);
        if let Ok((tree, n)) = parse_stmt(s, q) {
            lemma_assign_consumes(s, q);
            lemma_program_is_layered(s, q + n);
        }
    }
}

} // verus!
