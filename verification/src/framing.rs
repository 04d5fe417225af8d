use crate::grammar::{
    after, equality, join, lemma_assign_consumes, lemma_level_consumes, lemma_unary_consumes,
    operator_at, parse_assign, parse_expr, parse_level, parse_primary, parse_program, parse_rest,
    parse_stmt, parse_unary, SyntaxError,
};
use crate::node::Tree;
use crate::utils::{
    blanks, digits, is_blank, is_digit, left, lemma_blanks_bound, lemma_blanks_idempotent,
};
use vstd::prelude::*;

verus! {

/// Whether nothing of an expression can stand at `i` in `s`: the text ends
/// there, or a `)` or a `;` stands there.
pub open spec fn closes(s: Seq<char>, i: nat) -> bool {
    i >= s.len() || s[i as int] == ')' || s[i as int] == ';'
}

/// Whether the last `m` characters of `a`, which start at `pa`, stand in `b`
/// from `pb` on, and `b` closes behind them.
pub open spec fn framed(a: Seq<char>, pa: nat, b: Seq<char>, pb: nat, m: nat) -> bool {
    &&& pa + m == a.len()
    &&& pb + m <= b.len()
    &&& a.subrange(pa as int, a.len() as int) == b.subrange(pb as int, (pb + m) as int)
    &&& closes(b, pb + m)
}

/// In a frame the same characters stand at the same places.
pub proof fn lemma_framed_char(a: Seq<char>, pa: nat, b: Seq<char>, pb: nat, m: nat, i: int)
    requires
        framed(a, pa, b, pb, m),
        0 <= i < m,
    ensures
        a[pa + i] == b[pb + i],
{
    assert(a.subrange(pa as int, a.len() as int)[i] == b.subrange(pb as int, (pb + m) as int)[i]);
}

/// Blanks before a primary are not part of it.
pub proof fn lemma_primary_leading_blanks(s: Seq<char>, pos: nat)
    ensures
        parse_primary(s, pos) == after(
            blanks(s, pos),
            parse_primary(s, pos + blanks(s, pos)),
        ),
{
    lemma_blanks_idempotent(s, pos);
}

/// Blanks before a unary are not part of it.
pub proof fn lemma_unary_leading_blanks(s: Seq<char>, pos: nat)
    ensures
        parse_unary(s, pos) == after(blanks(s, pos), parse_unary(s, pos + blanks(s, pos))),
{
    lemma_blanks_idempotent(s, pos);
}

/// Blanks before a construct of a level are not part of it.
pub proof fn lemma_level_leading_blanks(s: Seq<char>, pos: nat, level: nat)
    ensures
        parse_level(s, pos, level) == after(
            blanks(s, pos),
            parse_level(s, pos + blanks(s, pos), level),
        ),
    decreases level,
{
    let b = blanks(s, pos);
    if level == 0 {
        lemma_unary_leading_blanks(s, pos);
    } else {
        lemma_level_leading_blanks(s, pos, (level - 1) as nat);
    }
    let first = if level == 0 {
        parse_unary(s, pos + b)
    } else {
        parse_level(s, pos + b, (level - 1) as nat)
    };
    if let Ok((tree, n)) = first {
        assert(pos + (b + n) == pos + b + n);
    }
}

/// Blanks before an assignment are not part of it.
pub proof fn lemma_assign_leading_blanks(s: Seq<char>, pos: nat)
    ensures
        parse_assign(s, pos) == after(blanks(s, pos), parse_assign(s, pos + blanks(s, pos))),
{
    let b = blanks(s, pos);
    lemma_level_leading_blanks(s, pos, equality());
    if let Ok((_, n)) = parse_level(s, pos + b, equality()) {
        assert(pos + (b + n) == pos + b + n);
    }
}

/// In a frame the runs of blanks are the same, and they end inside it.
pub proof fn lemma_framed_blanks(a: Seq<char>, pa: nat, b: Seq<char>, pb: nat, m: nat, p: nat)
    requires
        framed(a, pa, b, pb, m),
        p <= m,
    ensures
        blanks(a, pa + p) == blanks(b, pb + p),
        p + blanks(a, pa + p) <= m,
    decreases m - p,
{
    if p < m {
        lemma_framed_char(a, pa, b, pb, m, p as int);
        if is_blank(a[(pa + p) as int]) {
            lemma_framed_blanks(a, pa, b, pb, m, p + 1);
        }
    }
}

/// In a frame the runs of digits are the same, and they end inside it.
pub proof fn lemma_framed_digits(a: Seq<char>, pa: nat, b: Seq<char>, pb: nat, m: nat, p: nat)
    requires
        framed(a, pa, b, pb, m),
        p <= m,
    ensures
        digits(a, pa + p) == digits(b, pb + p),
        p + digits(a, pa + p) <= m,
    decreases m - p,
{
    if p < m {
        lemma_framed_char(a, pa, b, pb, m, p as int);
        if is_digit(a[(pa + p) as int]) {
            lemma_framed_digits(a, pa, b, pb, m, p + 1);
        }
    }
}

/// In a frame the same operator stands at the same place.
pub proof fn lemma_framed_operator(
    a: Seq<char>,
    pa: nat,
    b: Seq<char>,
    pb: nat,
    m: nat,
    p: nat,
    level: nat,
)
    requires
        framed(a, pa, b, pb, m),
        p <= m,
    ensures
        operator_at(a, pa + p, level) == operator_at(b, pb + p, level),
        operator_at(a, pa + p, level) matches Some(op) ==> p + op.width <= m,
{
    if p < m {
        lemma_framed_char(a, pa, b, pb, m, p as int);
        if p + 1 < m {
            lemma_framed_char(a, pa, b, pb, m, (p + 1) as int);
        }
    }
}

/// A primary that is read at the end of a text is read the same in a frame.
pub proof fn lemma_framed_primary(a: Seq<char>, pa: nat, b: Seq<char>, pb: nat, m: nat, p: nat)
    requires
        framed(a, pa, b, pb, m),
        p <= m,
    ensures
        parse_primary(a, pa + p) is Ok ==> parse_primary(b, pb + p) == parse_primary(a, pa + p),
    decreases left(a, pa + p), 0nat,
{
    lemma_framed_blanks(a, pa, b, pb, m, p);
    let g = blanks(a, pa + p);
    let q = p + g;
    if q < m {
        assert(pa + p + g == pa + q && pb + p + g == pb + q);
        lemma_framed_char(a, pa, b, pb, m, q as int);
        let c = a[(pa + q) as int];
        if is_digit(c) {
            lemma_framed_digits(a, pa, b, pb, m, q);
            let k = digits(a, pa + q);
            let window = a.subrange(pa as int, a.len() as int);
            assert(a.subrange((pa + q) as int, (pa + q + k) as int) =~= window.subrange(
                q as int,
                (q + k) as int,
            ));
            assert(b.subrange((pb + q) as int, (pb + q + k) as int) =~= b.subrange(
                pb as int,
                (pb + m) as int,
            ).subrange(q as int, (q + k) as int));
        } else if c == '(' {
            lemma_assign_consumes(a, pa + q + 1);
            lemma_framed_assign(a, pa, b, pb, m, q + 1);
            assert(pa + (q + 1) == pa + q + 1 && pb + (q + 1) == pb + q + 1);
            if let Ok((tree, n)) = parse_assign(a, pa + q + 1) {
                let r = q + 1 + n;
                lemma_framed_blanks(a, pa, b, pb, m, r);
                assert(pa + r == pa + q + 1 + n && pb + r == pb + q + 1 + n);
                let h = blanks(a, pa + r);
                if r + h < m {
                    lemma_framed_char(a, pa, b, pb, m, (r + h) as int);
                }
            }
        }
    }
}

/// A unary that is read at the end of a text is read the same in a frame.
pub proof fn lemma_framed_unary(a: Seq<char>, pa: nat, b: Seq<char>, pb: nat, m: nat, p: nat)
    requires
        framed(a, pa, b, pb, m),
        p <= m,
    ensures
        parse_unary(a, pa + p) is Ok ==> parse_unary(b, pb + p) == parse_unary(a, pa + p),
    decreases left(a, pa + p), 1nat,
{
    lemma_framed_blanks(a, pa, b, pb, m, p);
    let g = blanks(a, pa + p);
    let q = p + g;
    if q < m {
        assert(pa + p + g == pa + q && pb + p + g == pb + q);
        lemma_framed_char(a, pa, b, pb, m, q as int);
        if a[(pa + q) as int] == '+' || a[(pa + q) as int] == '-' {
            lemma_framed_primary(a, pa, b, pb, m, q + 1);
            assert(pa + (q + 1) == pa + q + 1 && pb + (q + 1) == pb + q + 1);
        } else {
            lemma_framed_primary(a, pa, b, pb, m, q);
        }
    }
}

/// A construct of a level that is read at the end of a text is read the same
/// in a frame.
pub proof fn lemma_framed_level(
    a: Seq<char>,
    pa: nat,
    b: Seq<char>,
    pb: nat,
    m: nat,
    p: nat,
    level: nat,
)
    requires
        framed(a, pa, b, pb, m),
        p <= m,
    ensures
        parse_level(a, pa + p, level) is Ok ==> parse_level(b, pb + p, level) == parse_level(
            a,
            pa + p,
            level,
        ),
    decreases left(a, pa + p), 2 * level + 3,
{
    if level == 0 {
        lemma_framed_unary(a, pa, b, pb, m, p);
        lemma_unary_consumes(a, pa + p);
    } else {
        lemma_framed_level(a, pa, b, pb, m, p, (level - 1) as nat);
        lemma_level_consumes(a, pa + p, (level - 1) as nat);
    }
    let first = if level == 0 {
        parse_unary(a, pa + p)
    } else {
        parse_level(a, pa + p, (level - 1) as nat)
    };
    if let Ok((tree, n)) = first {
        lemma_framed_rest(a, pa, b, pb, m, p + n, tree, level);
        assert(pa + (p + n) == pa + p + n && pb + (p + n) == pb + p + n);
    }
}

/// The rest of a level that is read at the end of a text is read the same in
/// a frame.
pub proof fn lemma_framed_rest(
    a: Seq<char>,
    pa: nat,
    b: Seq<char>,
    pb: nat,
    m: nat,
    p: nat,
    acc: Tree,
    level: nat,
)
    requires
        framed(a, pa, b, pb, m),
        p <= m,
    ensures
        parse_rest(a, pa + p, acc, level) is Ok ==> parse_rest(b, pb + p, acc, level)
            == parse_rest(a, pa + p, acc, level),
    decreases left(a, pa + p), 2 * level + 2,
{
    lemma_framed_blanks(a, pa, b, pb, m, p);
    let g = blanks(a, pa + p);
    let q = p + g;
    assert(pa + p + g == pa + q && pb + p + g == pb + q);
    lemma_framed_operator(a, pa, b, pb, m, q, level);
    if let Some(op) = operator_at(a, pa + q, level) {
        let w = q + op.width;
        assert(pa + q + op.width == pa + w && pb + q + op.width == pb + w);
        if level == 0 {
            lemma_framed_unary(a, pa, b, pb, m, w);
            lemma_unary_consumes(a, pa + w);
        } else {
            lemma_framed_level(a, pa, b, pb, m, w, (level - 1) as nat);
            lemma_level_consumes(a, pa + w, (level - 1) as nat);
        }
        let operand = if level == 0 {
            parse_unary(a, pa + w)
        } else {
            parse_level(a, pa + w, (level - 1) as nat)
        };
        if let Ok((tree, n)) = operand {
            lemma_framed_rest(a, pa, b, pb, m, w + n, join(op, acc, tree), level);
            assert(pa + (w + n) == pa + q + op.width + n && pb + (w + n) == pb + q + op.width
                + n);
        }
    }
}

/// An assignment that is read at the end of a text is read the same in a
/// frame.
pub proof fn lemma_framed_assign(a: Seq<char>, pa: nat, b: Seq<char>, pb: nat, m: nat, p: nat)
    requires
        framed(a, pa, b, pb, m),
        p <= m,
    ensures
        parse_assign(a, pa + p) is Ok ==> parse_assign(b, pb + p) == parse_assign(a, pa + p),
    decreases left(a, pa + p), 10nat,
{
    lemma_framed_level(a, pa, b, pb, m, p, equality());
    lemma_level_consumes(a, pa + p, equality());
    if let Ok((target, n)) = parse_level(a, pa + p, equality()) {
        let r = p + n;
        assert(pa + r == pa + p + n && pb + r == pb + p + n);
        lemma_framed_blanks(a, pa, b, pb, m, r);
        let g = blanks(a, pa + r);
        let q = r + g;
        assert(pa + r + g == pa + q && pb + r + g == pb + q);
        if q < m {
            lemma_framed_char(a, pa, b, pb, m, q as int);
            if a[(pa + q) as int] == '=' {
                lemma_framed_assign(a, pa, b, pb, m, q + 1);
                assert(pa + (q + 1) == pa + q + 1 && pb + (q + 1) == pb + q + 1);
            }
        }
    }
}

/// A program reads the same wherever its text stands, as long as the text
/// ends where the program ends.
pub proof fn lemma_framed_program(a: Seq<char>, pa: nat, b: Seq<char>, pb: nat, m: nat, p: nat)
    requires
        framed(a, pa, b, pb, m),
        pb + m == b.len(),
        p <= m,
    ensures
        parse_program(a, pa + p) is Ok ==> parse_program(b, pb + p) == parse_program(a, pa + p),
    decreases left(a, pa + p),
{
    lemma_framed_blanks(a, pa, b, pb, m, p);
    let g = blanks(a, pa + p);
    let q = p + g;
    assert(pa + p + g == pa + q && pb + p + g == pb + q);
    if q < m {
        lemma_framed_assign(a, pa, b, pb, m, q);
        lemma_assign_consumes(a, pa + q);
        if let Ok((tree, n)) = parse_assign(a, pa + q) {
            let r = q + n;
            assert(pa + r == pa + q + n && pb + r == pb + q + n);
            lemma_framed_blanks(a, pa, b, pb, m, r);
            let h = blanks(a, pa + r);
            if r + h < m {
                lemma_framed_char(a, pa, b, pb, m, (r + h) as int);
            }
            if let Ok((_, k)) = parse_stmt(a, pa + q) {
                lemma_framed_program(a, pa, b, pb, m, q + k);
                assert(pa + (q + k) == pa + q + k && pb + (q + k) == pb + q + k);
            }
        }
    }
}

/// Parentheses leave no trace: where `e` is an expression, `(e)` is an
/// expression with the same tree.
pub proof fn lemma_parenthesized(e: Seq<char>)
    requires
        parse_expr(e, 0) matches Ok((_, n)) && n == e.len(),
    ensures
        parse_expr(seq!['('] + e + seq![')'], 0) == after(2, parse_expr(e, 0)),
{
    let s = seq!['('] + e + seq![')'];
    let m = e.len();
    let tree = parse_expr(e, 0)->Ok_0.0;
    assert(s[1 + m as int] == ')');
    assert(e.subrange(0, m as int) =~= s.subrange(1, 1 + m as int));
    assert(framed(e, 0, s, 1, m));
    lemma_framed_assign(e, 0, s, 1, m, 0);
    assert(parse_assign(s, 1) == Ok::<(Tree, nat), SyntaxError>((tree, m)));
    lemma_blanks_bound(s, 0);
    lemma_blanks_bound(s, 1 + m);
    assert(s[0] == '(');
    assert(s[1 + m as int] == ')');
    assert(blanks(s, 0) == 0);
    assert(blanks(s, 1 + m) == 0);
    assert(parse_primary(s, 0) == Ok::<(Tree, nat), SyntaxError>((tree, m + 2)));
    assert(parse_unary(s, 0) == Ok::<(Tree, nat), SyntaxError>((tree, m + 2)));
    lemma_level_at_the_end(s, 0, tree, m + 2, 0);
    lemma_level_at_the_end(s, 0, tree, m + 2, 1);
    lemma_level_at_the_end(s, 0, tree, m + 2, 2);
    lemma_level_at_the_end(s, 0, tree, m + 2, 3);
    assert(blanks(s, m + 2) == 0);
}

/// A level whose first operand takes the rest of the text is that operand.
proof fn lemma_level_at_the_end(s: Seq<char>, pos: nat, tree: Tree, n: nat, level: nat)
    requires
        pos + n == s.len(),
        if level == 0 {
            parse_unary(s, pos)
        } else {
            parse_level(s, pos, (level - 1) as nat)
        } == Ok::<(Tree, nat), SyntaxError>((tree, n)),
    ensures
        parse_level(s, pos, level) == Ok::<(Tree, nat), SyntaxError>((tree, n)),
{
    assert(blanks(s, pos + n) == 0);
    assert(operator_at(s, pos + n, level) is None);
    assert(parse_rest(s, pos + n, tree, level) == Ok::<(Tree, nat), SyntaxError>((tree, 0)));
}

/// Statements stand apart: where `e` is an expression, the program `e; rest`
/// is the tree of `e` followed by the trees of the program `rest`, and it is
/// a program only where `rest` is one.
pub proof fn lemma_first_statement(e: Seq<char>, rest: Seq<char>)
    requires
        parse_expr(e, 0) matches Ok((_, n)) && n == e.len(),
    ensures
        match parse_program(rest, 0) {
            Ok(more) => parse_program(e + seq![';'] + rest, 0) == Ok::<Seq<Tree>, SyntaxError>(
                seq![parse_expr(e, 0)->Ok_0.0] + more,
            ),
            Err(_) => parse_program(e + seq![';'] + rest, 0) is Err,
        },
{
    let s = e + seq![';'] + rest;
    let m = e.len();
    let tree = parse_expr(e, 0)->Ok_0.0;
    assert(s[m as int] == ';');
    assert(e.subrange(0, m as int) =~= s.subrange(0, m as int));
    assert(framed(e, 0, s, 0, m));
    lemma_framed_blanks(e, 0, s, 0, m, 0);
    let g = blanks(e, 0);
    lemma_assign_leading_blanks(e, 0);
    lemma_framed_assign(e, 0, s, 0, m, g);
    lemma_assign_consumes(e, g);
    assert(parse_assign(s, g) == Ok::<(Tree, nat), SyntaxError>((tree, (m - g) as nat)));
    lemma_blanks_bound(s, m);
    assert(blanks(s, m) == 0);
    assert(g + (m - g) as nat == m);
    assert(parse_stmt(s, g) == Ok::<(Tree, nat), SyntaxError>((tree, (m - g + 1) as nat)));
    assert(g + (m - g + 1) as nat == m + 1);
    // what follows the `;` is the program `rest`, moved
    assert(rest.subrange(0, rest.len() as int) =~= s.subrange(m + 1 as int, s.len() as int));
    assert(framed(rest, 0, s, m + 1, rest.len()));
    assert(framed(s, m + 1, rest, 0, rest.len()));
    lemma_framed_program(rest, 0, s, m + 1, rest.len(), 0);
    lemma_framed_program(s, m + 1, rest, 0, rest.len(), 0);
}

} // verus!
