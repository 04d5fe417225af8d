use expr_compiler::grammar::SyntaxError;
use expr_compiler::lexer::Input;
use expr_compiler::node::{Node, NodeKind};

fn num(value: usize) -> Node {
    Node::new(NodeKind::Num(value), None, None)
}

fn var(name: &str) -> Node {
    Node::new(NodeKind::LVar(name.to_string()), None, None)
}

fn op(symbol: &str, lhs: Node, rhs: Node) -> Node {
    Node::new(NodeKind::Op(symbol.to_string()), Node::link(lhs), Node::link(rhs))
}

fn parse(s: &str) -> Result<Vec<Node>, SyntaxError> {
    Input::new(s).tokenize()
}

fn parse_one(s: &str) -> Node {
    let mut nodes = parse(s).unwrap();
    assert_eq!(nodes.len(), 1);
    nodes.pop().unwrap()
}

fn print_node(node: &Node) {
    println!("{:?}", node.kind());
    if let Some(n) = node.lhs() {
        print_node(n);
    }
    if let Some(n) = node.rhs() {
        print_node(n);
    }
}

fn test_tokenize(s: &str) {
    let mut input = Input::new(s);
    let head = input.tokenize().unwrap();
    assert!(!head.is_empty());
    for h in head {
        print_node(&h);
    }
    println!("------------");
}

#[test]
fn lexer_test_node() {
    test_tokenize("1*(2+3);");
    test_tokenize("1 + 20+ 4;");
    test_tokenize(" 9- 6 * 10;");
    test_tokenize("1-10/100 +1000 * 10000;");
    test_tokenize("((2-20)*200 + 2000)*(21 - 201);");
    test_tokenize("((100 + 100)* 10) + 100;");
    test_tokenize("1 == 1;");
    test_tokenize("1 != 1;");
    test_tokenize("1 <= 1;");
    test_tokenize("1 >= 1;");
    test_tokenize("1 < 1;");
    test_tokenize("1 > 1;");
    test_tokenize("1 == 1 == 1;");
    test_tokenize("1 > 1 > 1;");
    test_tokenize("a = 1;");
    test_tokenize("a = 1 + 3;");
    test_tokenize("a = b * 3 - p;");
}

#[test]
fn main_test_node() {
    test_tokenize("1*(2+3)");
    test_tokenize("1 + 20+ 4");
    test_tokenize(" 9- 6 * 10");
    test_tokenize("1-10/100 +1000 * 10000");
    test_tokenize("((2-20)*200 + 2000)*(21 - 201)");
    test_tokenize("((100 + 100)* 10) + 100");
    test_tokenize("1 == 1");
    test_tokenize("1 != 1");
    test_tokenize("1 <= 1");
    test_tokenize("1 >= 1");
    test_tokenize("1 < 1");
    test_tokenize("1 > 1");
    test_tokenize("1 == 1 == 1");
    test_tokenize("1 > 1 > 1");
}

#[test]
fn trees_of_the_sample_statements() {
    assert_eq!(parse_one("1*(2+3);"), op("*", num(1), op("+", num(2), num(3))));
    assert_eq!(parse_one("1 + 20+ 4;"), op("+", op("+", num(1), num(20)), num(4)));
    assert_eq!(parse_one(" 9- 6 * 10;"), op("-", num(9), op("*", num(6), num(10))));
    assert_eq!(
        parse_one("1-10/100 +1000 * 10000;"),
        op(
            "+",
            op("-", num(1), op("/", num(10), num(100))),
            op("*", num(1000), num(10000))
        )
    );
    assert_eq!(
        parse_one("((2-20)*200 + 2000)*(21 - 201);"),
        op(
            "*",
            op("+", op("*", op("-", num(2), num(20)), num(200)), num(2000)),
            op("-", num(21), num(201))
        )
    );
    assert_eq!(parse_one("1 == 1;"), op("==", num(1), num(1)));
    assert_eq!(parse_one("1 != 1;"), op("!=", num(1), num(1)));
    assert_eq!(parse_one("1 <= 2;"), op("<=", num(1), num(2)));
    assert_eq!(parse_one("1 >= 2;"), op("<=", num(2), num(1)));
    assert_eq!(parse_one("1 < 2;"), op("<", num(1), num(2)));
    assert_eq!(parse_one("1 > 2;"), op("<", num(2), num(1)));
    assert_eq!(parse_one("a = 1 + 3;"), op("=", var("a"), op("+", num(1), num(3))));
    assert_eq!(
        parse_one("a = b * 3 - p;"),
        op("=", var("a"), op("-", op("*", var("b"), num(3)), var("p")))
    );
}

#[test]
fn multiplication_binds_tighter_than_addition() {
    assert_eq!(parse_one("1 + 2 * 3"), op("+", num(1), op("*", num(2), num(3))));
    assert_eq!(parse_one("1 * 2 + 3"), op("+", op("*", num(1), num(2)), num(3)));
    assert_eq!(parse_one("8 - 6 / 2"), op("-", num(8), op("/", num(6), num(2))));
}

#[test]
fn each_level_binds_tighter_than_the_next() {
    assert_eq!(parse_one("1 + 2 < 3 * 4"), op("<", op("+", num(1), num(2)), op("*", num(3), num(4))));
    assert_eq!(parse_one("1 < 2 == 3 <= 4"), op("==", op("<", num(1), num(2)), op("<=", num(3), num(4))));
    assert_eq!(parse_one("1 != 2 < 3"), op("!=", num(1), op("<", num(2), num(3))));
    assert_eq!(parse_one("a = 1 == 2"), op("=", var("a"), op("==", num(1), num(2))));
    assert_eq!(
        parse_one("a = 1 == 2 < 3 + 4 * 5"),
        op(
            "=",
            var("a"),
            op("==", num(1), op("<", num(2), op("+", num(3), op("*", num(4), num(5)))))
        )
    );
}

#[test]
fn binary_operators_associate_to_the_left() {
    assert_eq!(parse_one("1 - 2 - 3"), op("-", op("-", num(1), num(2)), num(3)));
    assert_eq!(parse_one("8 / 4 / 2"), op("/", op("/", num(8), num(4)), num(2)));
    assert_eq!(parse_one("8 / 4 * 2"), op("*", op("/", num(8), num(4)), num(2)));
    assert_eq!(parse_one("1 == 1 == 1;"), op("==", op("==", num(1), num(1)), num(1)));
    assert_eq!(parse_one("1 != 2 == 3"), op("==", op("!=", num(1), num(2)), num(3)));
    assert_eq!(parse_one("1 < 2 < 3"), op("<", op("<", num(1), num(2)), num(3)));
    assert_eq!(parse_one("1 < 2 <= 3"), op("<=", op("<", num(1), num(2)), num(3)));
}

#[test]
fn assignment_associates_to_the_right() {
    assert_eq!(parse_one("a = b = 1"), op("=", var("a"), op("=", var("b"), num(1))));
    assert_eq!(
        parse_one("a = b = c = 1 + 2"),
        op("=", var("a"), op("=", var("b"), op("=", var("c"), op("+", num(1), num(2)))))
    );
    let tree = parse_one("a = b = 1");
    assert_eq!(*tree.kind(), NodeKind::Op("=".to_string()));
    let right = tree.rhs().as_ref().unwrap();
    assert_eq!(*right.kind(), NodeKind::Op("=".to_string()));
    assert_eq!(*right.lhs().as_ref().unwrap().kind(), NodeKind::LVar("b".to_string()));
    assert_eq!(*right.rhs().as_ref().unwrap().kind(), NodeKind::Num(1));
}

#[test]
fn the_target_of_an_assignment_is_any_equality() {
    assert_eq!(parse_one("1 = 2"), op("=", num(1), num(2)));
    assert_eq!(parse_one("a + 1 = 2"), op("=", op("+", var("a"), num(1)), num(2)));
}

#[test]
fn greater_than_is_less_than_with_the_operands_exchanged() {
    assert_eq!(parse_one("3 > 2"), op("<", num(2), num(3)));
    assert_eq!(parse_one("2 < 3"), op("<", num(2), num(3)));
    assert_eq!(parse_one("3 > 2"), parse_one("2 < 3"));
    assert_eq!(parse_one("3 >= 2"), parse_one("2 <= 3"));
    assert_eq!(parse_one("3 >= 2"), op("<=", num(2), num(3)));
    assert_eq!(
        parse_one("1 + 2 > 3 * 4"),
        op("<", op("*", num(3), num(4)), op("+", num(1), num(2)))
    );
}

#[test]
fn a_chain_of_greater_than_nests_to_the_right() {
    // (1 > 2) > 3 is 3 < (2 < 1)
    assert_eq!(parse_one("1 > 2 > 3;"), op("<", num(3), op("<", num(2), num(1))));
    assert_eq!(parse_one("1 < 2 > 3"), op("<", num(3), op("<", num(1), num(2))));
    assert_eq!(parse_one("1 >= 2 < 3"), op("<", op("<=", num(2), num(1)), num(3)));
}

#[test]
fn relational_operators_take_no_blank_inside() {
    assert_eq!(parse_one("1 <= 2"), op("<=", num(1), num(2)));
    assert_eq!(parse("1 < = 2"), Err(SyntaxError::InvalidElement('=')));
    assert_eq!(parse("1 > = 2"), Err(SyntaxError::InvalidElement('=')));
    assert_eq!(parse("1 = = 2"), Err(SyntaxError::InvalidElement('=')));
    assert_eq!(parse("1 ! = 2"), Err(SyntaxError::ExpectedSemicolon('!')));
    assert_eq!(parse("1 <== 2"), Err(SyntaxError::InvalidElement('=')));
}

#[test]
fn unary_minus_is_zero_minus() {
    assert_eq!(parse_one("-5"), op("-", num(0), num(5)));
    assert_eq!(parse_one("- 5"), op("-", num(0), num(5)));
    assert_eq!(parse_one("-a"), op("-", num(0), var("a")));
    assert_eq!(parse_one("-(1 + 2)"), op("-", num(0), op("+", num(1), num(2))));
    assert_eq!(parse_one("2 * -3"), op("*", num(2), op("-", num(0), num(3))));
    assert_eq!(parse_one("1 - -3"), op("-", num(1), op("-", num(0), num(3))));
    assert_eq!(parse_one("-1 - 3"), op("-", op("-", num(0), num(1)), num(3)));
    assert_eq!(parse_one("-2 * 3"), op("*", op("-", num(0), num(2)), num(3)));
}

#[test]
fn unary_plus_is_dropped() {
    assert_eq!(parse_one("+5"), num(5));
    assert_eq!(parse_one("+ 5"), num(5));
    assert_eq!(parse_one("1 + +5"), op("+", num(1), num(5)));
    assert_eq!(parse_one("+(1)"), num(1));
    assert_eq!(
        parse_one("123 +  (  + 33 - 99 )* 24"),
        op("+", num(123), op("*", op("-", num(33), num(99)), num(24)))
    );
}

#[test]
fn a_sign_stands_once() {
    assert_eq!(parse("--5"), Err(SyntaxError::InvalidElement('-')));
    assert_eq!(parse("+-5"), Err(SyntaxError::InvalidElement('-')));
    assert_eq!(parse("-+5"), Err(SyntaxError::InvalidElement('+')));
    assert_eq!(parse("1 * * 2"), Err(SyntaxError::InvalidElement('*')));
}

#[test]
fn parentheses_leave_no_trace() {
    assert_eq!(parse_one("(((1)))"), parse_one("1"));
    assert_eq!(parse_one("(((1)))"), num(1));
    assert_eq!(parse_one("( ( ( 1 ) ) )"), num(1));
    assert_eq!(parse_one("(1 + 2)"), parse_one("1 + 2"));
    assert_eq!(parse_one("((a = 1))"), parse_one("a = 1"));
    assert_eq!(parse_one("(1 + 2) * 3"), op("*", op("+", num(1), num(2)), num(3)));
    assert_eq!(parse_one("1 - (2 - 3)"), op("-", num(1), op("-", num(2), num(3))));
    assert_eq!(parse_one("(a = 1) + 2"), op("+", op("=", var("a"), num(1)), num(2)));
}

#[test]
fn statements_are_separated_by_semicolons() {
    let nodes = parse("a = 1; a + 2;").unwrap();
    assert_eq!(nodes.len(), 2);
    assert_eq!(nodes[0], op("=", var("a"), num(1)));
    assert_eq!(nodes[1], op("+", var("a"), num(2)));
    assert_eq!(*nodes[0].kind(), NodeKind::Op("=".to_string()));
    assert_eq!(*nodes[1].kind(), NodeKind::Op("+".to_string()));
}

#[test]
fn the_last_semicolon_may_be_left_out() {
    assert_eq!(parse("1;2").unwrap(), vec![num(1), num(2)]);
    assert_eq!(parse("1;2;").unwrap(), vec![num(1), num(2)]);
    assert_eq!(parse(" 1 ; 2 ; 3 ").unwrap(), vec![num(1), num(2), num(3)]);
    assert_eq!(parse("1").unwrap(), vec![num(1)]);
    assert_eq!(parse("1;").unwrap(), vec![num(1)]);
    assert_eq!(parse("1 ;\t").unwrap(), vec![num(1)]);
}

#[test]
fn a_text_without_statements_is_an_empty_program() {
    assert_eq!(parse("").unwrap(), vec![]);
    assert_eq!(parse("  \t ").unwrap(), vec![]);
}

#[test]
fn a_statement_is_not_empty() {
    assert_eq!(parse(";"), Err(SyntaxError::InvalidElement(';')));
    assert_eq!(parse("1;;"), Err(SyntaxError::InvalidElement(';')));
}

#[test]
fn two_literals_need_a_separator() {
    assert_eq!(parse("1 2"), Err(SyntaxError::ExpectedSemicolon('2')));
    assert_eq!(parse("1 2;"), Err(SyntaxError::ExpectedSemicolon('2')));
    assert_eq!(parse("a b"), Err(SyntaxError::ExpectedSemicolon('b')));
    assert_eq!(parse("1 )"), Err(SyntaxError::ExpectedSemicolon(')')));
    assert_eq!(parse("1;2 3"), Err(SyntaxError::ExpectedSemicolon('3')));
}

#[test]
fn an_unterminated_parenthesis_fails() {
    assert_eq!(parse("(1 + 2"), Err(SyntaxError::UnclosedParen));
    assert_eq!(parse("(1 + 2  "), Err(SyntaxError::UnclosedParen));
    assert_eq!(parse("((1)"), Err(SyntaxError::UnclosedParen));
    assert_eq!(parse("(1 + 2;"), Err(SyntaxError::ExpectedCloseParen(';')));
    assert_eq!(parse("(1 2)"), Err(SyntaxError::ExpectedCloseParen('2')));
}

#[test]
fn a_dangling_operator_fails() {
    assert_eq!(parse("1 +"), Err(SyntaxError::MissingOperand));
    assert_eq!(parse("1 + "), Err(SyntaxError::MissingOperand));
    assert_eq!(parse("1 *"), Err(SyntaxError::MissingOperand));
    assert_eq!(parse("1 <"), Err(SyntaxError::MissingOperand));
    assert_eq!(parse("1 >="), Err(SyntaxError::MissingOperand));
    assert_eq!(parse("1 =="), Err(SyntaxError::MissingOperand));
    assert_eq!(parse("a ="), Err(SyntaxError::MissingOperand));
    assert_eq!(parse("-"), Err(SyntaxError::MissingOperand));
    assert_eq!(parse("("), Err(SyntaxError::MissingOperand));
    assert_eq!(parse("1 + ;"), Err(SyntaxError::InvalidElement(';')));
}

#[test]
fn an_empty_parenthesis_fails() {
    assert_eq!(parse("()"), Err(SyntaxError::InvalidElement(')')));
    assert_eq!(parse("( )"), Err(SyntaxError::InvalidElement(')')));
    assert_eq!(parse("1 + ()"), Err(SyntaxError::InvalidElement(')')));
}

#[test]
fn an_unknown_character_fails() {
    assert_eq!(parse("$"), Err(SyntaxError::InvalidElement('$')));
    assert_eq!(parse("1 + #"), Err(SyntaxError::InvalidElement('#')));
    assert_eq!(parse("\n1"), Err(SyntaxError::InvalidElement('\n')));
    assert_eq!(parse("1 % 2"), Err(SyntaxError::ExpectedSemicolon('%')));
}

#[test]
fn an_identifier_is_one_letter() {
    assert_eq!(parse_one("a"), var("a"));
    assert_eq!(parse_one("Z"), var("Z"));
    assert_eq!(parse_one("\u{e9}"), var("\u{e9}"));
    assert_eq!(parse("ab"), Err(SyntaxError::ExpectedSemicolon('b')));
    assert_eq!(parse("a1"), Err(SyntaxError::ExpectedSemicolon('1')));
    assert_eq!(parse("_"), Err(SyntaxError::InvalidElement('_')));
}

#[test]
fn a_number_takes_ascii_digits_only() {
    // numeric for Unicode, but no decimal digit
    assert_eq!(parse("\u{0663}"), Err(SyntaxError::InvalidElement('\u{0663}')));
    // a Roman numeral is numeric and alphabetic: it is refused as a number
    assert_eq!(parse("\u{2167}"), Err(SyntaxError::InvalidElement('\u{2167}')));
    assert_eq!(parse("\u{bd}"), Err(SyntaxError::InvalidElement('\u{bd}')));
}

#[test]
fn a_number_is_read_without_a_guard_against_overflow() {
    let max = usize::MAX as u128;
    assert_eq!(parse_one(&usize::MAX.to_string()), num(usize::MAX));
    assert_eq!(parse_one(&(max + 1).to_string()), num(0));
    assert_eq!(parse_one(&(max + 43).to_string()), num(42));
    assert_eq!(parse_one("007"), num(7));
}

#[test]
fn a_number_ends_where_the_digits_end() {
    assert_eq!(parse("12a"), Err(SyntaxError::ExpectedSemicolon('a')));
    assert_eq!(parse_one("12+3"), op("+", num(12), num(3)));
    assert_eq!(parse("1 2 3"), Err(SyntaxError::ExpectedSemicolon('2')));
}

#[test]
fn blanks_are_transparent() {
    assert_eq!(parse_one("1+2*3"), parse_one(" 1 +\t2  *   3 "));
    assert_eq!(parse_one("a=b==c"), parse_one(" a = b == c ; "));
    assert_eq!(parse_one("(1)"), parse_one("\t(\t1\t)\t"));
}

#[test]
fn tokenize_reads_to_the_end() {
    let mut input = Input::new("1; 2");
    assert_eq!(input.tokenize().unwrap(), vec![num(1), num(2)]);
    // nothing is left to parse
    assert_eq!(input.tokenize().unwrap(), vec![]);
}

#[test]
fn the_first_error_is_reported() {
    assert_eq!(parse("1 + $ + ("), Err(SyntaxError::InvalidElement('$')));
    assert_eq!(parse("1; 2 3; ("), Err(SyntaxError::ExpectedSemicolon('3')));
    assert_eq!(parse("1; (2"), Err(SyntaxError::UnclosedParen));
}

#[test]
fn node_getters() {
    let leaf = num(7);
    assert_eq!(*leaf.kind(), NodeKind::Num(7));
    assert!(leaf.lhs().is_none());
    assert!(leaf.rhs().is_none());
    let name = var("x");
    assert_eq!(*name.kind(), NodeKind::LVar("x".to_string()));
    assert!(name.lhs().is_none());
    assert!(name.rhs().is_none());
    let sum = op("+", num(1), var("x"));
    assert_eq!(*sum.kind(), NodeKind::Op("+".to_string()));
    assert_eq!(**sum.lhs().as_ref().unwrap(), num(1));
    assert_eq!(**sum.rhs().as_ref().unwrap(), var("x"));
    assert_eq!(Node::link(num(1)), Some(Box::new(num(1))));
}

fn symbols_of(node: &Node, out: &mut Vec<String>) {
    if let NodeKind::Op(symbol) = node.kind() {
        out.push(symbol.clone());
    }
    if let Some(child) = node.lhs() {
        symbols_of(child, out);
    }
    if let Some(child) = node.rhs() {
        symbols_of(child, out);
    }
}

#[test]
fn every_operator_of_a_tree_is_one_of_the_nine() {
    let tree = parse_one("a = 1 + 2 - 3 * 4 / 5 == 6 != 7 < 8 <= 9 > 10 >= -11");
    let mut symbols = Vec::new();
    symbols_of(&tree, &mut symbols);
    symbols.sort();
    symbols.dedup();
    assert_eq!(symbols, vec!["!=", "*", "+", "-", "/", "<", "<=", "=", "=="]);
}

#[test]
fn an_operation_has_both_children_and_a_leaf_has_none() {
    fn check(node: &Node) {
        match node.kind() {
            NodeKind::Op(_) => {
                check(node.lhs().as_ref().unwrap());
                check(node.rhs().as_ref().unwrap());
            }
            NodeKind::Num(_) | NodeKind::LVar(_) => {
                assert!(node.lhs().is_none());
                assert!(node.rhs().is_none());
            }
        }
    }
    for text in ["1", "a", "-a", "(1 + 2) * (3 - -4)", "a = b = c == d < e + f * g"] {
        check(&parse_one(text));
    }
}

#[test]
fn blanks_before_an_expression_are_not_part_of_it() {
    for text in ["1", "-a", "1 + 2 * 3", "(1)", "a = b = 3"] {
        let padded = format!(" \t  {}", text);
        assert_eq!(parse_one(&padded), parse_one(text));
    }
}

#[test]
fn an_expression_in_parentheses_is_the_expression() {
    for text in ["1", "a", "-5", "1 + 2 * 3", "1 - 2 - 3", "a = b = 1", "3 > 2", "(1)", " 1 "] {
        let wrapped = format!("({})", text);
        assert_eq!(parse_one(&wrapped), parse_one(text));
        let twice = format!("(({}))", text);
        assert_eq!(parse_one(&twice), parse_one(text));
    }
}

#[test]
fn a_statement_before_a_program_comes_first() {
    for (first, rest) in [("1", "2; 3"), ("a = 1", " a + 2;"), ("1 + 2", ""), (" -1 ", "  ")] {
        let text = format!("{};{}", first, rest);
        let mut expected = vec![parse_one(first)];
        expected.extend(parse(rest).unwrap());
        assert_eq!(parse(&text).unwrap(), expected);
    }
    // what follows the statement is no program, so the whole is none
    assert!(parse("1;2 3").is_err());
    assert!(parse("1;(").is_err());
}

#[test]
fn message_of_each_error() {
    assert_eq!(
        SyntaxError::MissingOperand.message(),
        "expected a value, but found the end of the input"
    );
    assert_eq!(SyntaxError::InvalidElement('$').message(), "invalid element: $");
    assert_eq!(
        SyntaxError::UnclosedParen.message(),
        "expected `)`, but found the end of the input"
    );
    assert_eq!(SyntaxError::ExpectedCloseParen('2').message(), "expected `)`, but found `2`");
    assert_eq!(SyntaxError::ExpectedSemicolon('x').message(), "expected `;`, but found `x`");
    assert_eq!(parse("1 2").unwrap_err().message(), "expected `;`, but found `2`");
}
