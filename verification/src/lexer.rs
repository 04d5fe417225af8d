use crate::grammar::{
    additive, after, equality, lemma_assign_consumes, lemma_level_consumes, lemma_unary_consumes,
    multiplicative, parse_assign, parse_expr, parse_level, parse_primary, parse_program,
    parse_rest, parse_stmt, parse_unary, relational, Parsed, SyntaxError,
};
use crate::node::{Node, NodeKind, Tree};
use crate::utils::{left, lemma_blanks_bound, Consumer};
use vstd::prelude::*;
use vstd::string::*;

verus! {

/// Whether the outcome `r` of a parsing step that moved the cursor by
/// `consumed` characters is what the grammar gives as `p`.
pub open spec fn read_as(r: Result<Node, SyntaxError>, consumed: int, p: Parsed) -> bool {
    match r {
        Ok(node) => consumed >= 0 && p == Ok::<(Tree, nat), SyntaxError>(
            (node@, consumed as nat),
        ),
        Err(e) => p == Err::<(Tree, nat), SyntaxError>(e),
    }
}

/// The trees of a sequence of nodes.
pub open spec fn trees(nodes: Seq<Node>) -> Seq<Tree> {
    nodes.map_values(|node: Node| node@)
}

/// The trees `done`, followed by those of `r`.
pub open spec fn followed_by(done: Seq<Tree>, r: Result<Seq<Tree>, SyntaxError>) -> Result<
    Seq<Tree>,
    SyntaxError,
> {
    match r {
        Ok(more) => Ok(done + more),
        Err(e) => Err(e),
    }
}

/// A recursive-descent parser over a source text.
pub struct Input {
    input: Consumer,
}

impl Input {
    /// The text that is parsed.
    pub closed spec fn source(&self) -> Seq<char> {
        self.input.input()
    }

    /// How many characters of the text have been read.
    pub closed spec fn position(&self) -> nat {
        self.input.position()
    }

    /// A parser at the start of `input`.
    pub fn new(input: &str) -> (r: Self)
        ensures
            r.source() == input@,
            r.position() == 0,
    {
        let consumer = Consumer::new(input);
        Self { input: consumer }
    }

    /// Parses what is left of the text as a program and gives the trees of
    /// its statements in order, or the first syntax error.
    pub fn tokenize(&mut self) -> (r: Result<Vec<Node>, SyntaxError>)
        ensures
            final(self).source() == old(self).source(),
            match r {
                Ok(nodes) => parse_program(old(self).source(), old(self).position()) == Ok::<
                    Seq<Tree>,
                    SyntaxError,
                >(trees(nodes@)) && final(self).position() == old(self).source().len(),
                Err(e) => parse_program(old(self).source(), old(self).position()) == Err::<
                    Seq<Tree>,
                    SyntaxError,
                >(e),
            },
    {
        self.program()
    }

    // program = stmt*
    fn program(&mut self) -> (r: Result<Vec<Node>, SyntaxError>)
        ensures
            final(self).source() == old(self).source(),
            match r {
                Ok(nodes) => parse_program(old(self).source(), old(self).position()) == Ok::<
                    Seq<Tree>,
                    SyntaxError,
                >(trees(nodes@)) && final(self).position() == old(self).source().len(),
                Err(e) => parse_program(old(self).source(), old(self).position()) == Err::<
                    Seq<Tree>,
                    SyntaxError,
                >(e),
            },
    {
        let ghost src = self.source();
        let ghost goal = parse_program(src, self.position());
        let mut program: Vec<Node> = Vec::new();
        assert(trees(program@) + Seq::<Tree>::empty() == Seq::<Tree>::empty());
        loop
            invariant
                self.source() == src,
                src == old(self).source(),
                goal == parse_program(src, old(self).position()),
                goal == followed_by(trees(program@), parse_program(src, self.position())),
            decreases left(src, self.position()),
        {
            self.input.skip_space();
            match self.input.peek_char() {
                None => {
                    assert(trees(program@) + Seq::<Tree>::empty() == trees(program@));
                    return Ok(program);
                },
                Some(_) => {},
            }
            let ghost q = self.position();
            proof {
                lemma_assign_consumes(src, q);
            }
            match self.stmt() {
                Ok(stmt) => {
                    let ghost done = trees(program@);
                    let ghost tree = stmt@;
                    program.push(stmt);
                    proof {
                        assert(trees(program@) == done + seq![tree]);
                        let more = parse_program(src, self.position());
                        if let Ok(rest) = more {
                            assert(done + (seq![tree] + rest) == (done + seq![tree]) + rest);
                        }
                    }
                },
                Err(e) => {
                    return Err(e);
                },
            }
        }
    }

    // stmt = expr ";"?
    fn stmt(&mut self) -> (r: Result<Node, SyntaxError>)
        ensures
            final(self).source() == old(self).source(),
            read_as(
                r,
                final(self).position() - old(self).position(),
                parse_stmt(old(self).source(), old(self).position()),
            ),
    {
        let expr = match self.expr() {
            Ok(node) => node,
            Err(e) => {
                return Err(e);
            },
        };
        self.input.skip_space();
        match self.input.peek_char() {
            Some(c) => {
                if c == ';' {
                    self.input.next_char();
                    Ok(expr)
                } else {
                    Err(SyntaxError::ExpectedSemicolon(c))
                }
            },
            None => Ok(expr),
        }
    }

    // expr = assign
    fn expr(&mut self) -> (r: Result<Node, SyntaxError>)
        ensures
            final(self).source() == old(self).source(),
            read_as(
                r,
                final(self).position() - old(self).position(),
                parse_expr(old(self).source(), old(self).position()),
            ),
        decreases left(old(self).source(), old(self).position()), 11nat,
    {
        self.assign()
    }

    // assign = equality ("=" assign)?
    fn assign(&mut self) -> (r: Result<Node, SyntaxError>)
        ensures
            final(self).source() == old(self).source(),
            read_as(
                r,
                final(self).position() - old(self).position(),
                parse_assign(old(self).source(), old(self).position()),
            ),
        decreases left(old(self).source(), old(self).position()), 10nat,
    {
        let node = match self.equality() {
            Ok(node) => node,
            Err(e) => {
                return Err(e);
            },
        };
        proof {
            lemma_level_consumes(old(self).source(), old(self).position(), equality());
        }
        self.input.skip_space();
        match self.input.peek_char() {
            Some(c) => {
                if c == '=' {
                    self.input.next_char();
                    match self.assign() {
                        Ok(value) => Ok(
                            Node::new(
                                NodeKind::Op(String::from_str("=")),
                                Node::link(node),
                                Node::link(value),
                            ),
                        ),
                        Err(e) => Err(e),
                    }
                } else {
                    Ok(node)
                }
            },
            None => Ok(node),
        }
    }

    // equality = relational ("==" relational | "!=" relational)*
    fn equality(&mut self) -> (r: Result<Node, SyntaxError>)
        ensures
            final(self).source() == old(self).source(),
            read_as(
                r,
                final(self).position() - old(self).position(),
                parse_level(old(self).source(), old(self).position(), equality()),
            ),
        decreases left(old(self).source(), old(self).position()), 9nat,
    {
        let ghost src = self.source();
        let ghost start = self.position();
        let mut node = match self.relational() {
            Ok(node) => node,
            Err(e) => {
                return Err(e);
            },
        };
        proof {
            lemma_level_consumes(src, start, relational());
        }
        loop
            invariant
                self.source() == src,
                src == old(self).source(),
                start == old(self).position(),
                start < self.position() <= src.len(),
                parse_level(src, start, equality()) == after(
                    (self.position() - start) as nat,
                    parse_rest(src, self.position(), node@, equality()),
                ),
            decreases left(src, self.position()),
        {
            proof {
                lemma_blanks_bound(src, self.position());
            }
            self.input.skip_space();
            let ghost q = self.position();
            match self.peek_pair() {
                Some((first, second)) => {
                    if first == '=' && second == '=' {
                        self.input.next_char();
                        self.input.next_char();
                        proof {
                            lemma_level_consumes(src, q + 2, relational());
                        }
                        match self.relational() {
                            Ok(rhs) => {
                                node =
                                Node::new(
                                    NodeKind::Op(String::from_str("==")),
                                    Node::link(node),
                                    Node::link(rhs),
                                );
                            },
                            Err(e) => {
                                return Err(e);
                            },
                        }
                    } else if first == '!' && second == '=' {
                        self.input.next_char();
                        self.input.next_char();
                        proof {
                            lemma_level_consumes(src, q + 2, relational());
                        }
                        match self.relational() {
                            Ok(rhs) => {
                                node =
                                Node::new(
                                    NodeKind::Op(String::from_str("!=")),
                                    Node::link(node),
                                    Node::link(rhs),
                                );
                            },
                            Err(e) => {
                                return Err(e);
                            },
                        }
                    } else {
                        return Ok(node);
                    }
                },
                None => {
                    return Ok(node);
                },
            }
        }
    }

    // relational = add ("<" add | "<=" add | ">" add | ">=" add)*
    fn relational(&mut self) -> (r: Result<Node, SyntaxError>)
        ensures
            final(self).source() == old(self).source(),
            read_as(
                r,
                final(self).position() - old(self).position(),
                parse_level(old(self).source(), old(self).position(), relational()),
            ),
        decreases left(old(self).source(), old(self).position()), 7nat,
    {
        let ghost src = self.source();
        let ghost start = self.position();
        let mut node = match self.add() {
            Ok(node) => node,
            Err(e) => {
                return Err(e);
            },
        };
        proof {
            lemma_level_consumes(src, start, additive());
        }
        loop
            invariant
                self.source() == src,
                src == old(self).source(),
                start == old(self).position(),
                start < self.position() <= src.len(),
                parse_level(src, start, relational()) == after(
                    (self.position() - start) as nat,
                    parse_rest(src, self.position(), node@, relational()),
                ),
            decreases left(src, self.position()),
        {
            proof {
                lemma_blanks_bound(src, self.position());
            }
            self.input.skip_space();
            let ghost q = self.position();
            match self.input.peek_char() {
                Some(c) => {
                    if c == '<' {
                        self.input.next_char();
                        let or_equal = self.accept_equal();
                        proof {
                            lemma_level_consumes(src, self.position(), additive());
                        }
                        match self.add() {
                            Ok(rhs) => {
                                let symbol = if or_equal {
                                    String::from_str("<=")
                                } else {
                                    String::from_str("<")
                                };
                                node =
                                Node::new(NodeKind::Op(symbol), Node::link(node), Node::link(rhs));
                            },
                            Err(e) => {
                                return Err(e);
                            },
                        }
                    } else if c == '>' {
                        self.input.next_char();
                        let or_equal = self.accept_equal();
                        proof {
                            lemma_level_consumes(src, self.position(), additive());
                        }
                        // A > B is B < A
                        match self.add() {
                            Ok(lhs) => {
                                let symbol = if or_equal {
                                    String::from_str("<=")
                                } else {
                                    String::from_str("<")
                                };
                                node =
                                Node::new(NodeKind::Op(symbol), Node::link(lhs), Node::link(node));
                            },
                            Err(e) => {
                                return Err(e);
                            },
                        }
                    } else {
                        return Ok(node);
                    }
                },
                None => {
                    return Ok(node);
                },
            }
        }
    }

    // add = mul ("+" mul | "-" mul)*
    fn add(&mut self) -> (r: Result<Node, SyntaxError>)
        ensures
            final(self).source() == old(self).source(),
            read_as(
                r,
                final(self).position() - old(self).position(),
                parse_level(old(self).source(), old(self).position(), additive()),
            ),
        decreases left(old(self).source(), old(self).position()), 5nat,
    {
        let ghost src = self.source();
        let ghost start = self.position();
        let mut node = match self.mul() {
            Ok(node) => node,
            Err(e) => {
                return Err(e);
            },
        };
        proof {
            lemma_level_consumes(src, start, multiplicative());
        }
        loop
            invariant
                self.source() == src,
                src == old(self).source(),
                start == old(self).position(),
                start < self.position() <= src.len(),
                parse_level(src, start, additive()) == after(
                    (self.position() - start) as nat,
                    parse_rest(src, self.position(), node@, additive()),
                ),
            decreases left(src, self.position()),
        {
            proof {
                lemma_blanks_bound(src, self.position());
            }
            self.input.skip_space();
            let ghost q = self.position();
            match self.input.peek_char() {
                Some(c) => {
                    if c == '+' || c == '-' {
                        self.input.next_char();
                        proof {
                            lemma_level_consumes(src, q + 1, multiplicative());
                        }
                        match self.mul() {
                            Ok(rhs) => {
                                let symbol = if c == '+' {
                                    String::from_str("+")
                                } else {
                                    String::from_str("-")
                                };
                                node =
                                Node::new(NodeKind::Op(symbol), Node::link(node), Node::link(rhs));
                            },
                            Err(e) => {
                                return Err(e);
                            },
                        }
                    } else {
                        return Ok(node);
                    }
                },
                None => {
                    return Ok(node);
                },
            }
        }
    }

    // mul = unary ("*" unary | "/" unary)*
    fn mul(&mut self) -> (r: Result<Node, SyntaxError>)
        ensures
            final(self).source() == old(self).source(),
            read_as(
                r,
                final(self).position() - old(self).position(),
                parse_level(old(self).source(), old(self).position(), multiplicative()),
            ),
        decreases left(old(self).source(), old(self).position()), 3nat,
    {
        let ghost src = self.source();
        let ghost start = self.position();
        let mut node = match self.unary() {
            Ok(node) => node,
            Err(e) => {
                return Err(e);
            },
        };
        proof {
            lemma_unary_consumes(src, start);
        }
        loop
            invariant
                self.source() == src,
                src == old(self).source(),
                start == old(self).position(),
                start < self.position() <= src.len(),
                parse_level(src, start, multiplicative()) == after(
                    (self.position() - start) as nat,
                    parse_rest(src, self.position(), node@, multiplicative()),
                ),
            decreases left(src, self.position()),
        {
            proof {
                lemma_blanks_bound(src, self.position());
            }
            self.input.skip_space();
            let ghost q = self.position();
            match self.input.peek_char() {
                Some(c) => {
                    if c == '*' || c == '/' {
                        self.input.next_char();
                        proof {
                            lemma_unary_consumes(src, q + 1);
                        }
                        match self.unary() {
                            Ok(rhs) => {
                                let symbol = if c == '*' {
                                    String::from_str("*")
                                } else {
                                    String::from_str("/")
                                };
                                node =
                                Node::new(NodeKind::Op(symbol), Node::link(node), Node::link(rhs));
                            },
                            Err(e) => {
                                return Err(e);
                            },
                        }
                    } else {
                        return Ok(node);
                    }
                },
                None => {
                    return Ok(node);
                },
            }
        }
    }

    // unary = ("+" | "-")? primary
    fn unary(&mut self) -> (r: Result<Node, SyntaxError>)
        ensures
            final(self).source() == old(self).source(),
            read_as(
                r,
                final(self).position() - old(self).position(),
                parse_unary(old(self).source(), old(self).position()),
            ),
        decreases left(old(self).source(), old(self).position()), 1nat,
    {
        proof {
            lemma_blanks_bound(self.source(), self.position());
        }
        self.input.skip_space();
        match self.input.peek_char() {
            Some(c) => {
                if c == '+' {
                    self.input.next_char();
                    self.primary()
                } else if c == '-' {
                    self.input.next_char();
                    // -x is 0 - x
                    match self.primary() {
                        Ok(operand) => Ok(
                            Node::new(
                                NodeKind::Op(String::from_str("-")),
                                Node::link(Node::new(NodeKind::Num(0), None, None)),
                                Node::link(operand),
                            ),
                        ),
                        Err(e) => Err(e),
                    }
                } else {
                    self.primary()
                }
            },
            None => Err(SyntaxError::MissingOperand),
        }
    }

    // primary = num | ident | "(" expr ")"
    fn primary(&mut self) -> (r: Result<Node, SyntaxError>)
        ensures
            final(self).source() == old(self).source(),
            read_as(
                r,
                final(self).position() - old(self).position(),
                parse_primary(old(self).source(), old(self).position()),
            ),
        decreases left(old(self).source(), old(self).position()), 0nat,
    {
        proof {
            lemma_blanks_bound(self.source(), self.position());
        }
        self.input.skip_space();
        match self.input.peek_char() {
            Some(c) => {
                if '0' <= c && c <= '9' {
                    let num = self.input.to_usize().unwrap();
                    Ok(Node::new(NodeKind::Num(num), None, None))
                } else if c == '(' {
                    self.input.next_char();
                    let node = match self.expr() {
                        Ok(node) => node,
                        Err(e) => {
                            return Err(e);
                        },
                    };
                    self.input.skip_space();
                    match self.input.peek_char() {
                        Some(d) => {
                            if d == ')' {
                                self.input.next_char();
                                Ok(node)
                            } else {
                                Err(SyntaxError::ExpectedCloseParen(d))
                            }
                        },
                        None => Err(SyntaxError::UnclosedParen),
                    }
                } else if c.is_numeric() {
                    // a number that is not written in decimal digits
                    Err(SyntaxError::InvalidElement(c))
                } else if c.is_alphabetic() {
                    self.input.next_char();
                    let mut ident = String::new();
                    ident.push(c);
                    Ok(Node::new(NodeKind::LVar(ident), None, None))
                } else {
                    Err(SyntaxError::InvalidElement(c))
                }
            },
            None => Err(SyntaxError::MissingOperand),
        }
    }

    /// Reads a `=` where one is next.
    fn accept_equal(&mut self) -> (found: bool)
        ensures
            final(self).source() == old(self).source(),
            found == (old(self).position() < old(self).source().len() && old(self).source()[old(
                self,
            ).position() as int] == '='),
            final(self).position() == old(self).position() + (if found {
                1nat
            } else {
                0nat
            }),
    {
        match self.input.peek_char() {
            Some(c) => {
                if c == '=' {
                    self.input.next_char();
                    true
                } else {
                    false
                }
            },
            None => false,
        }
    }

    /// The next two characters, where there are two.
    fn peek_pair(&self) -> (r: Option<(char, char)>)
        ensures
            r == if self.position() + 1 < self.source().len() {
                Some(
                    (
                        self.source()[self.position() as int],
                        self.source()[self.position() + 1 as int],
                    ),
                )
            } else {
                None
            },
    {
        match self.input.peek_n(2) {
            Some(s) => {
                let pair = s.as_str();
                Some((pair.get_char(0), pair.get_char(1)))
            },
            None => None,
        }
    }
}

} // verus!
