use vstd::prelude::*;

verus! {

/// The mathematical form of a syntax tree.
pub enum Tree {
    /// An unsigned integer literal.
    Num(usize),
    /// An identifier, by its name.
    Var(Seq<char>),
    /// A binary operation: its symbol, its left operand and its right operand.
    Op(Seq<char>, Box<Tree>, Box<Tree>),
}

/// Whether `symbol` is one of the nine operators a tree may hold.
pub open spec fn is_operator(symbol: Seq<char>) -> bool {
    ||| symbol == "+"@
    ||| symbol == "-"@
    ||| symbol == "*"@
    ||| symbol == "/"@
    ||| symbol == "=="@
    ||| symbol == "!="@
    ||| symbol == "<"@
    ||| symbol == "<="@
    ||| symbol == "="@
}

/// What a node is: an operation, a number or an identifier.
#[derive(Debug, PartialEq)]
pub enum NodeKind {
    Op(String),
    Num(usize),
    LVar(String),
}

/// The place of a child: empty, or a node of its own.
pub type Link = Option<Box<Node>>;

/// A node of a binary syntax tree, which owns its children.
///
/// An operation has both children and a symbol out of the nine operators;
/// a number or an identifier has no child.
#[derive(Debug, PartialEq)]
pub struct Node {
    kind: NodeKind,
    lhs: Link,
    rhs: Link,
}

/// Whether a node of kind `kind` may have the children `lhs` and `rhs`.
pub open spec fn fits(kind: NodeKind, lhs: Option<Box<Node>>, rhs: Option<Box<Node>>) -> bool {
    match kind {
        NodeKind::Op(symbol) => is_operator(symbol@) && lhs is Some && rhs is Some,
        NodeKind::Num(_) => lhs is None && rhs is None,
        NodeKind::LVar(_) => lhs is None && rhs is None,
    }
}

impl View for Node {
    type V = Tree;

    /// The tree that the node and its descendants make up.
    closed spec fn view(&self) -> Tree {
        self.tree()
    }
}

impl Node {
    #[verifier::type_invariant]
    spec fn well_formed(&self) -> bool {
        fits(self.kind, self.lhs, self.rhs)
    }

    spec fn tree(&self) -> Tree
        decreases self,
    {
        match self.kind {
            NodeKind::Num(n) => Tree::Num(n),
            NodeKind::LVar(name) => Tree::Var(name@),
            NodeKind::Op(symbol) => Tree::Op(
                symbol@,
                Box::new(
                    match self.lhs {
                        Some(child) => child.tree(),
                        None => Tree::Num(0),
                    },
                ),
                Box::new(
                    match self.rhs {
                        Some(child) => child.tree(),
                        None => Tree::Num(0),
                    },
                ),
            ),
        }
    }

    /// A node of the given kind over the given children.
    pub fn new(kind: NodeKind, lhs: Link, rhs: Link) -> (node: Self)
        requires
            fits(kind, lhs, rhs),
        ensures
            node@ == match kind {
                NodeKind::Num(n) => Tree::Num(n),
                NodeKind::LVar(name) => Tree::Var(name@),
                NodeKind::Op(symbol) => Tree::Op(symbol@, Box::new(lhs->0@), Box::new(rhs->0@)),
            },
    {
        Self { kind, lhs, rhs }
    }

    /// A child slot that holds `node`.
    pub fn link(node: Node) -> (link: Link)
        ensures
            link == Some(Box::new(node)),
    {
        Some(Box::new(node))
    }

    /// The kind of the node.
    pub fn kind(&self) -> (kind: &NodeKind)
        ensures
            match *kind {
                NodeKind::Num(n) => self@ == Tree::Num(n),
                NodeKind::LVar(name) => self@ == Tree::Var(name@),
                NodeKind::Op(symbol) => self@ is Op && self@->Op_0 == symbol@ && is_operator(
                    symbol@,
                ),
            },
    {
        proof {
            use_type_invariant(self);
        }
        &self.kind
    }

    /// The left child: present in an operation and only there.
    pub fn lhs(&self) -> (link: &Link)
        ensures
            match *link {
                Some(child) => self@ is Op && *self@->Op_1 == child@,
                None => !(self@ is Op),
            },
    {
        proof {
            use_type_invariant(self);
        }
        &self.lhs
    }

    /// The right child: present in an operation and only there.
    pub fn rhs(&self) -> (link: &Link)
        ensures
            match *link {
                Some(child) => self@ is Op && *self@->Op_2 == child@,
                None => !(self@ is Op),
            },
    {
        proof {
            use_type_invariant(self);
        }
        &self.rhs
    }
}

} // verus!
