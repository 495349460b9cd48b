//! The abstract syntax tree the compiler lowers.
//!
//! A node couples a token (which encodes atoms' values, identifiers'
//! names and binary operators) with the node's structural shape.

use vstd::prelude::*;

use crate::lex::Token;

verus! {

/// The structural shape of a syntax node.
pub enum InnerNode {
    /// Inner value is encoded in the node's token.
    Atom,
    Ident,
    /// `lhs <op> rhs`; the operator is encoded in the node's token.
    Bin { lhs: Box<Node>, rhs: Box<Node> },
    /// `[members]`
    Array { members: Vec<Node> },
    /// `{ key: value }`
    Object { pairs: Vec<(Node, Node)> },
    /// `let name = rhs`; the name is encoded in the node's token.
    Let { rhs: Box<Node> },
    /// A function definition; the name is encoded in the node's token.
    Fn { args: Vec<Node>, body: Vec<Node> },
    /// A multi-way conditional: `(condition, body)` cases and a default.
    Match { cases: Vec<(Node, Node)>, default: Option<Box<Node>> },
    /// A call; the callee name is encoded in the node's token.
    Call { args: Vec<Node> },
    /// A namespaced call such as `std::runtime::gc::cycle()`.
    Path { members: Vec<Node>, leaf: Box<Node> },
}

/// One syntax node.
pub struct Node {
    pub token: Token,
    pub inner: InnerNode,
}

} // verus!
