//! The abstract syntax tree that the parser builds and the evaluator walks.

use vstd::prelude::*;

verus! {

/// A declared type: what a variable or a parameter may hold.
#[derive(Debug, Clone, Copy, PartialEq, Eq, Structural)]
pub enum TypeName {
    Int,
    Float,
    Str,
    Bool,
    Void,
}

/// The binary operators, from the loosest binding to the tightest.
#[derive(Debug, Clone, Copy, PartialEq, Eq, Structural)]
pub enum BinaryOperator {
    Or,
    And,
    Equal,
    NotEqual,
    Less,
    Greater,
    LessEqual,
    GreaterEqual,
    Add,
    Subtract,
    Multiply,
    Divide,
    Modulo,
}

/// The prefix operators.
#[derive(Debug, Clone, Copy, PartialEq, Eq, Structural)]
pub enum UnaryOperator {
    Not,
    Negate,
}

/// One parameter of a function: its name and its declared type.
#[derive(Debug, PartialEq, Eq)]
pub struct Param {
    pub name: String,
    pub declared_type: TypeName,
}

/// The mathematical value of a [`Param`].
pub ghost struct ParamView {
    pub name: Seq<char>,
    pub declared_type: TypeName,
}

impl View for Param {
    type V = ParamView;

    open spec fn view(&self) -> ParamView {
        ParamView { name: self.name@, declared_type: self.declared_type }
    }
}

/// A node of the syntax tree: a program, a statement or an expression. A
/// node owns its children.
#[derive(Debug, PartialEq, Eq)]
#[allow(inconsistent_fields)]
pub enum ASTNode {
    Program(Vec<ASTNode>),
    VarDecl { name: String, declared_type: TypeName, initializer: Box<ASTNode> },
    Assign { name: String, value: Box<ASTNode> },
    Print { value: Box<ASTNode> },
    If { condition: Box<ASTNode>, then_block: Box<ASTNode>, else_block: Option<Box<ASTNode>> },
    While { condition: Box<ASTNode>, body: Box<ASTNode> },
    For { init: Box<ASTNode>, condition: Box<ASTNode>, update: Box<ASTNode>, body: Box<ASTNode> },
    FunctionDecl { name: String, params: Vec<Param>, body: Box<ASTNode> },
    Call { name: String, args: Vec<ASTNode> },
    Return { value: Box<ASTNode> },
    Block(Vec<ASTNode>),
    IntLiteral(i64),
    FloatLiteral(String),
    StringLiteral(String),
    BoolLiteral(bool),
    Identifier(String),
    BinaryOp { op: BinaryOperator, left: Box<ASTNode>, right: Box<ASTNode> },
    UnaryOp { op: UnaryOperator, operand: Box<ASTNode> },
}

/// The mathematical value of an [`ASTNode`]: the same tree, with text as
/// sequences of characters and children as sequences of trees.
#[allow(inconsistent_fields)]
pub ghost enum NodeView {
    Program(Seq<NodeView>),
    VarDecl { name: Seq<char>, declared_type: TypeName, initializer: Box<NodeView> },
    Assign { name: Seq<char>, value: Box<NodeView> },
    Print { value: Box<NodeView> },
    If { condition: Box<NodeView>, then_block: Box<NodeView>, else_block: Option<Box<NodeView>> },
    While { condition: Box<NodeView>, body: Box<NodeView> },
    For { init: Box<NodeView>, condition: Box<NodeView>, update: Box<NodeView>, body: Box<NodeView> },
    FunctionDecl { name: Seq<char>, params: Seq<ParamView>, body: Box<NodeView> },
    Call { name: Seq<char>, args: Seq<NodeView> },
    Return { value: Box<NodeView> },
    Block(Seq<NodeView>),
    IntLiteral(i64),
    FloatLiteral(Seq<char>),
    StringLiteral(Seq<char>),
    BoolLiteral(bool),
    Identifier(Seq<char>),
    BinaryOp { op: BinaryOperator, left: Box<NodeView>, right: Box<NodeView> },
    UnaryOp { op: UnaryOperator, operand: Box<NodeView> },
}

/// The values of a sequence of parameters, one by one.
pub open spec fn param_views(params: Seq<Param>) -> Seq<ParamView> {
    Seq::new(params.len(), |i: int| params[i]@)
}

/// The values of a sequence of nodes, one by one.
pub open spec fn node_views(nodes: Seq<ASTNode>) -> Seq<NodeView>
    decreases nodes,
{
    Seq::new(
        nodes.len(),
        |i: int|
            if 0 <= i < nodes.len() {
                node_view(nodes[i])
            } else {
                arbitrary()
            },
    )
}

/// The value of one node.
pub open spec fn node_view(node: ASTNode) -> NodeView
    decreases node,
{
    match node {
        ASTNode::Program(statements) => NodeView::Program(node_views(statements@)),
        ASTNode::VarDecl { name, declared_type, initializer } => NodeView::VarDecl {
            name: name@,
            declared_type: declared_type,
            initializer: Box::new(node_view(*initializer)),
        },
        ASTNode::Assign { name, value } => NodeView::Assign {
            name: name@,
            value: Box::new(node_view(*value)),
        },
        ASTNode::Print { value } => NodeView::Print { value: Box::new(node_view(*value)) },
        ASTNode::If { condition, then_block, else_block } => NodeView::If {
            condition: Box::new(node_view(*condition)),
            then_block: Box::new(node_view(*then_block)),
            else_block: match else_block {
                Some(block) => Some(Box::new(node_view(*block))),
                None => None,
            },
        },
        ASTNode::While { condition, body } => NodeView::While {
            condition: Box::new(node_view(*condition)),
            body: Box::new(node_view(*body)),
        },
        ASTNode::For { init, condition, update, body } => NodeView::For {
            init: Box::new(node_view(*init)),
            condition: Box::new(node_view(*condition)),
            update: Box::new(node_view(*update)),
            body: Box::new(node_view(*body)),
        },
        ASTNode::FunctionDecl { name, params, body } => NodeView::FunctionDecl {
            name: name@,
            params: param_views(params@),
            body: Box::new(node_view(*body)),
        },
        ASTNode::Call { name, args } => NodeView::Call { name: name@, args: node_views(args@) },
        ASTNode::Return { value } => NodeView::Return { value: Box::new(node_view(*value)) },
        ASTNode::Block(statements) => NodeView::Block(node_views(statements@)),
        ASTNode::IntLiteral(i) => NodeView::IntLiteral(i),
        ASTNode::FloatLiteral(text) => NodeView::FloatLiteral(text@),
        ASTNode::StringLiteral(text) => NodeView::StringLiteral(text@),
        ASTNode::BoolLiteral(b) => NodeView::BoolLiteral(b),
        ASTNode::Identifier(name) => NodeView::Identifier(name@),
        ASTNode::BinaryOp { op, left, right } => NodeView::BinaryOp {
            op: op,
            left: Box::new(node_view(*left)),
            right: Box::new(node_view(*right)),
        },
        ASTNode::UnaryOp { op, operand } => NodeView::UnaryOp {
            op: op,
            operand: Box::new(node_view(*operand)),
        },
    }
}

impl View for ASTNode {
    type V = NodeView;

    open spec fn view(&self) -> NodeView {
        node_view(*self)
    }
}

} // verus!
