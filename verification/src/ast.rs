//! The abstract syntax tree: the closed set of syntax node kinds produced by
//! the parser, together with its mathematical model (`NodeV`), which contracts
//! and proofs speak about.
use vstd::prelude::*;

verus! {

broadcast use
    vstd::std_specs::vec::axiom_vec_decreases_to_view,
    vstd::seq::axiom_seq_index_decreases,
    vstd::seq::axiom_seq_subrange_decreases;

/// The semantic kinds of binary operators.
#[derive(Clone, Copy, Debug, PartialEq, Eq, Structural)]
pub enum Binary {
    Or,
    And,
    LessThan,
    GreaterThan,
    LessThanOrEqual,
    GreaterThanOrEqual,
    Equal,
    NotEqual,
    Add,
    Subtract,
    Multiply,
    Divide,
    Modulo,
}

/// The semantic kinds of unary operators.
#[derive(Clone, Copy, Debug, PartialEq, Eq, Structural)]
pub enum Unary {
    Not,
    Negate,
}

/// A syntax tree node. Every non-leaf node exclusively owns its children:
/// the tree is finite, with no sharing and no cycles.
#[derive(Debug, PartialEq)]
pub enum Node {
    IntegerLiteral(i32),
    StringLiteral(String),
    BooleanLiteral(bool),
    Variable(String),
    Block(Vec<Node>),
    If { condition: Box<Node>, then_branch: Box<Node>, else_branch: Option<Box<Node>> },
    Call { name: String, args: Vec<Node> },
    Return { value: Box<Node> },
    BinaryExpr { op: Binary, left: Box<Node>, right: Box<Node> },
    UnaryExpr { op: Unary, operand: Box<Node> },
}

/// The mathematical model of a syntax tree: the same shape as `Node`, with
/// text as `Seq<char>`, integers unbounded, and children as `Seq`/`Box`.
#[verifier::ext_equal]
pub enum NodeV {
    IntegerLiteral(int),
    StringLiteral(Seq<char>),
    BooleanLiteral(bool),
    Variable(Seq<char>),
    Block(Seq<NodeV>),
    If { condition: Box<NodeV>, then_branch: Box<NodeV>, else_branch: Option<Box<NodeV>> },
    Call { name: Seq<char>, args: Seq<NodeV> },
    Return { value: Box<NodeV> },
    BinaryExpr { op: Binary, left: Box<NodeV>, right: Box<NodeV> },
    UnaryExpr { op: Unary, operand: Box<NodeV> },
}

impl DeepView for Node {
    type V = NodeV;

    open spec fn deep_view(&self) -> NodeV
        decreases self, 0nat,
    {
        match self {
            Node::IntegerLiteral(n) => NodeV::IntegerLiteral(*n as int),
            Node::StringLiteral(s) => NodeV::StringLiteral(s@),
            Node::BooleanLiteral(b) => NodeV::BooleanLiteral(*b),
            Node::Variable(name) => NodeV::Variable(name@),
            Node::Block(stmts) => NodeV::Block(node_seq_view(stmts@)),
            Node::If { condition, then_branch, else_branch } => NodeV::If {
                condition: Box::new((**condition).deep_view()),
                then_branch: Box::new((**then_branch).deep_view()),
                else_branch: match else_branch {
                    Option::Some(e) => Option::Some(Box::new((**e).deep_view())),
                    Option::None => Option::None,
                },
            },
            Node::Call { name, args } => NodeV::Call { name: name@, args: node_seq_view(args@) },
            Node::Return { value } => NodeV::Return { value: Box::new((**value).deep_view()) },
            Node::BinaryExpr { op, left, right } => NodeV::BinaryExpr {
                op: *op,
                left: Box::new((**left).deep_view()),
                right: Box::new((**right).deep_view()),
            },
            Node::UnaryExpr { op, operand } => NodeV::UnaryExpr {
                op: *op,
                operand: Box::new((**operand).deep_view()),
            },
        }
    }
}

/// The views of a sequence of nodes, in order.
pub open spec fn node_seq_view(s: Seq<Node>) -> Seq<NodeV>
    decreases s, 1nat,
{
    if s.len() == 0 {
        Seq::empty()
    } else {
        seq![s[0].deep_view()] + node_seq_view(s.drop_first())
    }
}

/// `node_seq_view` agrees pointwise with the deep view of each node.
pub proof fn lemma_node_seq_view(s: Seq<Node>)
    ensures
        node_seq_view(s).len() == s.len(),
        forall|k: int| 0 <= k < s.len() ==> node_seq_view(s)[k] == s[k].deep_view(),
    decreases s.len(),
{
    assert(s.len() == 0 ==> node_seq_view(s) == Seq::<NodeV>::empty());
    if s.len() > 0 {
        lemma_node_seq_view(s.drop_first());
        assert(node_seq_view(s) == seq![s[0].deep_view()] + node_seq_view(s.drop_first()));
    }
}

/// The view of a block node is the block of the views of its statements.
pub proof fn lemma_block_view(n: Node)
    ensures
        n matches Node::Block(v) ==> n.deep_view() == NodeV::Block(v.deep_view()),
{
    match n {
        Node::Block(v) => {
            lemma_node_seq_view(v@);
            assert(node_seq_view(v@) =~= v.deep_view());
        },
        _ => {},
    }
}

/// The view of a call node is the call of the views of its arguments.
pub proof fn lemma_call_view(n: Node)
    ensures
        n matches Node::Call { name, args } ==> n.deep_view() == (NodeV::Call {
            name: name@,
            args: args.deep_view(),
        }),
{
    match n {
        Node::Call { name, args } => {
            lemma_node_seq_view(args@);
            assert(node_seq_view(args@) =~= args.deep_view());
        },
        _ => {},
    }
}

} // verus!
