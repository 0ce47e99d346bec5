//! The operator table: a fixed, ordered registry mapping operator lexemes to
//! semantic operator kinds and binding precedence. Lookup is by exact lexeme
//! match, longest lexeme first, so that a two-character lexeme such as `<=`
//! is recognized before its one-character prefix `<`. The table is read-only:
//! nothing mutates it after construction.
use vstd::prelude::*;
use vstd::string::StringExecFns;
use crate::ast::{Binary, Unary};

verus! {

/// A unary operator descriptor: the lexeme and its semantic kind.
#[derive(Debug, PartialEq, Eq)]
pub struct UnaryOperator {
    pub op: String,
    pub un: Unary,
}

/// A binary operator descriptor: the lexeme, its binding precedence (higher
/// binds tighter; multiplicative above additive), and its semantic kind.
#[derive(Debug, PartialEq, Eq)]
pub struct BinaryOperator {
    pub op: String,
    pub precedence: i32,
    pub bin: Binary,
}

/// Model of a binary operator descriptor.
pub struct BinaryOperatorV {
    pub op: Seq<char>,
    pub precedence: int,
    pub bin: Binary,
}

/// Model of a unary operator descriptor.
pub struct UnaryOperatorV {
    pub op: Seq<char>,
    pub un: Unary,
}

impl DeepView for BinaryOperator {
    type V = BinaryOperatorV;

    open spec fn deep_view(&self) -> BinaryOperatorV {
        BinaryOperatorV { op: self.op@, precedence: self.precedence as int, bin: self.bin }
    }
}

impl DeepView for UnaryOperator {
    type V = UnaryOperatorV;

    open spec fn deep_view(&self) -> UnaryOperatorV {
        UnaryOperatorV { op: self.op@, un: self.un }
    }
}

impl Clone for UnaryOperator {
    fn clone(&self) -> (r: Self)
        ensures
            r == *self,
    {
        UnaryOperator { op: self.op.clone(), un: self.un }
    }
}

impl Clone for BinaryOperator {
    fn clone(&self) -> (r: Self)
        ensures
            r == *self,
    {
        BinaryOperator { op: self.op.clone(), precedence: self.precedence, bin: self.bin }
    }
}

/// The fixed binary operator table, longest lexeme first.
pub open spec fn spec_binary_table() -> Seq<BinaryOperatorV> {
    seq![
        (BinaryOperatorV { op: "||"@, precedence: 1, bin: Binary::Or }),
        (BinaryOperatorV { op: "&&"@, precedence: 2, bin: Binary::And }),
        (BinaryOperatorV { op: "<="@, precedence: 5, bin: Binary::LessThanOrEqual }),
        (BinaryOperatorV { op: ">="@, precedence: 5, bin: Binary::GreaterThanOrEqual }),
        (BinaryOperatorV { op: "=="@, precedence: 5, bin: Binary::Equal }),
        (BinaryOperatorV { op: "!="@, precedence: 5, bin: Binary::NotEqual }),
        (BinaryOperatorV { op: "<"@, precedence: 5, bin: Binary::LessThan }),
        (BinaryOperatorV { op: ">"@, precedence: 5, bin: Binary::GreaterThan }),
        (BinaryOperatorV { op: "+"@, precedence: 10, bin: Binary::Add }),
        (BinaryOperatorV { op: "-"@, precedence: 10, bin: Binary::Subtract }),
        (BinaryOperatorV { op: "*"@, precedence: 20, bin: Binary::Multiply }),
        (BinaryOperatorV { op: "/"@, precedence: 20, bin: Binary::Divide }),
        (BinaryOperatorV { op: "%"@, precedence: 20, bin: Binary::Modulo }),
    ]
}

/// Every lexeme of the table is nonempty.
pub proof fn lemma_binary_table_lexemes()
    ensures
        forall|k: int| 0 <= k < spec_binary_table().len() ==> (#[trigger] spec_binary_table()[k].op.len()) >= 1,
{
    reveal_strlit("||");
    reveal_strlit("&&");
    reveal_strlit("<=");
    reveal_strlit(">=");
    reveal_strlit("==");
    reveal_strlit("!=");
    reveal_strlit("<");
    reveal_strlit(">");
    reveal_strlit("+");
    reveal_strlit("-");
    reveal_strlit("*");
    reveal_strlit("/");
    reveal_strlit("%");
}

/// Whether the text `lex` occurs in `s` exactly at position `i`.
pub open spec fn spec_match_at(s: Seq<char>, i: nat, lex: Seq<char>) -> bool {
    i + lex.len() <= s.len() && s.subrange(i as int, (i + lex.len()) as int) == lex
}

/// The first table entry, from index `k` on, whose lexeme occurs at
/// position `i`. Because the table is ordered longest lexeme first, this is
/// the longest-lexeme match.
pub open spec fn spec_match_from(s: Seq<char>, i: nat, k: nat) -> Option<BinaryOperatorV>
    decreases spec_binary_table().len() - k,
{
    if k < spec_binary_table().len() {
        if spec_match_at(s, i, spec_binary_table()[k as int].op) {
            Some(spec_binary_table()[k as int])
        } else {
            spec_match_from(s, i, k + 1)
        }
    } else {
        None
    }
}

/// The operator descriptor the table yields at position `i`, if any.
pub open spec fn spec_match_op(s: Seq<char>, i: nat) -> Option<BinaryOperatorV> {
    spec_match_from(s, i, 0)
}

/// Builds the binary operator table. Higher precedence binds tighter:
/// multiplicative operators bind above additive ones, additive above
/// comparisons, comparisons above `&&`, and `&&` above `||`.
pub fn binary_operators() -> (r: Vec<BinaryOperator>)
    ensures
        r.deep_view() == spec_binary_table(),
{
    let mut r: Vec<BinaryOperator> = Vec::new();
    r.push(BinaryOperator { op: String::from_str("||"), precedence: 1, bin: Binary::Or });
    r.push(BinaryOperator { op: String::from_str("&&"), precedence: 2, bin: Binary::And });
    r.push(BinaryOperator { op: String::from_str("<="), precedence: 5, bin: Binary::LessThanOrEqual });
    r.push(BinaryOperator { op: String::from_str(">="), precedence: 5, bin: Binary::GreaterThanOrEqual });
    r.push(BinaryOperator { op: String::from_str("=="), precedence: 5, bin: Binary::Equal });
    r.push(BinaryOperator { op: String::from_str("!="), precedence: 5, bin: Binary::NotEqual });
    r.push(BinaryOperator { op: String::from_str("<"), precedence: 5, bin: Binary::LessThan });
    r.push(BinaryOperator { op: String::from_str(">"), precedence: 5, bin: Binary::GreaterThan });
    r.push(BinaryOperator { op: String::from_str("+"), precedence: 10, bin: Binary::Add });
    r.push(BinaryOperator { op: String::from_str("-"), precedence: 10, bin: Binary::Subtract });
    r.push(BinaryOperator { op: String::from_str("*"), precedence: 20, bin: Binary::Multiply });
    r.push(BinaryOperator { op: String::from_str("/"), precedence: 20, bin: Binary::Divide });
    r.push(BinaryOperator { op: String::from_str("%"), precedence: 20, bin: Binary::Modulo });
    proof {
        assert(r.deep_view() =~= spec_binary_table());
    }
    r
}

} // verus!
