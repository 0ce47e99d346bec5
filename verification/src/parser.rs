//! The parser: consumes the token sequence and produces a single syntax
//! tree root (always a block) by recursive descent, with operator
//! precedence climbing for binary expressions. The specification model
//! (`sp_stmts`, `sp_expr`, `sp_atom`, ...) defines the grammar position by
//! position; each parsing function is verified to return exactly what the
//! model says, and to fail exactly where the model fails.
use vstd::prelude::*;
use vstd::string::{StrSliceExecFns, StringExecFns};
use crate::ast::{lemma_block_view, lemma_call_view, Node, NodeV};
use crate::token::{Token, TokenV};
use crate::tokenizer::is_digit_char;

verus! {

/// Error for a token sequence that violates the grammar: the cursor
/// position, the token found there (nothing at the end of input), and a
/// short description of what was expected.
#[derive(Clone, Debug, PartialEq, Eq)]
pub struct ParseError {
    pub position: usize,
    pub found: Option<Token>,
    pub context: String,
}

/// What a grammar error must carry: the model's failure position, and the
/// token standing there, if any.
pub open spec fn wf_error(e: ParseError, toks: Seq<Token>, p: nat) -> bool {
    e.position == p && p <= toks.len() && e.found == (if p < toks.len() {
        Some(toks[p as int])
    } else {
        None::<Token>
    })
}

/// Whether every character of `s` is a decimal digit.
pub open spec fn all_digits(s: Seq<char>) -> bool {
    forall|k: int| 0 <= k < s.len() ==> is_digit_char(s[k])
}

/// The value of a decimal digit string.
pub open spec fn dec_val(s: Seq<char>) -> int
    decreases s.len(),
{
    if s.len() == 0 {
        0
    } else {
        dec_val(s.drop_last()) * 10 + (s.last() as u32 - 48)
    }
}

pub proof fn lemma_dec_val_nonneg(s: Seq<char>)
    requires
        all_digits(s),
    ensures
        dec_val(s) >= 0,
    decreases s.len(),
{
    if s.len() > 0 {
        assert forall|k: int| 0 <= k < s.drop_last().len() implies is_digit_char(
            #[trigger] s.drop_last()[k],
        ) by {
            assert(s.drop_last()[k] == s[k]);
        }
        lemma_dec_val_nonneg(s.drop_last());
        assert(is_digit_char(s.last()));
    }
}

pub proof fn lemma_dec_val_step(s: Seq<char>, m: int)
    requires
        0 <= m < s.len(),
    ensures
        dec_val(s.subrange(0, m + 1)) == dec_val(s.subrange(0, m)) * 10 + (s[m] as u32 - 48),
{
    assert(s.subrange(0, m + 1).drop_last() =~= s.subrange(0, m));
    assert(s.subrange(0, m + 1).last() == s[m]);
}

/// Extending a digit string never shrinks its value.
pub proof fn lemma_dec_val_grows(s: Seq<char>, m: int)
    requires
        all_digits(s),
        0 <= m <= s.len(),
    ensures
        dec_val(s) >= dec_val(s.subrange(0, m)),
    decreases s.len() - m,
{
    if m == s.len() {
        assert(s.subrange(0, m) =~= s);
    } else {
        lemma_dec_val_step(s, m);
        assert forall|k: int| 0 <= k < s.subrange(0, m).len() implies is_digit_char(
            #[trigger] s.subrange(0, m)[k],
        ) by {
            assert(s.subrange(0, m)[k] == s[k]);
        }
        lemma_dec_val_nonneg(s.subrange(0, m));
        assert(is_digit_char(s[m]));
        lemma_dec_val_grows(s, m + 1);
    }
}

/// Statement list rule: in a braced block a closing brace ends the list; at
/// the end of input an unbraced list ends and a braced one fails; otherwise
/// one statement is parsed and the list continues after it.
pub open spec fn sp_stmts(t: Seq<TokenV>, i: nat, braced: bool) -> Result<(Seq<NodeV>, nat), nat>
    decreases t.len() - i, 8nat,
{
    if braced && i < t.len() && t[i as int] == TokenV::BraCl {
        Result::Ok((Seq::empty(), i + 1))
    } else if i >= t.len() {
        if braced {
            Result::Err(i)
        } else {
            Result::Ok((Seq::empty(), i))
        }
    } else {
        match sp_stmt(t, i) {
            Result::Ok((n, j)) => if i < j && j <= t.len() {
                match sp_stmts(t, j, braced) {
                    Result::Ok((ns, k)) => Result::Ok((seq![n] + ns, k)),
                    Result::Err(p) => Result::Err(p),
                }
            } else {
                Result::Err(j)
            },
            Result::Err(p) => Result::Err(p),
        }
    }
}

/// Statement rule: `return` expression `;`, or an `if` statement, or an
/// expression statement terminated by `;`.
pub open spec fn sp_stmt(t: Seq<TokenV>, i: nat) -> Result<(NodeV, nat), nat>
    decreases t.len() - i, 4nat,
{
    if i >= t.len() {
        Result::Err(i)
    } else if t[i as int] == TokenV::Keyword("return"@) {
        match sp_expr(t, i + 1, 0, false) {
            Result::Ok((v, j)) => if j < t.len() && t[j as int] == TokenV::Semi {
                Result::Ok((NodeV::Return { value: Box::new(v) }, j + 1))
            } else {
                Result::Err(j)
            },
            Result::Err(p) => Result::Err(p),
        }
    } else if t[i as int] == TokenV::Keyword("if"@) {
        sp_if(t, i + 1)
    } else {
        match sp_expr(t, i, 0, false) {
            Result::Ok((e, j)) => if j < t.len() && t[j as int] == TokenV::Semi {
                Result::Ok((e, j + 1))
            } else {
                Result::Err(j)
            },
            Result::Err(p) => Result::Err(p),
        }
    }
}

/// `if` rule, entered after the `if` keyword: a condition expression in
/// which `{` terminates rather than opening a block atom, then a braced
/// body block, then optionally `else` with another braced block.
pub open spec fn sp_if(t: Seq<TokenV>, i: nat) -> Result<(NodeV, nat), nat>
    decreases t.len() - i, 4nat,
{
    match sp_expr(t, i, 0, true) {
        Result::Ok((cond, j)) => if i < j && j <= t.len() {
            if j < t.len() && t[j as int] == TokenV::BraOp {
                match sp_stmts(t, j + 1, true) {
                    Result::Ok((body, k)) => if j < k && k <= t.len() {
                        if k < t.len() && t[k as int] == TokenV::Keyword("else"@) {
                            if k + 1 < t.len() && t[k as int + 1] == TokenV::BraOp {
                                match sp_stmts(t, k + 2, true) {
                                    Result::Ok((eb, m)) => Result::Ok(
                                        (
                                            NodeV::If {
                                                condition: Box::new(cond),
                                                then_branch: Box::new(NodeV::Block(body)),
                                                else_branch: Some(Box::new(NodeV::Block(eb))),
                                            },
                                            m,
                                        ),
                                    ),
                                    Result::Err(p) => Result::Err(p),
                                }
                            } else {
                                Result::Err((k + 1) as nat)
                            }
                        } else {
                            Result::Ok(
                                (
                                    NodeV::If {
                                        condition: Box::new(cond),
                                        then_branch: Box::new(NodeV::Block(body)),
                                        else_branch: None,
                                    },
                                    k,
                                ),
                            )
                        }
                    } else {
                        Result::Err(k)
                    },
                    Result::Err(p) => Result::Err(p),
                }
            } else {
                Result::Err(j)
            }
        } else {
            Result::Err(j)
        },
        Result::Err(p) => Result::Err(p),
    }
}

/// Expression rule: one atom, then precedence climbing over the binary
/// operators that follow.
pub open spec fn sp_expr(t: Seq<TokenV>, i: nat, min_prec: int, no_block: bool) -> Result<
    (NodeV, nat),
    nat,
>
    decreases t.len() - i, 3nat,
{
    match sp_atom(t, i, no_block) {
        Result::Ok((left, j)) => if i < j && j <= t.len() {
            sp_climb(t, left, j, min_prec, no_block)
        } else {
            Result::Err(j)
        },
        Result::Err(p) => Result::Err(p),
    }
}

/// Precedence climbing: while the next token is a binary operator that
/// binds at least as tightly as `min_prec`, parse its right operand with a
/// higher threshold (so operators of equal precedence associate to the
/// left) and fold the pair into one node.
pub open spec fn sp_climb(
    t: Seq<TokenV>,
    left: NodeV,
    j: nat,
    min_prec: int,
    no_block: bool,
) -> Result<(NodeV, nat), nat>
    decreases t.len() - j, 9nat,
{
    if j < t.len() {
        match t[j as int] {
            TokenV::Binary(op) => if op.precedence >= min_prec {
                match sp_expr(t, j + 1, op.precedence + 1, no_block) {
                    Result::Ok((right, k)) => if j + 1 < k && k <= t.len() {
                        sp_climb(
                            t,
                            NodeV::BinaryExpr {
                                op: op.bin,
                                left: Box::new(left),
                                right: Box::new(right),
                            },
                            k,
                            min_prec,
                            no_block,
                        )
                    } else {
                        Result::Err(k)
                    },
                    Result::Err(p) => Result::Err(p),
                }
            } else {
                Result::Ok((left, j))
            },
            _ => Result::Ok((left, j)),
        }
    } else {
        Result::Ok((left, j))
    }
}

/// Atom rule: an integer, string or boolean literal, an identifier (a call
/// when `(` follows immediately, else a variable), a parenthesized
/// expression, or a braced block where blocks are allowed.
pub open spec fn sp_atom(t: Seq<TokenV>, i: nat, no_block: bool) -> Result<(NodeV, nat), nat>
    decreases t.len() - i, 1nat,
{
    if i >= t.len() {
        Result::Err(i)
    } else {
        match t[i as int] {
            TokenV::IntLiteral(txt) => if txt.len() > 0 && all_digits(txt) && dec_val(txt)
                <= i32::MAX as int {
                Result::Ok((NodeV::IntegerLiteral(dec_val(txt)), i + 1))
            } else {
                Result::Err(i)
            },
            TokenV::StrLiteral(txt) => Result::Ok((NodeV::StringLiteral(txt), i + 1)),
            TokenV::Keyword(w) => if w == "true"@ {
                Result::Ok((NodeV::BooleanLiteral(true), i + 1))
            } else if w == "false"@ {
                Result::Ok((NodeV::BooleanLiteral(false), i + 1))
            } else {
                Result::Err(i)
            },
            TokenV::Identifier(name) => if i + 1 < t.len() && t[i as int + 1] == TokenV::ParOp {
                match sp_args(t, i + 2) {
                    Result::Ok((args, j)) => Result::Ok((NodeV::Call { name, args }, j)),
                    Result::Err(p) => Result::Err(p),
                }
            } else {
                Result::Ok((NodeV::Variable(name), i + 1))
            },
            TokenV::ParOp => match sp_expr(t, i + 1, 0, false) {
                Result::Ok((e, j)) => if j < t.len() && t[j as int] == TokenV::ParCl {
                    Result::Ok((e, j + 1))
                } else {
                    Result::Err(j)
                },
                Result::Err(p) => Result::Err(p),
            },
            TokenV::BraOp => if no_block {
                Result::Err(i)
            } else {
                match sp_stmts(t, i + 1, true) {
                    Result::Ok((ns, j)) => Result::Ok((NodeV::Block(ns), j)),
                    Result::Err(p) => Result::Err(p),
                }
            },
            _ => Result::Err(i),
        }
    }
}

/// Argument list rule, entered after `(`: empty when `)` follows at once,
/// else one or more expressions separated by commas, closed by `)`.
pub open spec fn sp_args(t: Seq<TokenV>, i: nat) -> Result<(Seq<NodeV>, nat), nat>
    decreases t.len() - i, 7nat,
{
    if i < t.len() && t[i as int] == TokenV::ParCl {
        Result::Ok((Seq::empty(), i + 1))
    } else {
        sp_args1(t, i)
    }
}

/// A nonempty argument list: an expression, then either `)` closing the
/// list or `,` and further arguments.
pub open spec fn sp_args1(t: Seq<TokenV>, i: nat) -> Result<(Seq<NodeV>, nat), nat>
    decreases t.len() - i, 6nat,
{
    match sp_expr(t, i, 0, false) {
        Result::Ok((e, j)) => if i < j && j <= t.len() {
            if j < t.len() && t[j as int] == TokenV::ParCl {
                Result::Ok((seq![e], j + 1))
            } else if j < t.len() && t[j as int] == TokenV::Comma {
                match sp_args1(t, j + 1) {
                    Result::Ok((es, k)) => Result::Ok((seq![e] + es, k)),
                    Result::Err(p) => Result::Err(p),
                }
            } else {
                Result::Err(j)
            }
        } else {
            Result::Err(j)
        },
        Result::Err(p) => Result::Err(p),
    }
}

/// What parsing a whole token sequence yields: the root is always a block
/// holding the top-level statements.
pub open spec fn sp_parse(t: Seq<TokenV>) -> Result<NodeV, nat> {
    match sp_stmts(t, 0, false) {
        Result::Ok((ns, j)) => Result::Ok(NodeV::Block(ns)),
        Result::Err(p) => Result::Err(p),
    }
}

/// Prepends one parsed node to the result of parsing the remaining
/// statements or arguments.
pub open spec fn sp_cons(n: NodeV, rest: Result<(Seq<NodeV>, nat), nat>) -> Result<
    (Seq<NodeV>, nat),
    nat,
> {
    match rest {
        Result::Ok((ns, k)) => Result::Ok((seq![n] + ns, k)),
        Result::Err(p) => Result::Err(p),
    }
}

/// Prepends already parsed nodes to the result of parsing the rest.
pub open spec fn sp_prepend(ns: Seq<NodeV>, rest: Result<(Seq<NodeV>, nat), nat>) -> Result<
    (Seq<NodeV>, nat),
    nat,
> {
    match rest {
        Result::Ok((ms, k)) => Result::Ok((ns + ms, k)),
        Result::Err(p) => Result::Err(p),
    }
}

pub proof fn lemma_sp_prepend_empty(rest: Result<(Seq<NodeV>, nat), nat>)
    ensures
        sp_prepend(Seq::empty(), rest) == rest,
{
    match rest {
        Result::Ok((ms, k)) => {
            assert(Seq::<NodeV>::empty() + ms =~= ms);
        },
        Result::Err(_) => {},
    }
}

pub proof fn lemma_sp_prepend_push(ns: Seq<NodeV>, n: NodeV, rest: Result<(Seq<NodeV>, nat), nat>)
    ensures
        sp_prepend(ns, sp_cons(n, rest)) == sp_prepend(ns.push(n), rest),
{
    match rest {
        Result::Ok((ms, k)) => {
            assert(ns + (seq![n] + ms) =~= ns.push(n) + ms);
        },
        Result::Err(_) => {},
    }
}

/// Whether the String equals the given literal text.
fn string_eq_lit(w: &String, lit: &str) -> (r: bool)
    ensures
        r == (w@ == lit@),
{
    w.eq(&String::from_str(lit))
}

/// Whether the token at `i` is the given keyword.
fn keyword_at(toks: &Vec<Token>, i: usize, lit: &str) -> (r: bool)
    requires
        i < toks@.len(),
    ensures
        r == (toks.deep_view()[i as int] == TokenV::Keyword(lit@)),
{
    match &toks[i] {
        Token::Keyword(w) => string_eq_lit(w, lit),
        _ => false,
    }
}

/// Builds the grammar error for position `pos`.
fn parse_error_at(toks: &Vec<Token>, pos: usize, what: &str) -> (e: ParseError)
    requires
        pos <= toks@.len(),
    ensures
        wf_error(e, toks@, pos as nat),
{
    let found = if pos < toks.len() {
        Some(toks[pos].clone())
    } else {
        None
    };
    ParseError { position: pos, found, context: what.to_owned() }
}

/// Turns a decimal digit string into an `i32`: the payload must be
/// nonempty, all digits, and within range.
fn parse_int_literal(txt: &String) -> (r: Option<i32>)
    ensures
        match r {
            Some(v) => txt@.len() > 0 && all_digits(txt@) && dec_val(txt@) == v as int,
            None => !(txt@.len() > 0 && all_digits(txt@) && dec_val(txt@) <= i32::MAX as int),
        },
{
    let n: usize = txt.as_str().unicode_len();
    if n == 0 {
        return None;
    }
    let mut acc: i32 = 0;
    for k in 0..n
        invariant
            n == txt@.len(),
            0 <= acc,
            acc as int == dec_val(txt@.subrange(0, k as int)),
            all_digits(txt@.subrange(0, k as int)),
    {
        let c = txt.as_str().get_char(k);
        let u = c as u32;
        if u < 48 || u > 57 {
            proof {
                assert(!is_digit_char(txt@[k as int]));
            }
            return None;
        }
        let d = (u - 48) as i32;
        if acc > (i32::MAX - d) / 10 {
            proof {
                if txt@.len() > 0 && all_digits(txt@) {
                    lemma_dec_val_step(txt@, k as int);
                    assert(acc * 10 + d > i32::MAX) by (nonlinear_arith)
                        requires
                            acc > (i32::MAX - d) / 10,
                            0 <= d <= 9,
                            acc >= 0,
                    ;
                    lemma_dec_val_grows(txt@, k as int + 1);
                }
            }
            return None;
        }
        proof {
            assert(acc * 10 + d <= i32::MAX) by (nonlinear_arith)
                requires
                    acc <= (i32::MAX - d) / 10,
                    0 <= d <= 9,
                    acc >= 0,
            ;
            lemma_dec_val_step(txt@, k as int);
            assert forall|m: int| 0 <= m < txt@.subrange(0, k as int + 1).len() implies is_digit_char(
                #[trigger] txt@.subrange(0, k as int + 1)[m],
            ) by {
                if m < k as int {
                    assert(txt@.subrange(0, k as int + 1)[m] == txt@.subrange(0, k as int)[m]);
                } else {
                    assert(txt@.subrange(0, k as int + 1)[m] == txt@[k as int]);
                }
            }
        }
        acc = acc * 10 + d;
    }
    proof {
        assert(txt@.subrange(0, n as int) =~= txt@);
    }
    Some(acc)
}

/// The parser's forward cursor over the token sequence: `i` is the cursor
/// position, `size` the number of tokens.
#[derive(Debug)]
pub struct TokenIterator {
    pub i: usize,
    pub size: usize,
    pub tokens: Vec<Token>,
}

impl TokenIterator {
    /// The cursor stays within the sequence, whose length `size` caches.
    pub open spec fn wf(&self) -> bool {
        self.size == self.tokens@.len() && self.i <= self.size
    }

    /// The token one past the cursor, without consuming anything.
    pub fn peek(&self) -> (r: Result<Token, ()>)
        requires
            self.wf(),
        ensures
            r == (if self.i + 1 < self.size {
                Result::<Token, ()>::Ok(self.tokens@[self.i as int + 1])
            } else {
                Result::<Token, ()>::Err(())
            }),
    {
        if self.has_next() {
            Result::Ok(self.tokens[self.i + 1].clone())
        } else {
            Result::Err(())
        }
    }

    /// The token under the cursor, without consuming it.
    pub fn curr(&self) -> (r: Result<Token, ()>)
        requires
            self.wf(),
        ensures
            r == (if self.i < self.size {
                Result::<Token, ()>::Ok(self.tokens@[self.i as int])
            } else {
                Result::<Token, ()>::Err(())
            }),
    {
        if self.i < self.size {
            Result::Ok(self.tokens[self.i].clone())
        } else {
            Result::Err(())
        }
    }

    /// Whether a token stands after the one under the cursor.
    pub fn has_next(&self) -> (r: bool)
        requires
            self.wf(),
        ensures
            r == (self.i + 1 < self.size),
    {
        self.size - self.i > 1
    }

    /// Returns the token under the cursor and advances past it.
    pub fn consume(&mut self) -> (r: Token)
        requires
            old(self).wf(),
            old(self).i < old(self).size,
        ensures
            final(self).wf(),
            final(self).i == old(self).i + 1,
            final(self).size == old(self).size,
            final(self).tokens == old(self).tokens,
            r == old(self).tokens@[old(self).i as int],
    {
        let t = self.tokens[self.i].clone();
        self.i = self.i + 1;
        t
    }
}

/// Parses one atom.
fn parse_atom(toks: &Vec<Token>, i: usize, no_block: bool) -> (r: Result<
    (Node, usize),
    ParseError,
>)
    requires
        i <= toks@.len(),
    ensures
        match r {
            Result::Ok(p) => sp_atom(toks.deep_view(), i as nat, no_block) == Result::<
                (NodeV, nat),
                nat,
            >::Ok((p.0.deep_view(), p.1 as nat)) && i < p.1 <= toks@.len(),
            Result::Err(e) => sp_atom(toks.deep_view(), i as nat, no_block) matches Result::Err(pp)
                && wf_error(e, toks@, pp),
        },
    decreases toks@.len() - i, 1nat,
{
    let ghost t = toks.deep_view();
    if i >= toks.len() {
        return Result::Err(parse_error_at(toks, i, "expected an expression"));
    }
    match &toks[i] {
        Token::IntLiteral(txt) => {
            match parse_int_literal(txt) {
                Some(v) => Result::Ok((Node::IntegerLiteral(v), i + 1)),
                None => Result::Err(parse_error_at(toks, i, "invalid integer literal")),
            }
        },
        Token::StrLiteral(txt) => Result::Ok((Node::StringLiteral(txt.clone()), i + 1)),
        Token::Keyword(w) => {
            if string_eq_lit(w, "true") {
                Result::Ok((Node::BooleanLiteral(true), i + 1))
            } else if string_eq_lit(w, "false") {
                Result::Ok((Node::BooleanLiteral(false), i + 1))
            } else {
                Result::Err(parse_error_at(toks, i, "unexpected keyword"))
            }
        },
        Token::Identifier(name) => {
            if i + 1 < toks.len() && matches!(&toks[i + 1], Token::ParOp) {
                match parse_args(toks, i + 2) {
                    Result::Ok((args, j)) => {
                        let node = Node::Call { name: name.clone(), args };
                        proof {
                            lemma_call_view(node);
                        }
                        Result::Ok((node, j))
                    },
                    Result::Err(e) => Result::Err(e),
                }
            } else {
                Result::Ok((Node::Variable(name.clone()), i + 1))
            }
        },
        Token::ParOp => {
            match parse_expr(toks, i + 1, 0, false) {
                Result::Ok((e, j)) => {
                    if j < toks.len() && matches!(&toks[j], Token::ParCl) {
                        Result::Ok((e, j + 1))
                    } else {
                        Result::Err(parse_error_at(toks, j, "expected a closing parenthesis"))
                    }
                },
                Result::Err(e) => Result::Err(e),
            }
        },
        Token::BraOp => {
            if no_block {
                Result::Err(parse_error_at(toks, i, "a block cannot stand here"))
            } else {
                match parse_block(toks, i + 1, true) {
                    Result::Ok((node, j)) => Result::Ok((node, j)),
                    Result::Err(e) => Result::Err(e),
                }
            }
        },
        _ => Result::Err(parse_error_at(toks, i, "unexpected token")),
    }
}

/// Parses a call's argument list, entered after the opening parenthesis.
fn parse_args(toks: &Vec<Token>, i: usize) -> (r: Result<(Vec<Node>, usize), ParseError>)
    requires
        i <= toks@.len(),
    ensures
        match r {
            Result::Ok(p) => sp_args(toks.deep_view(), i as nat) == Result::<
                (Seq<NodeV>, nat),
                nat,
            >::Ok((p.0.deep_view(), p.1 as nat)) && i < p.1 <= toks@.len(),
            Result::Err(e) => sp_args(toks.deep_view(), i as nat) matches Result::Err(pp)
                && wf_error(e, toks@, pp),
        },
    decreases toks@.len() - i, 7nat,
{
    let ghost t = toks.deep_view();
    if i < toks.len() && matches!(&toks[i], Token::ParCl) {
        let empty: Vec<Node> = Vec::new();
        proof {
            assert(empty.deep_view() =~= Seq::<NodeV>::empty());
        }
        return Result::Ok((empty, i + 1));
    }
    let mut args: Vec<Node> = Vec::new();
    let mut cur = i;
    proof {
        assert(sp_args(t, i as nat) == sp_args1(t, i as nat));
        assert(args.deep_view() =~= Seq::<NodeV>::empty());
        lemma_sp_prepend_empty(sp_args1(t, cur as nat));
    }
    loop
        invariant
            i <= cur <= toks@.len(),
            t == toks.deep_view(),
            sp_args(t, i as nat) == sp_prepend(args.deep_view(), sp_args1(t, cur as nat)),
            i < cur ==> i + 1 < cur,
        decreases toks@.len() - cur, 6nat,
    {
        let ghost args0 = args.deep_view();
        match parse_expr(toks, cur, 0, false) {
            Result::Ok((e, j)) => {
                let ghost ev = e.deep_view();
                if j < toks.len() && matches!(&toks[j], Token::ParCl) {
                    args.push(e);
                    proof {
                        assert(sp_args1(t, cur as nat) == Result::<(Seq<NodeV>, nat), nat>::Ok(
                            (seq![ev], (j + 1) as nat),
                        ));
                        assert(args.deep_view() =~= args0.push(ev));
                        assert(args0 + seq![ev] =~= args0.push(ev));
                    }
                    return Result::Ok((args, j + 1));
                } else if j < toks.len() && matches!(&toks[j], Token::Comma) {
                    args.push(e);
                    proof {
                        assert(sp_args1(t, cur as nat) == sp_cons(ev, sp_args1(t, (j + 1) as nat)));
                        lemma_sp_prepend_push(args0, ev, sp_args1(t, (j + 1) as nat));
                        assert(args.deep_view() =~= args0.push(ev));
                    }
                    cur = j + 1;
                } else {
                    return Result::Err(parse_error_at(toks, j, "expected a comma or a closing parenthesis"));
                }
            },
            Result::Err(e) => {
                return Result::Err(e);
            },
        }
    }
}

/// Parses one expression by precedence climbing, starting at the binding
/// threshold `min_prec`.
fn parse_expr(toks: &Vec<Token>, i: usize, min_prec: i64, no_block: bool) -> (r: Result<
    (Node, usize),
    ParseError,
>)
    requires
        i <= toks@.len(),
    ensures
        match r {
            Result::Ok(p) => sp_expr(toks.deep_view(), i as nat, min_prec as int, no_block)
                == Result::<(NodeV, nat), nat>::Ok((p.0.deep_view(), p.1 as nat)) && i < p.1
                <= toks@.len(),
            Result::Err(e) => sp_expr(toks.deep_view(), i as nat, min_prec as int, no_block)
                matches Result::Err(pp) && wf_error(e, toks@, pp),
        },
    decreases toks@.len() - i, 3nat,
{
    let ghost t = toks.deep_view();
    let (mut left, mut j) = match parse_atom(toks, i, no_block) {
        Result::Ok(p) => p,
        Result::Err(e) => {
            return Result::Err(e);
        },
    };
    loop
        invariant
            i < j <= toks@.len(),
            t == toks.deep_view(),
            sp_expr(t, i as nat, min_prec as int, no_block) == sp_climb(
                t,
                left.deep_view(),
                j as nat,
                min_prec as int,
                no_block,
            ),
        ensures
            i < j <= toks@.len(),
            sp_expr(t, i as nat, min_prec as int, no_block) == Result::<(NodeV, nat), nat>::Ok(
                (left.deep_view(), j as nat),
            ),
        decreases toks@.len() - j, 9nat,
    {
        let cont = if j < toks.len() {
            match &toks[j] {
                Token::Binary(op) => (op.precedence as i64) >= min_prec,
                _ => false,
            }
        } else {
            false
        };
        if !cont {
            break ;
        }
        let (prec, bin) = match &toks[j] {
            Token::Binary(op) => (op.precedence, op.bin),
            _ => {
                proof {
                    assert(false);
                }
                break ;
            },
        };
        match parse_expr(toks, j + 1, prec as i64 + 1, no_block) {
            Result::Ok((right, k)) => {
                let newleft = Node::BinaryExpr {
                    op: bin,
                    left: Box::new(left),
                    right: Box::new(right),
                };
                left = newleft;
                j = k;
            },
            Result::Err(e) => {
                return Result::Err(e);
            },
        }
    }
    Result::Ok((left, j))
}

/// Parses one statement.
fn parse_stmt(toks: &Vec<Token>, i: usize) -> (r: Result<(Node, usize), ParseError>)
    requires
        i <= toks@.len(),
    ensures
        match r {
            Result::Ok(p) => sp_stmt(toks.deep_view(), i as nat) == Result::<(NodeV, nat), nat>::Ok(
                (p.0.deep_view(), p.1 as nat),
            ) && i < p.1 <= toks@.len(),
            Result::Err(e) => sp_stmt(toks.deep_view(), i as nat) matches Result::Err(pp)
                && wf_error(e, toks@, pp),
        },
    decreases toks@.len() - i, 4nat,
{
    let ghost t = toks.deep_view();
    if i >= toks.len() {
        return Result::Err(parse_error_at(toks, i, "expected a statement"));
    }
    if keyword_at(toks, i, "return") {
        match parse_expr(toks, i + 1, 0, false) {
            Result::Ok((v, j)) => {
                if j < toks.len() && matches!(&toks[j], Token::Semi) {
                    Result::Ok((Node::Return { value: Box::new(v) }, j + 1))
                } else {
                    Result::Err(parse_error_at(toks, j, "expected a semicolon"))
                }
            },
            Result::Err(e) => Result::Err(e),
        }
    } else if keyword_at(toks, i, "if") {
        parse_if(toks, i + 1)
    } else {
        match parse_expr(toks, i, 0, false) {
            Result::Ok((e, j)) => {
                if j < toks.len() && matches!(&toks[j], Token::Semi) {
                    Result::Ok((e, j + 1))
                } else {
                    Result::Err(parse_error_at(toks, j, "expected a semicolon"))
                }
            },
            Result::Err(e) => Result::Err(e),
        }
    }
}

/// Parses an `if` statement, entered after the `if` keyword.
fn parse_if(toks: &Vec<Token>, i: usize) -> (r: Result<(Node, usize), ParseError>)
    requires
        i <= toks@.len(),
    ensures
        match r {
            Result::Ok(p) => sp_if(toks.deep_view(), i as nat) == Result::<(NodeV, nat), nat>::Ok(
                (p.0.deep_view(), p.1 as nat),
            ) && i < p.1 <= toks@.len(),
            Result::Err(e) => sp_if(toks.deep_view(), i as nat) matches Result::Err(pp) && wf_error(
                e,
                toks@,
                pp,
            ),
        },
    decreases toks@.len() - i, 4nat,
{
    let ghost t = toks.deep_view();
    match parse_expr(toks, i, 0, true) {
        Result::Ok((cond, j)) => {
            if j < toks.len() && matches!(&toks[j], Token::BraOp) {
                match parse_block(toks, j + 1, true) {
                    Result::Ok((body, k)) => {
                        if k < toks.len() && keyword_at(toks, k, "else") {
                            if k + 1 < toks.len() && matches!(&toks[k + 1], Token::BraOp) {
                                match parse_block(toks, k + 2, true) {
                                    Result::Ok((eb, m)) => Result::Ok(
                                        (
                                            Node::If {
                                                condition: Box::new(cond),
                                                then_branch: Box::new(body),
                                                else_branch: Some(Box::new(eb)),
                                            },
                                            m,
                                        ),
                                    ),
                                    Result::Err(e) => Result::Err(e),
                                }
                            } else {
                                Result::Err(parse_error_at(toks, k + 1, "expected an else block"))
                            }
                        } else {
                            Result::Ok(
                                (
                                    Node::If {
                                        condition: Box::new(cond),
                                        then_branch: Box::new(body),
                                        else_branch: None,
                                    },
                                    k,
                                ),
                            )
                        }
                    },
                    Result::Err(e) => Result::Err(e),
                }
            } else {
                Result::Err(parse_error_at(toks, j, "expected a block after the condition"))
            }
        },
        Result::Err(e) => Result::Err(e),
    }
}

/// Parses a statement list into a block node: a braced block runs to the
/// matching `}`, the top-level block to the end of the tokens.
fn parse_block(toks: &Vec<Token>, i: usize, braced: bool) -> (r: Result<
    (Node, usize),
    ParseError,
>)
    requires
        i <= toks@.len(),
    ensures
        match r {
            Result::Ok(p) => sp_stmts(toks.deep_view(), i as nat, braced) matches Result::Ok(q)
                && p.0.deep_view() == NodeV::Block(q.0) && p.1 as nat == q.1 && i <= p.1
                <= toks@.len() && (braced ==> i < p.1),
            Result::Err(e) => sp_stmts(toks.deep_view(), i as nat, braced) matches Result::Err(pp)
                && wf_error(e, toks@, pp),
        },
    decreases toks@.len() - i, 8nat,
{
    let ghost t = toks.deep_view();
    let mut nodes: Vec<Node> = Vec::new();
    let mut cur = i;
    proof {
        assert(nodes.deep_view() =~= Seq::<NodeV>::empty());
        lemma_sp_prepend_empty(sp_stmts(t, cur as nat, braced));
    }
    loop
        invariant
            i <= cur <= toks@.len(),
            t == toks.deep_view(),
            sp_stmts(t, i as nat, braced) == sp_prepend(
                nodes.deep_view(),
                sp_stmts(t, cur as nat, braced),
            ),
        decreases toks@.len() - cur, 8nat,
    {
        let ghost nodes0 = nodes.deep_view();
        if braced && cur < toks.len() && matches!(&toks[cur], Token::BraCl) {
            let node = Node::Block(nodes);
            proof {
                lemma_block_view(node);
                assert(sp_stmts(t, cur as nat, braced) == Result::<(Seq<NodeV>, nat), nat>::Ok(
                    (Seq::empty(), (cur + 1) as nat),
                ));
                assert(nodes0 + Seq::<NodeV>::empty() =~= nodes0);
            }
            return Result::Ok((node, cur + 1));
        }
        if cur >= toks.len() {
            if braced {
                return Result::Err(parse_error_at(toks, cur, "expected a closing brace"));
            }
            let node = Node::Block(nodes);
            proof {
                lemma_block_view(node);
                assert(nodes0 + Seq::<NodeV>::empty() =~= nodes0);
            }
            return Result::Ok((node, cur));
        }
        match parse_stmt(toks, cur) {
            Result::Ok((n, j)) => {
                let ghost nv = n.deep_view();
                nodes.push(n);
                proof {
                    assert(sp_stmts(t, cur as nat, braced) == sp_cons(
                        nv,
                        sp_stmts(t, j as nat, braced),
                    ));
                    lemma_sp_prepend_push(nodes0, nv, sp_stmts(t, j as nat, braced));
                    assert(nodes.deep_view() =~= nodes0.push(nv));
                }
                cur = j;
            },
            Result::Err(e) => {
                return Result::Err(e);
            },
        }
    }
}

/// The parser component.
pub struct Parser;

impl Parser {
    /// Parses a token sequence into the root block node, exactly as the
    /// grammar of `sp_stmts` describes, or reports the first grammar
    /// violation, naming the unexpected token and the cursor position.
    pub fn parse(tokens: Vec<Token>) -> (r: Result<Node, ParseError>)
        ensures
            match r {
                Result::Ok(node) => sp_parse(tokens.deep_view()) == Result::<NodeV, nat>::Ok(
                    node.deep_view(),
                ),
                Result::Err(e) => sp_parse(tokens.deep_view()) matches Result::Err(pp) && wf_error(
                    e,
                    tokens@,
                    pp,
                ),
            },
    {
        match parse_block(&tokens, 0, false) {
            Result::Ok((node, _)) => Result::Ok(node),
            Result::Err(e) => Result::Err(e),
        }
    }
}

} // verus!
