//! The lexer: consumes a character sequence and produces the ordered token
//! sequence, or reports the first offending character. The specification
//! model `spec_lex_from` defines, position by position, which token each
//! lexing rule emits; `Tokenizer::tokenize` is verified to return exactly
//! what the model says.
use vstd::prelude::*;
use vstd::string::StrSliceExecFns;
use crate::operators::{spec_match_at, spec_match_op, spec_match_from, spec_binary_table, lemma_binary_table_lexemes, binary_operators, BinaryOperator};
use crate::token::{Token, TokenV};

verus! {

/// Error for a character no lexing rule recognizes, or a string literal
/// whose closing quote is missing (then the offset names the opening quote).
#[derive(Clone, Copy, Debug, PartialEq, Eq, Structural)]
pub struct LexError {
    pub offset: usize,
    pub character: char,
}

pub open spec fn is_space_char(c: char) -> bool {
    c == ' ' || c == '\t' || c == '\n' || c == '\r'
}

pub open spec fn is_alpha_char(c: char) -> bool {
    (97 <= c as u32 && c as u32 <= 122) || (65 <= c as u32 && c as u32 <= 90)
}

pub open spec fn is_digit_char(c: char) -> bool {
    48 <= c as u32 && c as u32 <= 57
}

pub open spec fn is_alnum_char(c: char) -> bool {
    is_alpha_char(c) || is_digit_char(c)
}

fn is_space(c: char) -> (r: bool)
    ensures
        r == is_space_char(c),
{
    c == ' ' || c == '\t' || c == '\n' || c == '\r'
}

fn is_alpha(c: char) -> (r: bool)
    ensures
        r == is_alpha_char(c),
{
    let u = c as u32;
    (97 <= u && u <= 122) || (65 <= u && u <= 90)
}

fn is_digit(c: char) -> (r: bool)
    ensures
        r == is_digit_char(c),
{
    let u = c as u32;
    48 <= u && u <= 57
}

fn is_alnum(c: char) -> (r: bool)
    ensures
        r == is_alnum_char(c),
{
    is_alpha(c) || is_digit(c)
}

/// End of the whitespace run that starts at `i`.
pub open spec fn ws_end(s: Seq<char>, i: nat) -> nat
    decreases s.len() - i,
{
    if i < s.len() && is_space_char(s[i as int]) {
        ws_end(s, i + 1)
    } else {
        i
    }
}

/// End of the alphanumeric run that starts at `i`.
pub open spec fn alnum_end(s: Seq<char>, i: nat) -> nat
    decreases s.len() - i,
{
    if i < s.len() && is_alnum_char(s[i as int]) {
        alnum_end(s, i + 1)
    } else {
        i
    }
}

/// End of the decimal digit run that starts at `i`.
pub open spec fn digit_end(s: Seq<char>, i: nat) -> nat
    decreases s.len() - i,
{
    if i < s.len() && is_digit_char(s[i as int]) {
        digit_end(s, i + 1)
    } else {
        i
    }
}

/// Position of the first occurrence of `stop` at or after `i`, or the end
/// of the sequence if there is none.
pub open spec fn until_end(s: Seq<char>, i: nat, stop: char) -> nat
    decreases s.len() - i,
{
    if i < s.len() && s[i as int] != stop {
        until_end(s, i + 1, stop)
    } else {
        i
    }
}

pub proof fn lemma_ws_end(s: Seq<char>, i: nat)
    ensures
        i <= ws_end(s, i),
        i <= s.len() ==> ws_end(s, i) <= s.len(),
        forall|j: int| i <= j < ws_end(s, i) ==> #[trigger] is_space_char(s[j]),
        ws_end(s, i) < s.len() ==> !is_space_char(s[ws_end(s, i) as int]),
    decreases s.len() - i,
{
    if i < s.len() && is_space_char(s[i as int]) {
        lemma_ws_end(s, i + 1);
    }
}

pub proof fn lemma_alnum_end(s: Seq<char>, i: nat)
    ensures
        i <= alnum_end(s, i),
        i <= s.len() ==> alnum_end(s, i) <= s.len(),
        forall|j: int| i <= j < alnum_end(s, i) ==> #[trigger] is_alnum_char(s[j]),
        alnum_end(s, i) < s.len() ==> !is_alnum_char(s[alnum_end(s, i) as int]),
    decreases s.len() - i,
{
    if i < s.len() && is_alnum_char(s[i as int]) {
        lemma_alnum_end(s, i + 1);
    }
}

pub proof fn lemma_digit_end(s: Seq<char>, i: nat)
    ensures
        i <= digit_end(s, i),
        i <= s.len() ==> digit_end(s, i) <= s.len(),
        forall|j: int| i <= j < digit_end(s, i) ==> #[trigger] is_digit_char(s[j]),
        digit_end(s, i) < s.len() ==> !is_digit_char(s[digit_end(s, i) as int]),
    decreases s.len() - i,
{
    if i < s.len() && is_digit_char(s[i as int]) {
        lemma_digit_end(s, i + 1);
    }
}

pub proof fn lemma_until_end(s: Seq<char>, i: nat, stop: char)
    ensures
        i <= until_end(s, i, stop),
        i <= s.len() ==> until_end(s, i, stop) <= s.len(),
        forall|j: int| i <= j < until_end(s, i, stop) ==> #[trigger] s[j] != stop,
        until_end(s, i, stop) < s.len() ==> s[until_end(s, i, stop) as int] == stop,
    decreases s.len() - i,
{
    if i < s.len() && s[i as int] != stop {
        lemma_until_end(s, i + 1, stop);
    }
}

/// The fixed keyword set.
pub open spec fn is_keyword(w: Seq<char>) -> bool {
    w == "return"@ || w == "if"@ || w == "else"@ || w == "true"@ || w == "false"@
}

/// How the lexer classifies an alphanumeric word.
pub open spec fn word_token(w: Seq<char>) -> TokenV {
    if is_keyword(w) {
        TokenV::Keyword(w)
    } else {
        TokenV::Identifier(w)
    }
}

/// Prepends one token to the result of lexing the rest of the input.
pub open spec fn lex_cons(t: TokenV, rest: Result<Seq<TokenV>, LexError>) -> Result<
    Seq<TokenV>,
    LexError,
> {
    match rest {
        Result::Ok(ts) => Result::Ok(seq![t] + ts),
        Result::Err(e) => Result::Err(e),
    }
}

/// Prepends an already lexed token sequence to the result of lexing the
/// rest of the input.
pub open spec fn lex_prepend(ts: Seq<TokenV>, rest: Result<Seq<TokenV>, LexError>) -> Result<
    Seq<TokenV>,
    LexError,
> {
    match rest {
        Result::Ok(more) => Result::Ok(ts + more),
        Result::Err(e) => Result::Err(e),
    }
}

pub proof fn lemma_lex_prepend_push(ts: Seq<TokenV>, t: TokenV, rest: Result<Seq<TokenV>, LexError>)
    ensures
        lex_prepend(ts, lex_cons(t, rest)) == lex_prepend(ts.push(t), rest),
{
    match rest {
        Result::Ok(more) => {
            assert(ts + (seq![t] + more) =~= ts.push(t) + more);
        },
        Result::Err(_) => {},
    }
}

proof fn lemma_match_from_nonempty(s: Seq<char>, i: nat, k: nat)
    ensures
        spec_match_from(s, i, k) matches Some(op) ==> op.op.len() >= 1 && spec_match_at(
            s,
            i,
            op.op,
        ),
    decreases spec_binary_table().len() - k,
{
    lemma_binary_table_lexemes();
    if k < spec_binary_table().len() && !spec_match_at(s, i, spec_binary_table()[k as int].op) {
        lemma_match_from_nonempty(s, i, k + 1);
    }
}

/// The operator the table yields is a nonempty lexeme standing wholly
/// within the input.
pub proof fn lemma_match_op_bounds(s: Seq<char>, i: nat)
    ensures
        spec_match_op(s, i) matches Some(op) ==> 1 <= op.op.len() && i + op.op.len() <= s.len(),
{
    lemma_match_from_nonempty(s, i, 0);
}

/// The lexing rules, applied from position `i` on: skip whitespace; an
/// alphabetic character starts a maximal alphanumeric word, a keyword if it
/// is in the keyword set and an identifier otherwise; `"` starts a string
/// literal running to the next `"` (an error if that quote is missing);
/// `;` `(` `)` `{` `}` `,` are single-character tokens; a digit starts a
/// maximal digit run; otherwise the longest matching operator lexeme of the
/// table is taken, and if none matches the character is an error.
pub open spec fn spec_lex_from(s: Seq<char>, i: nat) -> Result<Seq<TokenV>, LexError>
    decreases s.len() - i,
        via spec_lex_from_dec
{
    if i >= s.len() {
        Result::Ok(Seq::empty())
    } else {
        let c = s[i as int];
        if is_space_char(c) {
            spec_lex_from(s, i + 1)
        } else if is_alpha_char(c) {
            let j = alnum_end(s, i + 1);
            lex_cons(word_token(s.subrange(i as int, j as int)), spec_lex_from(s, j))
        } else if c == '"' {
            let q = until_end(s, i + 1, '"');
            if q < s.len() {
                lex_cons(
                    TokenV::StrLiteral(s.subrange(i + 1 as int, q as int)),
                    spec_lex_from(s, q + 1),
                )
            } else {
                Result::Err(LexError { offset: i as usize, character: '"' })
            }
        } else if c == ';' {
            lex_cons(TokenV::Semi, spec_lex_from(s, i + 1))
        } else if c == '(' {
            lex_cons(TokenV::ParOp, spec_lex_from(s, i + 1))
        } else if c == ')' {
            lex_cons(TokenV::ParCl, spec_lex_from(s, i + 1))
        } else if c == '{' {
            lex_cons(TokenV::BraOp, spec_lex_from(s, i + 1))
        } else if c == '}' {
            lex_cons(TokenV::BraCl, spec_lex_from(s, i + 1))
        } else if c == ',' {
            lex_cons(TokenV::Comma, spec_lex_from(s, i + 1))
        } else if is_digit_char(c) {
            let j = digit_end(s, i + 1);
            lex_cons(TokenV::IntLiteral(s.subrange(i as int, j as int)), spec_lex_from(s, j))
        } else {
            match spec_match_op(s, i) {
                Some(op) => lex_cons(TokenV::Binary(op), spec_lex_from(s, i + op.op.len())),
                None => Result::Err(LexError { offset: i as usize, character: c }),
            }
        }
    }
}

#[via_fn]
proof fn spec_lex_from_dec(s: Seq<char>, i: nat) {
    lemma_alnum_end(s, i + 1);
    lemma_digit_end(s, i + 1);
    lemma_until_end(s, i + 1, '"');
    lemma_match_from_nonempty(s, i, 0);
    match spec_match_op(s, i) {
        Some(op) => {
            assert(op.op.len() >= 1 && i + op.op.len() <= s.len());
        },
        None => {},
    }
}

/// What lexing a whole character sequence yields.
pub open spec fn spec_tokenize(s: Seq<char>) -> Result<Seq<TokenV>, LexError> {
    spec_lex_from(s, 0)
}

/// Relies on `String`'s `FromIterator<char>` implementation: collecting an
/// iterator over characters yields the string of exactly those characters
/// in order.
#[verifier::external_body]
fn string_from_chars(v: &Vec<char>) -> (r: String)
    ensures
        r@ == v@,
{
    v.iter().collect()
}

/// The lexer's read cursor over the character sequence: `i` is the current
/// position, `s` a secondary lookahead position, `len` the input length.
#[derive(Debug)]
pub struct TokenizerIterator {
    pub i: usize,
    pub s: usize,
    pub len: usize,
    pub content: Vec<char>,
}

impl TokenizerIterator {
    /// Both cursors stay within the input, whose length `len` caches.
    pub open spec fn wf(&self) -> bool {
        self.len == self.content@.len() && self.i <= self.len && self.s <= self.len
    }

    /// Whether the cursor has reached the end of the input.
    pub fn end(&self) -> (r: bool)
        ensures
            r == (self.i >= self.len),
    {
        self.i >= self.len
    }

    /// The character under the cursor, if any.
    pub fn curr(&self) -> (r: Option<char>)
        requires
            self.wf(),
        ensures
            r == (if self.i < self.len {
                Some(self.content@[self.i as int])
            } else {
                None::<char>
            }),
    {
        if self.i < self.len {
            Some(self.content[self.i])
        } else {
            None
        }
    }

    /// Advances the cursor one character and returns the character now under
    /// it, if any; the lookahead position is reset to the cursor.
    pub fn next(&mut self) -> (r: Option<char>)
        requires
            old(self).wf(),
            old(self).i < old(self).len,
        ensures
            final(self).wf(),
            final(self).i == old(self).i + 1,
            final(self).s == final(self).i,
            final(self).content == old(self).content,
            final(self).len == old(self).len,
            r == (if final(self).i < final(self).len {
                Some(final(self).content@[final(self).i as int])
            } else {
                None::<char>
            }),
    {
        self.i = self.i + 1;
        self.s = self.i;
        if self.i < self.len {
            Some(self.content[self.i])
        } else {
            None
        }
    }

    /// Advances only the lookahead position and returns the character under
    /// it, if any; the cursor itself does not move.
    pub fn peek(&mut self) -> (r: Option<char>)
        requires
            old(self).wf(),
            old(self).s < old(self).len,
        ensures
            final(self).wf(),
            final(self).i == old(self).i,
            final(self).s == old(self).s + 1,
            final(self).content == old(self).content,
            final(self).len == old(self).len,
            r == (if final(self).s < final(self).len {
                Some(final(self).content@[final(self).s as int])
            } else {
                None::<char>
            }),
    {
        self.s = self.s + 1;
        if self.s < self.len {
            Some(self.content[self.s])
        } else {
            None
        }
    }

    /// Moves the cursor up to the lookahead position.
    pub fn consume(&mut self)
        requires
            old(self).wf(),
        ensures
            final(self).wf(),
            final(self).i == old(self).s,
            final(self).s == old(self).s,
            final(self).content == old(self).content,
            final(self).len == old(self).len,
    {
        self.i = self.s;
    }

    /// Steps the cursor one character back (staying at the start if it is
    /// already there) and returns the character under it.
    pub fn back(&mut self) -> (r: char)
        requires
            old(self).wf(),
            old(self).len > 0,
        ensures
            final(self).wf(),
            final(self).i == (if old(self).i > 0 {
                (old(self).i - 1) as usize
            } else {
                0
            }),
            final(self).s == final(self).i,
            final(self).content == old(self).content,
            final(self).len == old(self).len,
            r == final(self).content@[final(self).i as int],
    {
        if self.i > 0 {
            self.i = self.i - 1;
        }
        self.s = self.i;
        self.content[self.i]
    }

    /// Whether the input continues with exactly the given text at the cursor.
    pub fn matches(&self, str: &str) -> (r: bool)
        requires
            self.wf(),
            self.i + str@.len() <= self.len,
        ensures
            r == spec_match_at(self.content@, self.i as nat, str@),
    {
        let n: usize = str.unicode_len();
        for k in 0..n
            invariant
                self.wf(),
                n == str@.len(),
                self.i + n <= self.len,
                forall|m: int| 0 <= m < k ==> self.content@[self.i + m] == str@[m],
        {
            if self.content[self.i + k] != str.get_char(k) {
                proof {
                    assert(self.content@.subrange(
                        self.i as int,
                        self.i + str@.len(),
                    )[k as int] != str@[k as int]);
                }
                return false;
            }
        }
        proof {
            assert(self.content@.subrange(self.i as int, self.i + str@.len()) =~= str@);
        }
        true
    }

    /// Like `matches`, and on success also advances the cursor past the
    /// matched text.
    pub fn match_skip(&mut self, str: &str) -> (r: bool)
        requires
            old(self).wf(),
            old(self).i + str@.len() <= old(self).len,
        ensures
            final(self).wf(),
            final(self).content == old(self).content,
            final(self).len == old(self).len,
            r == spec_match_at(old(self).content@, old(self).i as nat, str@),
            r ==> final(self).i == old(self).i + str@.len() && final(self).s == final(self).i,
            !r ==> *final(self) == *old(self),
    {
        if self.matches(str) {
            self.i = self.i + str.unicode_len();
            self.s = self.i;
            true
        } else {
            false
        }
    }

    /// Advances the cursor past the whitespace run under it.
    pub fn skip_whitespace(&mut self)
        requires
            old(self).wf(),
        ensures
            final(self).wf(),
            final(self).content == old(self).content,
            final(self).len == old(self).len,
            final(self).i == ws_end(old(self).content@, old(self).i as nat),
            final(self).i == old(self).i ==> final(self).s == old(self).s,
            final(self).i != old(self).i ==> final(self).s == final(self).i,
    {
        proof {
            lemma_ws_end(self.content@, self.i as nat);
        }
        loop
            invariant
                self.wf(),
                self.content == old(self).content,
                self.len == old(self).len,
                old(self).i <= self.i,
                ws_end(self.content@, self.i as nat) == ws_end(
                    old(self).content@,
                    old(self).i as nat,
                ),
                self.i == old(self).i ==> self.s == old(self).s,
                self.i != old(self).i ==> self.s == self.i,
            decreases self.len - self.i,
        {
            match self.curr() {
                Some(c) => {
                    if is_space(c) {
                        self.next();
                    } else {
                        return ;
                    }
                },
                None => {
                    return ;
                },
            }
        }
    }

    /// If (after skipping whitespace) the cursor is on an alphabetic
    /// character, consumes the maximal alphanumeric word there and returns
    /// its text; otherwise leaves the cursor after the whitespace run and
    /// returns nothing.
    pub fn word(&mut self) -> (r: Option<String>)
        requires
            old(self).wf(),
        ensures
            final(self).wf(),
            final(self).content == old(self).content,
            final(self).len == old(self).len,
            ({
                let s = old(self).content@;
                let w = ws_end(s, old(self).i as nat);
                match r {
                    Some(text) => w < s.len() && is_alpha_char(s[w as int]) && final(self).i
                        == alnum_end(s, (w + 1) as nat) && text@ == s.subrange(
                        w as int,
                        final(self).i as int,
                    ) && final(self).s == final(self).i,
                    None => (w >= s.len() || !is_alpha_char(s[w as int])) && final(self).i == w
                        && (final(self).i == old(self).i ==> final(self).s == old(self).s)
                        && (final(self).i != old(self).i ==> final(self).s == final(self).i),
                }
            }),
    {
        self.skip_whitespace();
        let c0 = match self.curr() {
            Some(c) => c,
            None => {
                return None;
            },
        };
        if !is_alpha(c0) {
            return None;
        }
        let ghost s = self.content@;
        let ghost start = self.i as nat;
        let mut out: Vec<char> = Vec::new();
        out.push(c0);
        self.next();
        proof {
            lemma_alnum_end(s, (start + 1) as nat);
            assert(out@ =~= s.subrange(start as int, self.i as int));
        }
        loop
            invariant
                self.wf(),
                self.content == old(self).content,
                self.content@ == s,
                self.len == old(self).len,
                start < self.i <= self.len,
                out@ == s.subrange(start as int, self.i as int),
                forall|j: int| start + 1 <= j < self.i ==> #[trigger] is_alnum_char(s[j]),
                self.s == self.i,
            ensures
                self.wf(),
                self.content == old(self).content,
                self.len == old(self).len,
                start < self.i <= self.len,
                out@ == s.subrange(start as int, self.i as int),
                forall|j: int| start + 1 <= j < self.i ==> #[trigger] is_alnum_char(s[j]),
                self.i < self.len ==> !is_alnum_char(s[self.i as int]),
                self.s == self.i,
            decreases self.len - self.i,
        {
            let more = match self.curr() {
                Some(c) => is_alnum(c),
                None => false,
            };
            if more {
                out.push(self.content[self.i]);
                proof {
                    assert(out@ =~= s.subrange(start as int, self.i + 1));
                }
                self.next();
            } else {
                break ;
            }
        }
        proof {
            lemma_alnum_end(s, (start + 1) as nat);
            assert(self.i as nat == alnum_end(s, (start + 1) as nat));
        }
        Some(string_from_chars(&out))
    }

    /// Consumes characters after the cursor up to (and past) the next
    /// occurrence of `stop`, or to the end of the input if there is none,
    /// and returns the characters strictly between.
    pub fn until(&mut self, stop: char) -> (r: String)
        requires
            old(self).wf(),
            old(self).i < old(self).len,
        ensures
            final(self).wf(),
            final(self).content == old(self).content,
            final(self).len == old(self).len,
            final(self).i == until_end(old(self).content@, (old(self).i + 1) as nat, stop),
            final(self).s == final(self).i,
            r@ == old(self).content@.subrange(old(self).i + 1, final(self).i as int),
    {
        let ghost s = self.content@;
        let ghost start = self.i as nat;
        let mut out: Vec<char> = Vec::new();
        proof {
            lemma_until_end(s, (start + 1) as nat, stop);
        }
        loop
            invariant_except_break
                self.i == start ==> out@ == Seq::<char>::empty() && self.i < self.len,
                self.i > start ==> self.i < self.len && out@ == s.subrange(start as int + 1, self.i + 1)
                    && self.s == self.i,
                forall|j: int| start + 1 <= j < self.i + 1 && self.i > start ==> #[trigger] s[j]
                    != stop,
            invariant
                self.wf(),
                self.content == old(self).content,
                self.content@ == s,
                self.len == old(self).len,
                start <= self.i <= self.len,
            ensures
                self.wf(),
                self.content == old(self).content,
                self.len == old(self).len,
                start < self.i <= self.len,
                out@ == s.subrange(start as int + 1, self.i as int),
                forall|j: int| start + 1 <= j < self.i ==> #[trigger] s[j] != stop,
                self.i < self.len ==> s[self.i as int] == stop,
                self.s == self.i,
            decreases self.len - self.i,
        {
            match self.next() {
                Some(c) => {
                    if c == stop {
                        proof {
                            assert(out@ =~= s.subrange(start as int + 1, self.i as int));
                        }
                        break ;
                    } else {
                        out.push(c);
                        proof {
                            assert(out@ =~= s.subrange(start as int + 1, self.i + 1));
                        }
                    }
                },
                None => {
                    proof {
                        assert(out@ =~= s.subrange(start as int + 1, self.i as int));
                    }
                    break ;
                },
            }
        }
        proof {
            lemma_until_end(s, (start + 1) as nat, stop);
            assert(out@ =~= s.subrange(start as int + 1, self.i as int));
            assert(self.i as nat == until_end(s, (start + 1) as nat, stop));
        }
        string_from_chars(&out)
    }
}

/// Whether the word is one of the fixed keywords.
fn is_keyword_str(w: &String) -> (r: bool)
    ensures
        r == is_keyword(w@),
{
    w.eq(&String::from_str("return")) || w.eq(&String::from_str("if")) || w.eq(
        &String::from_str("else"),
    ) || w.eq(&String::from_str("true")) || w.eq(&String::from_str("false"))
}

/// Tries the operator table at the cursor, longest lexeme first; on a match
/// advances the cursor past the matched lexeme and returns the descriptor.
fn match_operator(iter: &mut TokenizerIterator, ops: &Vec<BinaryOperator>) -> (r: Option<
    BinaryOperator,
>)
    requires
        old(iter).wf(),
        ops.deep_view() == spec_binary_table(),
        old(iter).i < old(iter).len,
    ensures
        final(iter).wf(),
        final(iter).content == old(iter).content,
        final(iter).len == old(iter).len,
        match r {
            Some(b) => spec_match_op(old(iter).content@, old(iter).i as nat) == Some(b.deep_view())
                && final(iter).i == old(iter).i + b.op@.len() && final(iter).s == final(iter).i,
            None => spec_match_op(old(iter).content@, old(iter).i as nat) == None::<
                crate::operators::BinaryOperatorV,
            > && *final(iter) == *old(iter),
        },
{
    let ghost s = iter.content@;
    let ghost i0 = iter.i as nat;
    let mut k: usize = 0;
    while k < ops.len()
        invariant
            iter.wf(),
            *iter == *old(iter),
            ops.deep_view() == spec_binary_table(),
            iter.i < iter.len,
            k <= ops.len(),
            ops@.len() == spec_binary_table().len(),
            spec_match_from(s, i0, 0) == spec_match_from(s, i0, k as nat),
            s == iter.content@,
            i0 == iter.i as nat,
        decreases ops.len() - k,
    {
        let oplen: usize = ops[k].op.as_str().unicode_len();
        proof {
            assert(ops@[k as int].deep_view() == spec_binary_table()[k as int]);
        }
        if oplen <= iter.len - iter.i {
            if iter.match_skip(ops[k].op.as_str()) {
                proof {
                    assert(spec_match_from(s, i0, k as nat) == Some(
                        spec_binary_table()[k as int],
                    ));
                }
                return Some(ops[k].clone());
            }
        } else {
            proof {
                assert(!spec_match_at(s, i0, spec_binary_table()[k as int].op));
            }
        }
        k = k + 1;
    }
    None
}

/// The lexer component.
pub struct Tokenizer;

impl Tokenizer {
    /// Turns one source unit into its token sequence, exactly as the lexing
    /// rules of `spec_lex_from` describe, or reports the first offending
    /// character and its offset.
    pub fn tokenize(inp: String) -> (r: Result<Vec<Token>, LexError>)
        ensures
            match r {
                Result::Ok(tokens) => spec_tokenize(inp@) == Result::<Seq<TokenV>, LexError>::Ok(
                    tokens.deep_view(),
                ),
                Result::Err(e) => spec_tokenize(inp@) == Result::<Seq<TokenV>, LexError>::Err(e),
            },
    {
        let ghost s = inp@;
        let n: usize = inp.as_str().unicode_len();
        let mut content: Vec<char> = Vec::new();
        for k in 0..n
            invariant
                n == s.len(),
                inp@ == s,
                content@ == s.subrange(0, k as int),
        {
            content.push(inp.as_str().get_char(k));
            proof {
                assert(content@ =~= s.subrange(0, k + 1));
            }
        }
        proof {
            assert(content@ =~= s);
        }
        let ops = binary_operators();
        let mut iter = TokenizerIterator { i: 0, s: 0, len: content.len(), content };
        let mut tokens: Vec<Token> = Vec::new();
        while !iter.end()
            invariant
                inp@ == s,
                iter.wf(),
                iter.content@ == s,
                iter.len == s.len(),
                ops.deep_view() == spec_binary_table(),
                spec_lex_from(s, 0) == lex_prepend(tokens.deep_view(), spec_lex_from(s, iter.i as nat)),
            decreases iter.len - iter.i,
        {
            let ghost i0 = iter.i as nat;
            let ghost ts0 = tokens.deep_view();
            let c = match iter.curr() {
                Some(c) => c,
                None => {
                    proof {
                        assert(false);
                    }
                    return Result::Err(LexError { offset: 0, character: ' ' });
                },
            };
            if is_space(c) {
                iter.next();
            } else if is_alpha(c) {
                let text = match iter.word() {
                    Some(text) => text,
                    None => {
                        proof {
                            assert(false);
                        }
                        return Result::Err(LexError { offset: 0, character: ' ' });
                    },
                };
                let ghost tokv = word_token(text@);
                let tok = if is_keyword_str(&text) {
                    Token::Keyword(text)
                } else {
                    Token::Identifier(text)
                };
                tokens.push(tok);
                proof {
                    lemma_alnum_end(s, (i0 + 1) as nat);
                    assert(spec_lex_from(s, i0) == lex_cons(tokv, spec_lex_from(s, iter.i as nat)));
                    assert(tokens.deep_view() =~= ts0.push(tokv));
                    lemma_lex_prepend_push(ts0, tokv, spec_lex_from(s, iter.i as nat));
                }
            } else if c == '"' {
                let start = iter.i;
                let body = iter.until('"');
                proof {
                    lemma_until_end(s, (i0 + 1) as nat, '"');
                }
                if iter.i < iter.len {
                    let ghost tokv = TokenV::StrLiteral(body@);
                    iter.next();
                    tokens.push(Token::StrLiteral(body));
                    proof {
                        assert(spec_lex_from(s, i0) == lex_cons(
                            tokv,
                            spec_lex_from(s, iter.i as nat),
                        ));
                        assert(tokens.deep_view() =~= ts0.push(tokv));
                        lemma_lex_prepend_push(ts0, tokv, spec_lex_from(s, iter.i as nat));
                    }
                } else {
                    proof {
                        assert(spec_lex_from(s, i0) == Result::<Seq<TokenV>, LexError>::Err(
                            LexError { offset: start, character: '"' },
                        ));
                    }
                    return Result::Err(LexError { offset: start, character: '"' });
                }
            } else if c == ';' || c == '(' || c == ')' || c == '{' || c == '}' || c == ',' {
                let tok = if c == ';' {
                    Token::Semi
                } else if c == '(' {
                    Token::ParOp
                } else if c == ')' {
                    Token::ParCl
                } else if c == '{' {
                    Token::BraOp
                } else if c == '}' {
                    Token::BraCl
                } else {
                    Token::Comma
                };
                let ghost tokv = tok.deep_view();
                tokens.push(tok);
                iter.next();
                proof {
                    assert(spec_lex_from(s, i0) == lex_cons(tokv, spec_lex_from(s, iter.i as nat)));
                    assert(tokens.deep_view() =~= ts0.push(tokv));
                    lemma_lex_prepend_push(ts0, tokv, spec_lex_from(s, iter.i as nat));
                }
            } else if is_digit(c) {
                let ghost start = iter.i as nat;
                let mut val: Vec<char> = Vec::new();
                val.push(c);
                iter.next();
                proof {
                    assert(val@ =~= s.subrange(start as int, iter.i as int));
                }
                loop
                    invariant
                        iter.wf(),
                        iter.content@ == s,
                        iter.len == s.len(),
                        start < iter.i <= iter.len,
                        val@ == s.subrange(start as int, iter.i as int),
                        forall|j: int| start + 1 <= j < iter.i ==> #[trigger] is_digit_char(s[j]),
                        iter.s == iter.i,
                    ensures
                        iter.wf(),
                        iter.content@ == s,
                        iter.len == s.len(),
                        start < iter.i <= iter.len,
                        val@ == s.subrange(start as int, iter.i as int),
                        forall|j: int| start + 1 <= j < iter.i ==> #[trigger] is_digit_char(s[j]),
                        iter.i < iter.len ==> !is_digit_char(s[iter.i as int]),
                        iter.s == iter.i,
                    decreases iter.len - iter.i,
                {
                    let more = match iter.curr() {
                        Some(c2) => is_digit(c2),
                        None => false,
                    };
                    if more {
                        val.push(iter.content[iter.i]);
                        proof {
                            assert(val@ =~= s.subrange(start as int, iter.i + 1));
                        }
                        iter.next();
                    } else {
                        break ;
                    }
                }
                let text = string_from_chars(&val);
                let ghost tokv = TokenV::IntLiteral(text@);
                tokens.push(Token::IntLiteral(text));
                proof {
                    lemma_digit_end(s, (start + 1) as nat);
                    assert(iter.i as nat == digit_end(s, (start + 1) as nat));
                    assert(spec_lex_from(s, i0) == lex_cons(tokv, spec_lex_from(s, iter.i as nat)));
                    assert(tokens.deep_view() =~= ts0.push(tokv));
                    lemma_lex_prepend_push(ts0, tokv, spec_lex_from(s, iter.i as nat));
                }
            } else {
                let pos = iter.i;
                match match_operator(&mut iter, &ops) {
                    Some(b) => {
                        let ghost tokv = TokenV::Binary(b.deep_view());
                        tokens.push(Token::Binary(b));
                        proof {
                            lemma_match_from_nonempty(s, i0, 0);
                            assert(spec_lex_from(s, i0) == lex_cons(
                                tokv,
                                spec_lex_from(s, iter.i as nat),
                            ));
                            assert(tokens.deep_view() =~= ts0.push(tokv));
                            lemma_lex_prepend_push(ts0, tokv, spec_lex_from(s, iter.i as nat));
                        }
                    },
                    None => {
                        proof {
                            assert(spec_lex_from(s, i0) == Result::<Seq<TokenV>, LexError>::Err(
                                LexError { offset: pos, character: c },
                            ));
                        }
                        return Result::Err(LexError { offset: pos, character: c });
                    },
                }
            }
        }
        proof {
            assert(spec_lex_from(s, iter.i as nat) == Result::<Seq<TokenV>, LexError>::Ok(
                Seq::empty(),
            ));
            assert(tokens.deep_view() + Seq::<TokenV>::empty() =~= tokens.deep_view());
        }
        Result::Ok(tokens)
    }
}

} // verus!
