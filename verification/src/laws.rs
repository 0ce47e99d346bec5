//! General properties of the lexer, proved once and for all inputs: what
//! integer literals and keywords lex to, and that whitespace between tokens
//! carries no meaning.
use vstd::prelude::*;
use crate::token::TokenV;
use crate::tokenizer::{
    alnum_end, digit_end, is_alnum_char, is_alpha_char, is_digit_char, is_keyword, is_space_char,
    lemma_alnum_end, lemma_digit_end, lemma_until_end, spec_lex_from, spec_tokenize, until_end,
    word_token, LexError,
};
use crate::operators::{spec_binary_table, spec_match_at, spec_match_from, spec_match_op};
use crate::parser::all_digits;

verus! {

/// Every nonempty string of decimal digits, followed by a semicolon, lexes
/// to exactly the integer literal carrying those digits and the semicolon.
pub proof fn lemma_tokenize_int_literal(s: Seq<char>)
    requires
        s.len() > 0,
        all_digits(s),
    ensures
        spec_tokenize(s.push(';')) == Result::<Seq<TokenV>, LexError>::Ok(
            seq![TokenV::IntLiteral(s), TokenV::Semi],
        ),
{
    let u = s.push(';');
    assert(is_digit_char(u[0]));
    lemma_digit_end(u, 1);
    assert forall|j: int| 1 <= j < s.len() implies is_digit_char(u[j]) by {
        assert(u[j] == s[j]);
    }
    assert(u[s.len() as int] == ';');
    assert(!is_digit_char(u[s.len() as int]));
    assert(digit_end(u, 1) == s.len());
    assert(u.subrange(0, s.len() as int) =~= s);
    assert(spec_lex_from(u, u.len()) == Result::<Seq<TokenV>, LexError>::Ok(Seq::empty()));
    assert(spec_lex_from(u, s.len() as nat) == Result::<Seq<TokenV>, LexError>::Ok(
        seq![TokenV::Semi] + Seq::empty(),
    ));
    assert(seq![TokenV::Semi] + Seq::<TokenV>::empty() =~= seq![TokenV::Semi]);
    assert(spec_tokenize(u) == Result::<Seq<TokenV>, LexError>::Ok(
        seq![TokenV::IntLiteral(s)] + seq![TokenV::Semi],
    ));
    assert(seq![TokenV::IntLiteral(s)] + seq![TokenV::Semi] =~= seq![
        TokenV::IntLiteral(s),
        TokenV::Semi,
    ]);
}

/// Every word — a maximal alphanumeric run opened by a letter — lexes to a
/// single token: a keyword if the word is in the keyword set, an identifier
/// otherwise.
pub proof fn lemma_tokenize_word(s: Seq<char>)
    requires
        s.len() > 0,
        is_alpha_char(s[0]),
        forall|j: int| 0 <= j < s.len() ==> is_alnum_char(s[j]),
    ensures
        spec_tokenize(s) == Result::<Seq<TokenV>, LexError>::Ok(seq![word_token(s)]),
{
    assert(!is_space_char(s[0]));
    lemma_alnum_end(s, 1);
    assert(alnum_end(s, 1) == s.len());
    assert(s.subrange(0, s.len() as int) =~= s);
    assert(spec_lex_from(s, s.len() as nat) == Result::<Seq<TokenV>, LexError>::Ok(Seq::empty()));
    assert(seq![word_token(s)] + Seq::<TokenV>::empty() =~= seq![word_token(s)]);
}

/// Every keyword lexes to exactly the keyword token carrying it — never to
/// an identifier.
pub proof fn lemma_tokenize_keyword(k: Seq<char>)
    requires
        is_keyword(k),
    ensures
        spec_tokenize(k) == Result::<Seq<TokenV>, LexError>::Ok(seq![TokenV::Keyword(k)]),
        TokenV::Keyword(k) != TokenV::Identifier(k),
{
    reveal_strlit("return");
    reveal_strlit("if");
    reveal_strlit("else");
    reveal_strlit("true");
    reveal_strlit("false");
    lemma_tokenize_word(k);
}

/// Whether every character of `s` is whitespace.
pub open spec fn all_space(s: Seq<char>) -> bool {
    forall|j: int| 0 <= j < s.len() ==> is_space_char(s[j])
}

/// Lexing skips over a whitespace run.
proof fn lemma_lex_skip_ws_run(s: Seq<char>, i: nat, e: nat)
    requires
        i <= e <= s.len(),
        forall|m: int| i <= m < e ==> is_space_char(s[m]),
    ensures
        spec_lex_from(s, i) == spec_lex_from(s, e),
    decreases e - i,
{
    if i < e {
        assert(is_space_char(s[i as int]));
        lemma_lex_skip_ws_run(s, i + 1, e);
    }
}

/// The two sequences are identical from positions `a` and `b` on.
pub open spec fn suffix_aligned(s1: Seq<char>, s2: Seq<char>, a: nat, b: nat) -> bool {
    a <= s1.len() && b <= s2.len() && s1.len() - a == s2.len() - b && forall|m: int|
        0 <= m < s1.len() - a ==> #[trigger] s1[a + m] == #[trigger] s2[b + m]
}

proof fn lemma_aligned_step(s1: Seq<char>, s2: Seq<char>, a: nat, b: nat)
    requires
        suffix_aligned(s1, s2, a, b),
        a < s1.len(),
    ensures
        s1[a as int] == s2[b as int],
        suffix_aligned(s1, s2, a + 1, b + 1),
{
    assert(s1[a as int + 0] == s2[b as int + 0]);
    assert forall|m: int| 0 <= m < s1.len() - (a + 1) implies #[trigger] s1[a as int + 1 + m] == #[trigger] s2[b as int + 1 + m] by {
        assert(s1[a as int + (m + 1)] == s2[b as int + (m + 1)]);
    }
}

proof fn lemma_aligned_skip(s1: Seq<char>, s2: Seq<char>, a: nat, b: nat, d: nat)
    requires
        suffix_aligned(s1, s2, a, b),
        a + d <= s1.len(),
    ensures
        suffix_aligned(s1, s2, a + d, b + d),
        s1.subrange(a as int, (a + d) as int) == s2.subrange(b as int, (b + d) as int),
    decreases d,
{
    assert forall|m: int| 0 <= m < s1.len() - (a + d) implies #[trigger] s1[a as int + d + m] == #[trigger] s2[b as int + d + m] by {
        assert(s1[a as int + (m + d)] == s2[b as int + (m + d)]);
    }
    assert forall|m: int| 0 <= m < d implies #[trigger] s1.subrange(a as int, (a + d) as int)[m] == #[trigger] s2.subrange(
        b as int,
        (b + d) as int,
    )[m] by {
        assert(s1[a as int + m] == s2[b as int + m]);
    }
    assert(s1.subrange(a as int, (a + d) as int) =~= s2.subrange(b as int, (b + d) as int));
}

proof fn lemma_alnum_end_align(s1: Seq<char>, s2: Seq<char>, a: nat, b: nat)
    requires
        suffix_aligned(s1, s2, a, b),
    ensures
        alnum_end(s1, a) - a == alnum_end(s2, b) - b,
    decreases s1.len() - a,
{
    if a < s1.len() {
        lemma_aligned_step(s1, s2, a, b);
        if is_alnum_char(s1[a as int]) {
            lemma_alnum_end_align(s1, s2, a + 1, b + 1);
        }
    }
}

proof fn lemma_digit_end_align(s1: Seq<char>, s2: Seq<char>, a: nat, b: nat)
    requires
        suffix_aligned(s1, s2, a, b),
    ensures
        digit_end(s1, a) - a == digit_end(s2, b) - b,
    decreases s1.len() - a,
{
    if a < s1.len() {
        lemma_aligned_step(s1, s2, a, b);
        if is_digit_char(s1[a as int]) {
            lemma_digit_end_align(s1, s2, a + 1, b + 1);
        }
    }
}

proof fn lemma_until_end_align(s1: Seq<char>, s2: Seq<char>, a: nat, b: nat, stop: char)
    requires
        suffix_aligned(s1, s2, a, b),
    ensures
        until_end(s1, a, stop) - a == until_end(s2, b, stop) - b,
    decreases s1.len() - a,
{
    if a < s1.len() {
        lemma_aligned_step(s1, s2, a, b);
        if s1[a as int] != stop {
            lemma_until_end_align(s1, s2, a + 1, b + 1, stop);
        }
    }
}

proof fn lemma_match_from_align(s1: Seq<char>, s2: Seq<char>, a: nat, b: nat, k: nat)
    requires
        suffix_aligned(s1, s2, a, b),
    ensures
        spec_match_from(s1, a, k) == spec_match_from(s2, b, k),
    decreases spec_binary_table().len() - k,
{
    if k < spec_binary_table().len() {
        let lex = spec_binary_table()[k as int].op;
        if a + lex.len() <= s1.len() {
            lemma_aligned_skip(s1, s2, a, b, lex.len());
        }
        assert(spec_match_at(s1, a, lex) == spec_match_at(s2, b, lex));
        lemma_match_from_align(s1, s2, a, b, k + 1);
    }
}

/// At identical remainders, lexing yields identical tokens, or fails on
/// the same character.
proof fn lemma_lex_align(s1: Seq<char>, s2: Seq<char>, a: nat, b: nat)
    requires
        suffix_aligned(s1, s2, a, b),
    ensures
        match (spec_lex_from(s1, a), spec_lex_from(s2, b)) {
            (Result::Ok(t1), Result::Ok(t2)) => t1 == t2,
            (Result::Err(e1), Result::Err(e2)) => e1.character == e2.character,
            _ => false,
        },
    decreases s1.len() - a,
{
    if a < s1.len() {
        lemma_aligned_step(s1, s2, a, b);
        let c = s1[a as int];
        if is_space_char(c) || c == ';' || c == '(' || c == ')' || c == '{' || c == '}' || c
            == ',' {
            lemma_lex_align(s1, s2, a + 1, b + 1);
        } else if is_alpha_char(c) {
            lemma_alnum_end_align(s1, s2, a + 1, b + 1);
            lemma_alnum_end(s1, a + 1);
            let j1 = alnum_end(s1, a + 1);
            let j2 = alnum_end(s2, b + 1);
            lemma_aligned_skip(s1, s2, a, b, (j1 - a) as nat);
            assert(s1.subrange(a as int, j1 as int) == s2.subrange(b as int, j2 as int));
            lemma_lex_align(s1, s2, j1, j2);
        } else if c == '"' {
            lemma_until_end_align(s1, s2, a + 1, b + 1, '"');
            lemma_until_end(s1, a + 1, '"');
            let q1 = until_end(s1, a + 1, '"');
            let q2 = until_end(s2, b + 1, '"');
            if q1 < s1.len() {
                lemma_aligned_skip(s1, s2, a + 1, b + 1, (q1 - (a + 1)) as nat);
                assert(s1.subrange(a as int + 1, q1 as int) == s2.subrange(b as int + 1, q2 as int));
                lemma_aligned_step(s1, s2, q1, q2);
                lemma_lex_align(s1, s2, q1 + 1, q2 + 1);
            }
        } else if is_digit_char(c) {
            lemma_digit_end_align(s1, s2, a + 1, b + 1);
            lemma_digit_end(s1, a + 1);
            let j1 = digit_end(s1, a + 1);
            let j2 = digit_end(s2, b + 1);
            lemma_aligned_skip(s1, s2, a, b, (j1 - a) as nat);
            assert(s1.subrange(a as int, j1 as int) == s2.subrange(b as int, j2 as int));
            lemma_lex_align(s1, s2, j1, j2);
        } else {
            lemma_match_from_align(s1, s2, a, b, 0);
            match spec_match_op(s1, a) {
                Some(op) => {
                    crate::tokenizer::lemma_match_op_bounds(s1, a);
                    lemma_aligned_skip(s1, s2, a, b, op.op.len());
                    lemma_lex_align(s1, s2, a + op.op.len(), b + op.op.len());
                },
                None => {},
            }
        }
    }
}

proof fn lemma_concat3_index(u: Seq<char>, x: Seq<char>, v: Seq<char>)
    ensures
        (u + x + v).len() == u.len() + x.len() + v.len(),
        forall|m: int| 0 <= m < u.len() ==> #[trigger] (u + x + v)[m] == u[m],
        forall|m: int| 0 <= m < x.len() ==> #[trigger] (u + x + v)[u.len() + m] == x[m],
        forall|m: int| 0 <= m < v.len() ==> #[trigger] (u + x + v)[u.len() + x.len() + m] == v[m],
{
    assert forall|m: int| 0 <= m < u.len() implies #[trigger] (u + x + v)[m] == u[m] by {
        assert((u + x + v)[m] == (u + x)[m]);
    }
    assert forall|m: int| 0 <= m < x.len() implies #[trigger] (u + x + v)[u.len() + m] == x[m] by {
        assert((u + x + v)[u.len() + m] == (u + x)[u.len() + m]);
    }
}

proof fn lemma_alnum_end_prefix(u: Seq<char>, w: Seq<char>, i: nat)
    requires
        i <= u.len(),
        w.len() > u.len(),
        forall|m: int| 0 <= m < u.len() ==> #[trigger] w[m] == u[m],
        !is_alnum_char(w[u.len() as int]),
    ensures
        alnum_end(w, i) == alnum_end(u, i),
    decreases u.len() - i,
{
    if i < u.len() {
        assert(w[i as int] == u[i as int]);
        if is_alnum_char(u[i as int]) {
            lemma_alnum_end_prefix(u, w, i + 1);
        }
    }
}

proof fn lemma_digit_end_prefix(u: Seq<char>, w: Seq<char>, i: nat)
    requires
        i <= u.len(),
        w.len() > u.len(),
        forall|m: int| 0 <= m < u.len() ==> #[trigger] w[m] == u[m],
        !is_digit_char(w[u.len() as int]),
    ensures
        digit_end(w, i) == digit_end(u, i),
    decreases u.len() - i,
{
    if i < u.len() {
        assert(w[i as int] == u[i as int]);
        if is_digit_char(u[i as int]) {
            lemma_digit_end_prefix(u, w, i + 1);
        }
    }
}

proof fn lemma_until_end_prefix(u: Seq<char>, w: Seq<char>, i: nat, stop: char)
    requires
        i <= u.len(),
        w.len() > u.len(),
        forall|m: int| 0 <= m < u.len() ==> #[trigger] w[m] == u[m],
        until_end(u, i, stop) < u.len(),
    ensures
        until_end(w, i, stop) == until_end(u, i, stop),
    decreases u.len() - i,
{
    if i < u.len() {
        assert(w[i as int] == u[i as int]);
        if u[i as int] != stop {
            lemma_until_end_prefix(u, w, i + 1, stop);
        }
    }
}

/// No operator lexeme of the table holds a whitespace character.
proof fn lemma_table_no_space()
    ensures
        forall|k: int, m: int|
            0 <= k < spec_binary_table().len() && 0 <= m < spec_binary_table()[k].op.len()
                ==> !is_space_char(#[trigger] spec_binary_table()[k].op[m]),
{
    reveal_strlit("||");
    reveal_strlit("&&");
    reveal_strlit("<=");
    reveal_strlit(">=");
    reveal_strlit("==");
    reveal_strlit("!=");
    reveal_strlit("<");
    reveal_strlit(">");
    reveal_strlit("+");
    reveal_strlit("-");
    reveal_strlit("*");
    reveal_strlit("/");
    reveal_strlit("%");
}

proof fn lemma_match_from_prefix(u: Seq<char>, w: Seq<char>, i: nat, k: nat)
    requires
        i <= u.len(),
        w.len() > u.len(),
        forall|m: int| 0 <= m < u.len() ==> #[trigger] w[m] == u[m],
        is_space_char(w[u.len() as int]),
    ensures
        spec_match_from(u, i, k) == spec_match_from(w, i, k),
    decreases spec_binary_table().len() - k,
{
    if k < spec_binary_table().len() {
        let lex = spec_binary_table()[k as int].op;
        lemma_table_no_space();
        if i + lex.len() <= u.len() {
            assert forall|m: int| 0 <= m < lex.len() implies #[trigger] u.subrange(
                i as int,
                (i + lex.len()) as int,
            )[m] == w.subrange(i as int, (i + lex.len()) as int)[m] by {
                assert(w[i + m] == u[i + m]);
            }
            assert(u.subrange(i as int, (i + lex.len()) as int) =~= w.subrange(
                i as int,
                (i + lex.len()) as int,
            ));
            assert(spec_match_at(u, i, lex) == spec_match_at(w, i, lex));
        } else {
            assert(!spec_match_at(u, i, lex));
            if i + lex.len() <= w.len() {
                let p = u.len() - i;
                assert(0 <= p < lex.len());
                assert(w.subrange(i as int, (i + lex.len()) as int)[p as int] == w[u.len() as int]);
                assert(!is_space_char(lex[p as int]));
                assert(w.subrange(i as int, (i + lex.len()) as int) != lex);
            }
            assert(!spec_match_at(w, i, lex));
        }
        lemma_match_from_prefix(u, w, i, k + 1);
    }
}

/// In the region before the changed whitespace run, both inputs lex step
/// for step as the unchanged prefix does.
proof fn lemma_lex_prefix_phase(u: Seq<char>, ws1: Seq<char>, ws2: Seq<char>, v: Seq<char>, i: nat)
    requires
        i <= u.len(),
        spec_lex_from(u, i) is Ok,
        ws1.len() > 0,
        all_space(ws1),
        ws2.len() > 0,
        all_space(ws2),
    ensures
        match (spec_lex_from(u + ws1 + v, i), spec_lex_from(u + ws2 + v, i)) {
            (Result::Ok(t1), Result::Ok(t2)) => t1 == t2,
            (Result::Err(e1), Result::Err(e2)) => e1.character == e2.character,
            _ => false,
        },
    decreases u.len() - i,
{
    let s1 = u + ws1 + v;
    let s2 = u + ws2 + v;
    lemma_concat3_index(u, ws1, v);
    lemma_concat3_index(u, ws2, v);
    assert(is_space_char(s1[u.len() as int])) by {
        assert(s1[u.len() as int + 0] == ws1[0]);
    }
    assert(is_space_char(s2[u.len() as int])) by {
        assert(s2[u.len() as int + 0] == ws2[0]);
    }
    if i == u.len() {
        let e1 = (u.len() + ws1.len()) as nat;
        let e2 = (u.len() + ws2.len()) as nat;
        assert forall|m: int| i <= m < e1 implies is_space_char(s1[m]) by {
            assert(s1[u.len() + (m - u.len())] == ws1[m - u.len()]);
        }
        assert forall|m: int| i <= m < e2 implies is_space_char(s2[m]) by {
            assert(s2[u.len() + (m - u.len())] == ws2[m - u.len()]);
        }
        lemma_lex_skip_ws_run(s1, i, e1);
        lemma_lex_skip_ws_run(s2, i, e2);
        assert(suffix_aligned(s1, s2, e1, e2)) by {
            assert forall|m: int| 0 <= m < s1.len() - e1 implies #[trigger] s1[e1 + m]
                == #[trigger] s2[e2 + m] by {
                assert(s1[u.len() + ws1.len() + m] == v[m]);
                assert(s2[u.len() + ws2.len() + m] == v[m]);
            }
        }
        lemma_lex_align(s1, s2, e1, e2);
    } else {
        let c = u[i as int];
        assert(s1[i as int] == c);
        assert(s2[i as int] == c);
        if is_space_char(c) || c == ';' || c == '(' || c == ')' || c == '{' || c == '}' || c
            == ',' {
            lemma_lex_prefix_phase(u, ws1, ws2, v, i + 1);
        } else if is_alpha_char(c) {
            lemma_alnum_end(u, i + 1);
            let ju = alnum_end(u, i + 1);
            lemma_alnum_end_prefix(u, s1, i + 1);
            lemma_alnum_end_prefix(u, s2, i + 1);
            assert forall|m: int| 0 <= m < ju - i implies #[trigger] s1.subrange(
                i as int,
                ju as int,
            )[m] == #[trigger] s2.subrange(i as int, ju as int)[m] by {
                assert(s1[i + m] == u[i + m]);
                assert(s2[i + m] == u[i + m]);
            }
            assert(s1.subrange(i as int, ju as int) =~= s2.subrange(i as int, ju as int));
            assert(spec_lex_from(u, ju) is Ok);
            lemma_lex_prefix_phase(u, ws1, ws2, v, ju);
        } else if c == '"' {
            lemma_until_end(u, i + 1, '"');
            let qu = until_end(u, i + 1, '"');
            assert(qu < u.len());
            lemma_until_end_prefix(u, s1, i + 1, '"');
            lemma_until_end_prefix(u, s2, i + 1, '"');
            assert forall|m: int| 0 <= m < qu - (i + 1) implies #[trigger] s1.subrange(
                i + 1 as int,
                qu as int,
            )[m] == #[trigger] s2.subrange(i + 1 as int, qu as int)[m] by {
                assert(s1[i + 1 + m] == u[i + 1 + m]);
                assert(s2[i + 1 + m] == u[i + 1 + m]);
            }
            assert(s1.subrange(i + 1 as int, qu as int) =~= s2.subrange(i + 1 as int, qu as int));
            assert(spec_lex_from(u, (qu + 1) as nat) is Ok);
            lemma_lex_prefix_phase(u, ws1, ws2, v, (qu + 1) as nat);
        } else if is_digit_char(c) {
            lemma_digit_end(u, i + 1);
            let ju = digit_end(u, i + 1);
            lemma_digit_end_prefix(u, s1, i + 1);
            lemma_digit_end_prefix(u, s2, i + 1);
            assert forall|m: int| 0 <= m < ju - i implies #[trigger] s1.subrange(
                i as int,
                ju as int,
            )[m] == #[trigger] s2.subrange(i as int, ju as int)[m] by {
                assert(s1[i + m] == u[i + m]);
                assert(s2[i + m] == u[i + m]);
            }
            assert(s1.subrange(i as int, ju as int) =~= s2.subrange(i as int, ju as int));
            assert(spec_lex_from(u, ju) is Ok);
            lemma_lex_prefix_phase(u, ws1, ws2, v, ju);
        } else {
            lemma_match_from_prefix(u, s1, i, 0);
            lemma_match_from_prefix(u, s2, i, 0);
            match spec_match_op(u, i) {
                Some(op) => {
                    crate::tokenizer::lemma_match_op_bounds(u, i);
                    assert(spec_lex_from(u, i + op.op.len()) is Ok);
                    lemma_lex_prefix_phase(u, ws1, ws2, v, i + op.op.len());
                },
                None => {
                    assert(false);
                },
            }
        }
    }
}

/// Whitespace between tokens carries no meaning: changing one nonempty
/// whitespace run standing at a token boundary for another never changes
/// the emitted token sequence — both inputs lex to the same tokens, or
/// both fail on the same character.
pub proof fn lemma_tokenize_ws_insensitive(
    u: Seq<char>,
    ws1: Seq<char>,
    ws2: Seq<char>,
    v: Seq<char>,
)
    requires
        spec_tokenize(u) is Ok,
        ws1.len() > 0,
        all_space(ws1),
        ws2.len() > 0,
        all_space(ws2),
    ensures
        match (spec_tokenize(u + ws1 + v), spec_tokenize(u + ws2 + v)) {
            (Result::Ok(t1), Result::Ok(t2)) => t1 == t2,
            (Result::Err(e1), Result::Err(e2)) => e1.character == e2.character,
            _ => false,
        },
{
    lemma_lex_prefix_phase(u, ws1, ws2, v, 0);
}

} // verus!
