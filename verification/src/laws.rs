use vstd::prelude::*;

use crate::chars::{all_decimal_digits, alphabetic, decimal_digit, decimal_value, numeric};
use crate::lexer::LexerError;
use crate::model::{
    identifier_continue, identifier_run_end, keyword_token, lemma_identifier_run_chars,
    lemma_identifier_run_end_bounds, lemma_number_run_end_all, lemma_number_run_end_bounds,
    lex_from, lex_spec, line_break_from, line_start, line_text, number_run_end,
    parses_as_i64, punctuation_token, span_before, span_slices_lexeme,
};
use crate::token::{SpannedModel, TokenModel};

verus! {

proof fn lemma_line_break_from_props(s: Seq<char>, k: int)
    requires
        0 <= k <= s.len(),
    ensures
        k <= line_break_from(s, k) <= s.len(),
        forall|m: int| k <= m < line_break_from(s, k) ==> #[trigger] s[m] != '\n',
        line_break_from(s, k) < s.len() ==> s[line_break_from(s, k)] == '\n',
    decreases s.len() - k,
{
    if k < s.len() && s[k] != '\n' {
        lemma_line_break_from_props(s, k + 1);
    }
}

proof fn lemma_line_break_from_stable(s: Seq<char>, k: int, b: int)
    requires
        0 <= k <= b <= s.len(),
        forall|m: int| k <= m < b ==> #[trigger] s[m] != '\n',
    ensures
        line_break_from(s, k) == line_break_from(s, b),
    decreases b - k,
{
    if k < b {
        lemma_line_break_from_stable(s, k + 1, b);
    }
}

/// The induction behind the round trip: from any scan position whose line
/// begins `col` characters back and holds no newline up to the position,
/// every token of a successful scan slices its lexeme out of the source.
proof fn lemma_lex_from_spans(s: Seq<char>, i: int, line: int, col: int, ts: Seq<SpannedModel>)
    requires
        0 <= col <= i <= s.len(),
        0 <= line,
        line_start(s, line) == i - col,
        forall|m: int| i - col <= m < i ==> #[trigger] s[m] != '\n',
        lex_from(s, i, line, col) == Ok::<Seq<SpannedModel>, LexerError>(ts),
    ensures
        forall|k: int| 0 <= k < ts.len() ==> span_slices_lexeme(s, #[trigger] ts[k]),
    decreases s.len() - i,
{
    if i >= s.len() {
        // nothing left: no tokens
    } else {
        let c = s[i];
        match punctuation_token(c) {
            Some(tok) => {
                let m = SpannedModel { token: tok, line, start: col, end: col };
                match lex_from(s, i + 1, line, col + 1) {
                    Ok(rs) => {
                        assert(ts == seq![m] + rs);
                        lemma_lex_from_spans(s, i + 1, line, col + 1, rs);
                        lemma_line_break_from_stable(s, i - col, i + 1);
                        lemma_line_break_from_props(s, i + 1);
                        assert(line_text(s, line).subrange(col, col + 1) =~= seq![c]);
                        assert(span_slices_lexeme(s, m));
                        assert forall|k: int| 0 <= k < ts.len() implies span_slices_lexeme(
                            s,
                            #[trigger] ts[k],
                        ) by {
                            if k == 0 {
                                assert(ts[k] == m);
                            } else {
                                assert(ts[k] == rs[k - 1]);
                            }
                        }
                    },
                    Err(_) => {
                        assert(false);
                    },
                }
            },
            None => {
                if alphabetic(c) {
                    let j = identifier_run_end(s, i + 1);
                    lemma_identifier_run_end_bounds(s, i + 1);
                    lemma_identifier_run_chars(s, i + 1);
                    let text = s.subrange(i, j);
                    let token = match keyword_token(text) {
                        Some(k) => k,
                        None => TokenModel::Identifier(text),
                    };
                    let m = SpannedModel { token, line, start: col, end: col + (j - i) - 1 };
                    assert(forall|q: int| i <= q < j ==> #[trigger] s[q] != '\n') by {
                        assert(forall|q: int|
                            i + 1 <= q < j ==> identifier_continue(#[trigger] s[q]));
                    }
                    match lex_from(s, j, line, col + (j - i)) {
                        Ok(rs) => {
                            assert(ts == seq![m] + rs);
                            lemma_lex_from_spans(s, j, line, col + (j - i), rs);
                            lemma_line_break_from_stable(s, i - col, j);
                            lemma_line_break_from_props(s, j);
                            assert(line_text(s, line).subrange(col, col + (j - i)) =~= text);
                            match keyword_token(text) {
                                Some(k) => {
                                    if text.len() == 2 {
                                        assert(text =~= seq!['f', 'n']);
                                    } else if text.len() == 3 {
                                        assert(text =~= seq!['i', '3', '2']);
                                    } else if text.len() == 6 {
                                        assert(text =~= seq!['r', 'e', 't', 'u', 'r', 'n']);
                                    } else {
                                        assert(text =~= seq!['v', 'o', 'i', 'd']);
                                    }
                                },
                                None => {},
                            }
                            assert(span_slices_lexeme(s, m));
                            assert forall|k: int| 0 <= k < ts.len() implies span_slices_lexeme(
                                s,
                                #[trigger] ts[k],
                            ) by {
                                if k == 0 {
                                    assert(ts[k] == m);
                                } else {
                                    assert(ts[k] == rs[k - 1]);
                                }
                            }
                        },
                        Err(_) => {
                            assert(false);
                        },
                    }
                } else if numeric(c) || c == '_' {
                    let j = number_run_end(s, i + 1);
                    lemma_number_run_end_bounds(s, i + 1);
                    let text = s.subrange(i, j);
                    if parses_as_i64(text) {
                        let m = SpannedModel {
                            token: TokenModel::Integer(decimal_value(text)),
                            line,
                            start: col,
                            end: col + (j - i) - 1,
                        };
                        assert forall|q: int| i <= q < j implies #[trigger] s[q] != '\n' by {
                            assert(text[q - i] == s[q]);
                            assert(decimal_digit(text[q - i]));
                        }
                        match lex_from(s, j, line, col + (j - i)) {
                            Ok(rs) => {
                                assert(ts == seq![m] + rs);
                                lemma_lex_from_spans(s, j, line, col + (j - i), rs);
                                lemma_line_break_from_stable(s, i - col, j);
                                lemma_line_break_from_props(s, j);
                                assert(line_text(s, line).subrange(col, col + (j - i)) =~= text);
                                assert(span_slices_lexeme(s, m));
                                assert forall|k: int| 0 <= k < ts.len() implies span_slices_lexeme(
                                    s,
                                    #[trigger] ts[k],
                                ) by {
                                    if k == 0 {
                                        assert(ts[k] == m);
                                    } else {
                                        assert(ts[k] == rs[k - 1]);
                                    }
                                }
                            },
                            Err(_) => {
                                assert(false);
                            },
                        }
                    } else {
                        assert(false);
                    }
                } else if c == '\n' {
                    lemma_line_break_from_stable(s, i - col, i);
                    lemma_lex_from_spans(s, i + 1, line + 1, 0, ts);
                } else {
                    assert(false);
                }
            },
        }
    }
}

/// The induction behind the ordering law: every token of a scan from
/// `(i, line, col)` lies at or after that position, and any two tokens come
/// in source order.
proof fn lemma_lex_from_ordered(s: Seq<char>, i: int, line: int, col: int, ts: Seq<SpannedModel>)
    requires
        0 <= col <= i <= s.len(),
        0 <= line,
        lex_from(s, i, line, col) == Ok::<Seq<SpannedModel>, LexerError>(ts),
    ensures
        forall|k: int|
            0 <= k < ts.len() ==> (#[trigger] ts[k]).line > line || (ts[k].line == line
                && ts[k].start >= col),
        forall|k1: int, k2: int|
            0 <= k1 < k2 < ts.len() ==> span_before(#[trigger] ts[k1], #[trigger] ts[k2]),
    decreases s.len() - i,
{
    if i >= s.len() {
        // nothing left: no tokens
    } else {
        let c = s[i];
        match punctuation_token(c) {
            Some(tok) => {
                let m = SpannedModel { token: tok, line, start: col, end: col };
                match lex_from(s, i + 1, line, col + 1) {
                    Ok(rs) => {
                        assert(ts == seq![m] + rs);
                        lemma_lex_from_ordered(s, i + 1, line, col + 1, rs);
                        assert(forall|k: int| 1 <= k < ts.len() ==> ts[k] == rs[k - 1]);
                    },
                    Err(_) => {
                        assert(false);
                    },
                }
            },
            None => {
                if alphabetic(c) {
                    let j = identifier_run_end(s, i + 1);
                    lemma_identifier_run_end_bounds(s, i + 1);
                    let text = s.subrange(i, j);
                    let token = match keyword_token(text) {
                        Some(k) => k,
                        None => TokenModel::Identifier(text),
                    };
                    let m = SpannedModel { token, line, start: col, end: col + (j - i) - 1 };
                    match lex_from(s, j, line, col + (j - i)) {
                        Ok(rs) => {
                            assert(ts == seq![m] + rs);
                            lemma_lex_from_ordered(s, j, line, col + (j - i), rs);
                            assert(forall|k: int| 1 <= k < ts.len() ==> ts[k] == rs[k - 1]);
                        },
                        Err(_) => {
                            assert(false);
                        },
                    }
                } else if numeric(c) || c == '_' {
                    let j = number_run_end(s, i + 1);
                    lemma_number_run_end_bounds(s, i + 1);
                    let text = s.subrange(i, j);
                    if parses_as_i64(text) {
                        let m = SpannedModel {
                            token: TokenModel::Integer(decimal_value(text)),
                            line,
                            start: col,
                            end: col + (j - i) - 1,
                        };
                        match lex_from(s, j, line, col + (j - i)) {
                            Ok(rs) => {
                                assert(ts == seq![m] + rs);
                                lemma_lex_from_ordered(s, j, line, col + (j - i), rs);
                                assert(forall|k: int| 1 <= k < ts.len() ==> ts[k] == rs[k - 1]);
                            },
                            Err(_) => {
                                assert(false);
                            },
                        }
                    } else {
                        assert(false);
                    }
                } else if c == '\n' {
                    lemma_lex_from_ordered(s, i + 1, line + 1, 0, ts);
                } else {
                    assert(false);
                }
            },
        }
    }
}

/// Tokens come in order of occurrence in the source: line numbers never
/// decrease in emission order, and within a line the spans are disjoint and
/// strictly ordered — each token ends before the next one begins.
pub proof fn lemma_tokens_in_source_order(s: Seq<char>, ts: Seq<SpannedModel>)
    requires
        lex_spec(s) == Ok::<Seq<SpannedModel>, LexerError>(ts),
    ensures
        forall|k1: int, k2: int|
            0 <= k1 < k2 < ts.len() ==> span_before(#[trigger] ts[k1], #[trigger] ts[k2]),
{
    lemma_lex_from_ordered(s, 0, 0, 0, ts);
}

/// Round trip: for any accepted source text, re-slicing the text by each
/// token's line, start and end reproduces exactly the lexeme that token
/// stands for; every span lies inside its line, with `start <= end`.
pub proof fn lemma_tokens_reslice_source(s: Seq<char>, ts: Seq<SpannedModel>)
    requires
        lex_spec(s) == Ok::<Seq<SpannedModel>, LexerError>(ts),
    ensures
        forall|k: int| 0 <= k < ts.len() ==> span_slices_lexeme(s, #[trigger] ts[k]),
{
    lemma_lex_from_spans(s, 0, 0, 0, ts);
}

/// A string of decimal digits whose value fits in a 64-bit signed integer
/// tokenizes to exactly one `Integer` token carrying that value, at line 0,
/// spanning the whole string: the span's length is one less than the
/// string's.
pub proof fn lemma_digit_string(s: Seq<char>)
    requires
        s.len() >= 1,
        all_decimal_digits(s),
        decimal_value(s) <= i64::MAX,
    ensures
        lex_spec(s) == Ok::<Seq<SpannedModel>, LexerError>(
            seq![
                SpannedModel {
                    token: TokenModel::Integer(decimal_value(s)),
                    line: 0,
                    start: 0,
                    end: s.len() - 1,
                },
            ],
        ),
{
    let c = s[0];
    assert(decimal_digit(c));
    assert(punctuation_token(c) is None);
    assert(!alphabetic(c));
    assert(numeric(c));
    assert(forall|k: int| 1 <= k < s.len() ==> numeric(#[trigger] s[k]));
    lemma_number_run_end_all(s, 1);
    let j = number_run_end(s, 1);
    assert(s.subrange(0, j) =~= s);
    let m = SpannedModel {
        token: TokenModel::Integer(decimal_value(s)),
        line: 0,
        start: 0,
        end: s.len() - 1,
    };
    assert(lex_from(s, j, 0, j) == Ok::<Seq<SpannedModel>, LexerError>(Seq::empty()));
    assert(seq![m] + Seq::<SpannedModel>::empty() =~= seq![m]);
}

/// A string of decimal digits whose value exceeds `i64::MAX` fails with
/// `FailedToParseInteger`.
pub proof fn lemma_overflowing_digit_string(s: Seq<char>)
    requires
        s.len() >= 1,
        all_decimal_digits(s),
        decimal_value(s) > i64::MAX,
    ensures
        lex_spec(s) == Err::<Seq<SpannedModel>, LexerError>(LexerError::FailedToParseInteger),
{
    let c = s[0];
    assert(decimal_digit(c));
    assert(punctuation_token(c) is None);
    assert(!alphabetic(c));
    assert(numeric(c));
    assert(forall|k: int| 1 <= k < s.len() ==> numeric(#[trigger] s[k]));
    lemma_number_run_end_all(s, 1);
    assert(s.subrange(0, number_run_end(s, 1)) =~= s);
}

/// Lookahead-then-consume: the character that ends an identifier run is
/// not swallowed but dispatched next. A text of one identifier run followed
/// by one punctuation character yields the run's token, then the
/// punctuation token at the column just past the run.
pub proof fn lemma_run_breaker_dispatched(s: Seq<char>, j: int)
    requires
        s.len() >= 2,
        j == s.len() - 1,
        alphabetic(s[0]),
        identifier_run_end(s, 1) == j,
        punctuation_token(s[j]) is Some,
    ensures
        ({
            let text = s.subrange(0, j);
            let first = match keyword_token(text) {
                Some(k) => k,
                None => TokenModel::Identifier(text),
            };
            lex_spec(s) == Ok::<Seq<SpannedModel>, LexerError>(
                seq![
                    SpannedModel { token: first, line: 0, start: 0, end: j - 1 },
                    SpannedModel {
                        token: punctuation_token(s[j])->Some_0,
                        line: 0,
                        start: j,
                        end: j,
                    },
                ],
            )
        }),
{
    let text = s.subrange(0, j);
    let first = match keyword_token(text) {
        Some(k) => k,
        None => TokenModel::Identifier(text),
    };
    let m1 = SpannedModel { token: first, line: 0, start: 0, end: j - 1 };
    let m2 = SpannedModel { token: punctuation_token(s[j])->Some_0, line: 0, start: j, end: j };
    assert(punctuation_token(s[0]) is None);
    assert(lex_from(s, s.len() as int, 0, s.len() as int) == Ok::<
        Seq<SpannedModel>,
        LexerError,
    >(Seq::empty()));
    assert(seq![m2] + Seq::<SpannedModel>::empty() =~= seq![m2]);
    assert(lex_from(s, j, 0, j) == Ok::<Seq<SpannedModel>, LexerError>(seq![m2]));
    assert(lex_spec(s) == crate::model::with_token(m1, lex_from(s, j, 0, j)));
    assert(seq![m1] + seq![m2] =~= seq![m1, m2]);
}

/// The run's breaker may itself fail the next dispatch: a text of one
/// identifier run followed by one character that no rule matches — a space,
/// say — fails with `UnrecognizedLexeme`, although the run itself was fine.
pub proof fn lemma_run_breaker_unrecognized(s: Seq<char>, j: int)
    requires
        s.len() >= 2,
        j == s.len() - 1,
        alphabetic(s[0]),
        identifier_run_end(s, 1) == j,
        punctuation_token(s[j]) is None,
        !alphabetic(s[j]),
        !numeric(s[j]),
        s[j] != '_',
        s[j] != '\n',
    ensures
        lex_spec(s) == Err::<Seq<SpannedModel>, LexerError>(LexerError::UnrecognizedLexeme),
{
    assert(lex_from(s, j, 0, j) == Err::<Seq<SpannedModel>, LexerError>(
        LexerError::UnrecognizedLexeme,
    ));
}

/// A standalone character outside the punctuation set that is neither
/// alphabetic, numeric, underscore nor newline fails with
/// `UnrecognizedLexeme`. Space and tab are such characters: whitespace
/// other than newline is not skipped.
pub proof fn lemma_unrecognized_character(c: char)
    requires
        punctuation_token(c) is None,
        !alphabetic(c),
        !numeric(c),
        c != '_',
        c != '\n',
    ensures
        lex_spec(seq![c]) == Err::<Seq<SpannedModel>, LexerError>(LexerError::UnrecognizedLexeme),
{
    assert(seq![c].len() == 1 && seq![c][0] == c);
}

} // verus!
