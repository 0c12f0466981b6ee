use vstd::prelude::*;

use crate::chars::{all_decimal_digits, alphabetic, decimal_value, numeric};
use crate::lexer::LexerError;
use crate::token::{SpannedModel, SpannedToken, TokenModel};

verus! {

/// A character that may continue an identifier run: alphanumeric or
/// underscore. The character that first fails this test ends the run and is
/// left for the next dispatch cycle.
pub open spec fn identifier_continue(c: char) -> bool {
    alphabetic(c) || numeric(c) || c == '_'
}

/// Where an identifier run that has reached position `i` ends: the first
/// position at or after `i` whose character no longer continues the run.
pub open spec fn identifier_run_end(s: Seq<char>, i: int) -> int
    decreases s.len() - i
        when 0 <= i <= s.len()
{
    if i < s.len() && identifier_continue(s[i]) {
        identifier_run_end(s, i + 1)
    } else {
        i
    }
}

/// Where a number run that has reached position `i` ends. Only numeric
/// characters continue a number run; the underscore, though it may start
/// one, does not.
pub open spec fn number_run_end(s: Seq<char>, i: int) -> int
    decreases s.len() - i
        when 0 <= i <= s.len()
{
    if i < s.len() && numeric(s[i]) {
        number_run_end(s, i + 1)
    } else {
        i
    }
}

pub proof fn lemma_identifier_run_end_bounds(s: Seq<char>, i: int)
    requires
        0 <= i <= s.len(),
    ensures
        i <= identifier_run_end(s, i) <= s.len(),
    decreases s.len() - i,
{
    if i < s.len() && identifier_continue(s[i]) {
        lemma_identifier_run_end_bounds(s, i + 1);
    }
}

pub proof fn lemma_number_run_end_bounds(s: Seq<char>, i: int)
    requires
        0 <= i <= s.len(),
    ensures
        i <= number_run_end(s, i) <= s.len(),
    decreases s.len() - i,
{
    if i < s.len() && numeric(s[i]) {
        lemma_number_run_end_bounds(s, i + 1);
    }
}

/// Every character inside an identifier run continues it.
pub proof fn lemma_identifier_run_chars(s: Seq<char>, i: int)
    requires
        0 <= i <= s.len(),
    ensures
        forall|k: int|
            i <= k < identifier_run_end(s, i) ==> identifier_continue(#[trigger] s[k]),
    decreases s.len() - i,
{
    if i < s.len() && identifier_continue(s[i]) {
        lemma_identifier_run_chars(s, i + 1);
    }
}

/// A number run whose characters are all numeric up to the end of the text
/// runs to the end of the text.
pub proof fn lemma_number_run_end_all(s: Seq<char>, i: int)
    requires
        0 <= i <= s.len(),
        forall|k: int| i <= k < s.len() ==> numeric(#[trigger] s[k]),
    ensures
        number_run_end(s, i) == s.len(),
    decreases s.len() - i,
{
    if i < s.len() {
        lemma_number_run_end_all(s, i + 1);
    }
}

/// The reserved-word token for an exact spelling, if the spelling is one of
/// the four keywords of the keyword table.
pub open spec fn keyword_token(text: Seq<char>) -> Option<TokenModel> {
    if text.len() == 2 && text[0] == 'f' && text[1] == 'n' {
        Some(TokenModel::Fn)
    } else if text.len() == 3 && text[0] == 'i' && text[1] == '3' && text[2] == '2' {
        Some(TokenModel::I32)
    } else if text.len() == 6 && text[0] == 'r' && text[1] == 'e' && text[2] == 't' && text[3]
        == 'u' && text[4] == 'r' && text[5] == 'n' {
        Some(TokenModel::Return)
    } else if text.len() == 4 && text[0] == 'v' && text[1] == 'o' && text[2] == 'i' && text[3]
        == 'd' {
        Some(TokenModel::Void)
    } else {
        None
    }
}

/// The token of a single-character punctuation lexeme, if the character is
/// one of the five the language knows.
pub open spec fn punctuation_token(c: char) -> Option<TokenModel> {
    if c == '(' {
        Some(TokenModel::LeftParen)
    } else if c == ')' {
        Some(TokenModel::RightParen)
    } else if c == '{' {
        Some(TokenModel::LeftCurlyBrace)
    } else if c == '}' {
        Some(TokenModel::RightCurlyBrace)
    } else if c == ':' {
        Some(TokenModel::Colon)
    } else {
        None
    }
}

/// Whether a number run parses as a 64-bit signed integer: every character
/// an ASCII decimal digit and the value within range. A run led by an
/// underscore, or holding a numeric character outside ASCII, fails.
pub open spec fn parses_as_i64(text: Seq<char>) -> bool {
    all_decimal_digits(text) && decimal_value(text) <= i64::MAX
}

/// Puts one token in front of the rest of a scan's outcome. An error wins:
/// the tokens matched before it are discarded from the result.
pub open spec fn with_token(
    t: SpannedModel,
    rest: Result<Seq<SpannedModel>, LexerError>,
) -> Result<Seq<SpannedModel>, LexerError> {
    match rest {
        Ok(ts) => Ok(seq![t] + ts),
        Err(e) => Err(e),
    }
}

/// Puts already-emitted tokens in front of the rest of a scan's outcome.
pub open spec fn with_tokens(
    ts: Seq<SpannedModel>,
    rest: Result<Seq<SpannedModel>, LexerError>,
) -> Result<Seq<SpannedModel>, LexerError> {
    match rest {
        Ok(rs) => Ok(ts + rs),
        Err(e) => Err(e),
    }
}

pub proof fn lemma_with_tokens_empty(rest: Result<Seq<SpannedModel>, LexerError>)
    ensures
        with_tokens(Seq::empty(), rest) == rest,
{
    match rest {
        Ok(rs) => {
            assert(Seq::<SpannedModel>::empty() + rs =~= rs);
        },
        Err(_) => {},
    }
}

pub proof fn lemma_with_tokens_push(
    ts: Seq<SpannedModel>,
    t: SpannedModel,
    rest: Result<Seq<SpannedModel>, LexerError>,
)
    ensures
        with_tokens(ts, with_token(t, rest)) == with_tokens(ts.push(t), rest),
{
    match rest {
        Ok(rs) => {
            assert(ts + (seq![t] + rs) =~= ts.push(t) + rs);
        },
        Err(_) => {},
    }
}

/// What scanning yields from position `i` on, when the character at `i` (if
/// any) stands at 0-based column `col` of 0-based line `line`: the tokens of
/// the rest of the text, or the first lexical error. This is the reference
/// the scanner is verified against.
pub open spec fn lex_from(s: Seq<char>, i: int, line: int, col: int) -> Result<
    Seq<SpannedModel>,
    LexerError,
>
    decreases s.len() - i
        when 0 <= i <= s.len()
        via lex_from_decreases
{
    if i >= s.len() {
        Ok(Seq::empty())
    } else {
        let c = s[i];
        match punctuation_token(c) {
            Some(tok) => with_token(
                SpannedModel { token: tok, line, start: col, end: col },
                lex_from(s, i + 1, line, col + 1),
            ),
            None => {
                if alphabetic(c) {
                    let j = identifier_run_end(s, i + 1);
                    let text = s.subrange(i, j);
                    let token = match keyword_token(text) {
                        Some(k) => k,
                        None => TokenModel::Identifier(text),
                    };
                    with_token(
                        SpannedModel { token, line, start: col, end: col + (j - i) - 1 },
                        lex_from(s, j, line, col + (j - i)),
                    )
                } else if numeric(c) || c == '_' {
                    let j = number_run_end(s, i + 1);
                    let text = s.subrange(i, j);
                    if parses_as_i64(text) {
                        with_token(
                            SpannedModel {
                                token: TokenModel::Integer(decimal_value(text)),
                                line,
                                start: col,
                                end: col + (j - i) - 1,
                            },
                            lex_from(s, j, line, col + (j - i)),
                        )
                    } else {
                        Err(LexerError::FailedToParseInteger)
                    }
                } else if c == '\n' {
                    lex_from(s, i + 1, line + 1, 0)
                } else {
                    Err(LexerError::UnrecognizedLexeme)
                }
            },
        }
    }
}

#[via_fn]
proof fn lex_from_decreases(s: Seq<char>, i: int, line: int, col: int) {
    if 0 <= i < s.len() {
        lemma_identifier_run_end_bounds(s, i + 1);
        lemma_number_run_end_bounds(s, i + 1);
    }
}

/// What tokenizing a whole source text yields: the full ordered token
/// sequence, or the first lexical error encountered.
pub open spec fn lex_spec(s: Seq<char>) -> Result<Seq<SpannedModel>, LexerError> {
    lex_from(s, 0, 0, 0)
}

/// The models of a sequence of produced tokens.
pub open spec fn tokens_view(ts: Seq<SpannedToken>) -> Seq<SpannedModel> {
    ts.map_values(|t: SpannedToken| t@)
}

/// `a` stands wholly before `b` in the source: on an earlier line, or on
/// the same line ending before `b` begins.
pub open spec fn span_before(a: SpannedModel, b: SpannedModel) -> bool {
    a.line < b.line || (a.line == b.line && a.end < b.start)
}

/// How many newlines the text holds: the line counter after scanning it.
pub open spec fn newline_count(s: Seq<char>) -> int
    decreases s.len(),
{
    if s.len() == 0 {
        0
    } else {
        newline_count(s.drop_last()) + if s.last() == '\n' {
            1int
        } else {
            0int
        }
    }
}

/// Where the last line of the text begins: just past its last newline.
pub open spec fn last_line_begin(s: Seq<char>) -> int
    decreases s.len(),
{
    if s.len() == 0 {
        0
    } else if s.last() == '\n' {
        s.len() as int
    } else {
        last_line_begin(s.drop_last())
    }
}

pub proof fn lemma_position_bounds(s: Seq<char>)
    ensures
        0 <= newline_count(s) <= s.len(),
        0 <= last_line_begin(s) <= s.len(),
    decreases s.len(),
{
    if s.len() > 0 {
        lemma_position_bounds(s.drop_last());
    }
}

/// Consuming characters that are no newlines moves neither the line count
/// nor the start of the last line.
pub proof fn lemma_position_extend_no_newline(s: Seq<char>, a: int, b: int)
    requires
        0 <= a <= b <= s.len(),
        forall|m: int| a <= m < b ==> #[trigger] s[m] != '\n',
    ensures
        newline_count(s.take(b)) == newline_count(s.take(a)),
        last_line_begin(s.take(b)) == last_line_begin(s.take(a)),
    decreases b - a,
{
    if a < b {
        assert(s.take(b).drop_last() =~= s.take(b - 1));
        assert(s.take(b).last() == s[b - 1]);
        lemma_position_extend_no_newline(s, a, b - 1);
    }
}

/// Consuming a newline advances the line count by one and starts a fresh
/// last line right after it.
pub proof fn lemma_position_extend_newline(s: Seq<char>, a: int)
    requires
        0 <= a < s.len(),
        s[a] == '\n',
    ensures
        newline_count(s.take(a + 1)) == newline_count(s.take(a)) + 1,
        last_line_begin(s.take(a + 1)) == a + 1,
{
    assert(s.take(a + 1).drop_last() =~= s.take(a));
    assert(s.take(a + 1).last() == s[a]);
}

/// The index of the first newline at or after `k`, or the text's length.
pub open spec fn line_break_from(s: Seq<char>, k: int) -> int
    decreases s.len() - k
        when 0 <= k <= s.len()
{
    if k < s.len() && s[k] != '\n' {
        line_break_from(s, k + 1)
    } else {
        k
    }
}

/// The index where 0-based line `l` begins: just past the newline that
/// ended the line before.
pub open spec fn line_start(s: Seq<char>, l: int) -> int
    decreases l
        when 0 <= l
{
    if l <= 0 {
        0
    } else {
        line_break_from(s, line_start(s, l - 1)) + 1
    }
}

/// The text of 0-based line `l`: from the line's start up to the newline
/// that ends it, or to the end of the text.
pub open spec fn line_text(s: Seq<char>, l: int) -> Seq<char> {
    s.subrange(line_start(s, l), line_break_from(s, line_start(s, l)))
}

/// The exact source text a token stands for: reserved words and punctuation
/// their spelling, an identifier its text, an integer literal a digit run
/// carrying its value.
pub open spec fn lexeme_matches(tok: TokenModel, text: Seq<char>) -> bool {
    match tok {
        TokenModel::Fn => text == seq!['f', 'n'],
        TokenModel::Identifier(id) => text == id,
        TokenModel::LeftParen => text == seq!['('],
        TokenModel::RightParen => text == seq![')'],
        TokenModel::LeftCurlyBrace => text == seq!['{'],
        TokenModel::RightCurlyBrace => text == seq!['}'],
        TokenModel::Return => text == seq!['r', 'e', 't', 'u', 'r', 'n'],
        TokenModel::Integer(v) => text.len() >= 1 && all_decimal_digits(text) && decimal_value(
            text,
        ) == v,
        TokenModel::Colon => text == seq![':'],
        TokenModel::Void => text == seq!['v', 'o', 'i', 'd'],
        TokenModel::I32 => text == seq!['i', '3', '2'],
    }
}

/// The token's span lies inside its line, and re-slicing the source by the
/// span's line, start and end gives back exactly the token's lexeme.
pub open spec fn span_slices_lexeme(s: Seq<char>, t: SpannedModel) -> bool {
    &&& 0 <= t.line
    &&& 0 <= t.start <= t.end
    &&& t.end < line_text(s, t.line).len()
    &&& lexeme_matches(t.token, line_text(s, t.line).subrange(t.start, t.end + 1))
}

} // verus!
