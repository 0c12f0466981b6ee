use vstd::prelude::*;

use crate::chars::{
    all_decimal_digits, char_is_alphabetic, char_is_numeric, chars_to_string, decimal_value,
    lemma_decimal_prefix_le, str_chars,
};
use crate::model::{
    identifier_continue, identifier_run_end, keyword_token, last_line_begin,
    lemma_with_tokens_empty, lemma_with_tokens_push, lex_from, lex_spec, newline_count,
    number_run_end, parses_as_i64, punctuation_token, tokens_view, with_tokens,
};
use crate::token::{SpannedModel, SpannedToken, Token, TokenModel};
use vstd::pervasive::unreached;

verus! {

/// The lexical error taxonomy. Either error is fatal to the whole call:
/// the first one encountered is returned alone, with no partial sequence.
#[derive(Debug, PartialEq, Eq, Structural)]
pub enum LexerError {
    /// The accumulated digit run cannot be parsed as a 64-bit signed
    /// integer: it is not purely made of decimal digits (a lone or leading
    /// underscore routes into number scanning but never parses), or its
    /// magnitude exceeds the representable range.
    FailedToParseInteger,
    /// A character matched no dispatch rule: neither punctuation, letter,
    /// digit, underscore nor newline. Notably this includes space and tab.
    UnrecognizedLexeme,
}

/// The scanner. It owns the position counters (absolute character count,
/// column within the current line, line count) and the immutable keyword
/// table; the counters are reset at the start of every `tokenize` call, so
/// each call scans its source independently.
pub struct Lexer {
    pub cur_char: usize,
    pub cur_char_at_cur_line: usize,
    pub line: usize,
    pub keywords: Vec<(String, Token)>,
}

/// Does the character at `i` continue an identifier run?
fn identifier_continues(chars: &Vec<char>, i: usize) -> (r: bool)
    ensures
        r == (i < chars@.len() && identifier_continue(chars@[i as int])),
{
    if i < chars.len() {
        let c = chars[i];
        char_is_alphabetic(c) || char_is_numeric(c) || c == '_'
    } else {
        false
    }
}

/// Does the character at `i` continue a number run?
fn number_continues(chars: &Vec<char>, i: usize) -> (r: bool)
    ensures
        r == (i < chars@.len() && crate::chars::numeric(chars@[i as int])),
{
    if i < chars.len() {
        char_is_numeric(chars[i])
    } else {
        false
    }
}

/// Parses a digit run as a 64-bit signed integer: succeeds exactly when
/// every character is an ASCII decimal digit and the value fits.
fn parse_decimal(digits: &Vec<char>) -> (r: Option<i64>)
    requires
        digits@.len() >= 1,
    ensures
        (match r {
            Some(v) => parses_as_i64(digits@) && v as int == decimal_value(digits@),
            None => !parses_as_i64(digits@),
        }),
{
    let n = digits.len();
    let mut acc: i64 = 0;
    let mut k: usize = 0;
    while k < n
        invariant
            n == digits@.len(),
            0 <= k <= n,
            all_decimal_digits(digits@.take(k as int)),
            0 <= acc,
            acc as int == decimal_value(digits@.take(k as int)),
        decreases n - k,
    {
        let c = digits[k];
        let u = c as u32;
        if u < 48 || u > 57 {
            proof {
                assert(!crate::chars::decimal_digit(digits@[k as int]));
            }
            return None;
        }
        let d = (u - 48) as i64;
        proof {
            assert(digits@.take(k as int + 1).drop_last() =~= digits@.take(k as int));
            assert(digits@.take(k as int + 1).last() == digits@[k as int]);
            assert(decimal_value(digits@.take(k as int + 1)) == acc * 10 + d);
        }
        let limit = (i64::MAX - d) / 10;
        if acc > limit {
            proof {
                if parses_as_i64(digits@) {
                    lemma_decimal_prefix_le(digits@, k as int + 1);
                    assert(10 * limit + 10 > i64::MAX - d);
                    assert(acc * 10 >= (limit + 1) * 10) by (nonlinear_arith)
                        requires
                            acc > limit,
                    ;
                    assert(false);
                }
            }
            return None;
        }
        proof {
            assert(acc * 10 <= limit * 10) by (nonlinear_arith)
                requires
                    0 <= acc <= limit,
            ;
            assert(limit * 10 <= i64::MAX - d);
        }
        acc = acc * 10 + d;
        k = k + 1;
    }
    proof {
        assert(digits@.take(n as int) =~= digits@);
    }
    Some(acc)
}

impl Lexer {
    /// The keyword table maps exactly the four reserved spellings to their
    /// reserved-word tokens.
    pub open spec fn keywords_wf(self) -> bool {
        &&& self.keywords@.len() == 4
        &&& self.keywords@[0].0@ == seq!['f', 'n'] && self.keywords@[0].1@ == TokenModel::Fn
        &&& self.keywords@[1].0@ == seq!['i', '3', '2'] && self.keywords@[1].1@ == TokenModel::I32
        &&& self.keywords@[2].0@ == seq!['r', 'e', 't', 'u', 'r', 'n'] && self.keywords@[2].1@
            == TokenModel::Return
        &&& self.keywords@[3].0@ == seq!['v', 'o', 'i', 'd'] && self.keywords@[3].1@
            == TokenModel::Void
    }

    /// A fresh scanner: all position counters at zero and the fixed keyword
    /// table built. No I/O, no allocation beyond the table.
    pub fn new() -> (lexer: Lexer)
        ensures
            lexer.keywords_wf(),
            lexer.cur_char == 0,
            lexer.cur_char_at_cur_line == 0,
            lexer.line == 0,
    {
        let mut keywords: Vec<(String, Token)> = Vec::new();
        keywords.push(("fn".to_owned(), Token::Fn));
        keywords.push(("i32".to_owned(), Token::I32));
        keywords.push(("return".to_owned(), Token::Return));
        keywords.push(("void".to_owned(), Token::Void));
        proof {
            reveal_strlit("fn");
            reveal_strlit("i32");
            reveal_strlit("return");
            reveal_strlit("void");
            assert("fn"@ =~= seq!['f', 'n']);
            assert("i32"@ =~= seq!['i', '3', '2']);
            assert("return"@ =~= seq!['r', 'e', 't', 'u', 'r', 'n']);
            assert("void"@ =~= seq!['v', 'o', 'i', 'd']);
        }
        Lexer { cur_char: 0, cur_char_at_cur_line: 0, line: 0, keywords }
    }

    /// Exact lookup of a scanned spelling against the keyword table. On a
    /// hit, the reserved-word token spanning from `keyword_start` through
    /// the current column.
    pub fn check_keyword(&self, token: &String, keyword_start: usize) -> (r: Option<SpannedToken>)
        requires
            self.keywords_wf(),
            self.cur_char_at_cur_line >= 1,
        ensures
            (match keyword_token(token@) {
                Some(k) => r matches Some(st) && st@ == (SpannedModel {
                    token: k,
                    line: self.line as int,
                    start: keyword_start as int,
                    end: self.cur_char_at_cur_line - 1,
                }),
                None => r is None,
            }),
    {
        let n = self.keywords.len();
        let mut idx: usize = 0;
        while idx < n
            invariant
                self.keywords_wf(),
                self.cur_char_at_cur_line >= 1,
                n == 4,
                0 <= idx <= n,
                forall|m: int| 0 <= m < idx ==> token@ != #[trigger] self.keywords@[m].0@,
            decreases n - idx,
        {
            if *token == self.keywords[idx].0 {
                let keyword = match &self.keywords[idx].1 {
                    Token::Fn => Token::Fn,
                    Token::I32 => Token::I32,
                    Token::Return => Token::Return,
                    Token::Void => Token::Void,
                    _ => unreached(),
                };
                return Some(
                    SpannedToken::new(
                        keyword,
                        self.line,
                        keyword_start,
                        self.cur_char_at_cur_line - 1,
                    ),
                );
            }
            idx = idx + 1;
        }
        proof {
            if keyword_token(token@) is Some {
                if token@.len() == 2 {
                    assert(token@ =~= self.keywords@[0].0@);
                } else if token@.len() == 3 {
                    assert(token@ =~= self.keywords@[1].0@);
                } else if token@.len() == 6 {
                    assert(token@ =~= self.keywords@[2].0@);
                } else {
                    assert(token@ =~= self.keywords@[3].0@);
                }
                assert(false);
            }
        }
        None
    }

    /// Greedily consumes the identifier run that `ch` begins, then resolves
    /// the spelling against the keyword table: a reserved-word token on a
    /// hit, an `Identifier` token otherwise, either spanning the whole run.
    pub fn scan_identifier(&mut self, ch: char, chars: &Vec<char>, i: &mut usize) -> (st:
        SpannedToken)
        requires
            old(self).keywords_wf(),
            1 <= *old(i) <= chars@.len(),
            ch == chars@[*old(i) - 1],
            crate::chars::alphabetic(ch),
            old(self).cur_char == *old(i),
            1 <= old(self).cur_char_at_cur_line <= *old(i),
        ensures
            final(self).keywords == old(self).keywords,
            final(self).line == old(self).line,
            ({
                let p = *old(i) - 1;
                let j = identifier_run_end(chars@, *old(i) as int);
                let text = chars@.subrange(p as int, j);
                let c0 = old(self).cur_char_at_cur_line - 1;
                &&& *final(i) == j
                &&& final(self).cur_char == j
                &&& final(self).cur_char_at_cur_line == c0 + (j - p)
                &&& st@ == (SpannedModel {
                    token: match keyword_token(text) {
                        Some(k) => k,
                        None => TokenModel::Identifier(text),
                    },
                    line: old(self).line as int,
                    start: c0,
                    end: c0 + (j - p) - 1,
                })
            }),
    {
        let ghost i0: int = *i as int;
        let ghost col0: int = self.cur_char_at_cur_line as int;
        let ghost line0 = self.line;
        let ghost kws0 = self.keywords;
        let identifier_start: usize = self.cur_char_at_cur_line - 1;
        let mut text_chars: Vec<char> = Vec::new();
        text_chars.push(ch);
        proof {
            assert(chars.len() == chars@.len());
        }
        while identifier_continues(chars, *i)
            invariant
                1 <= i0,
                chars@.len() <= usize::MAX,
                i0 <= *i as int <= chars@.len(),
                self.cur_char == *i,
                self.cur_char_at_cur_line as int == col0 + (*i as int - i0),
                self.cur_char_at_cur_line <= *i,
                self.line == line0,
                self.keywords == kws0,
                text_chars@ == chars@.subrange(i0 - 1, *i as int),
                identifier_run_end(chars@, *i as int) == identifier_run_end(chars@, i0),
            decreases chars@.len() - *i as int,
        {
            let c = chars[*i];
            text_chars.push(c);
            proof {
                assert(chars@.subrange(i0 - 1, *i as int + 1) =~= chars@.subrange(
                    i0 - 1,
                    *i as int,
                ).push(chars@[*i as int]));
            }
            *i = *i + 1;
            self.cur_char = self.cur_char + 1;
            self.cur_char_at_cur_line = self.cur_char_at_cur_line + 1;
        }
        let text = chars_to_string(&text_chars);
        match self.check_keyword(&text, identifier_start) {
            Some(st) => st,
            None => SpannedToken::new(
                Token::Identifier(text),
                self.line,
                identifier_start,
                self.cur_char_at_cur_line - 1,
            ),
        }
    }

    /// Greedily consumes the number run that `ch` begins and parses it as a
    /// 64-bit signed integer, yielding an `Integer` token spanning the run,
    /// or `FailedToParseInteger` when the run does not parse.
    pub fn scan_number(&mut self, ch: char, chars: &Vec<char>, i: &mut usize) -> (r: Result<
        SpannedToken,
        LexerError,
    >)
        requires
            1 <= *old(i) <= chars@.len(),
            ch == chars@[*old(i) - 1],
            crate::chars::numeric(ch) || ch == '_',
            old(self).cur_char == *old(i),
            1 <= old(self).cur_char_at_cur_line <= *old(i),
        ensures
            final(self).keywords == old(self).keywords,
            final(self).line == old(self).line,
            ({
                let p = *old(i) - 1;
                let j = number_run_end(chars@, *old(i) as int);
                let text = chars@.subrange(p as int, j);
                let c0 = old(self).cur_char_at_cur_line - 1;
                &&& *final(i) == j
                &&& final(self).cur_char == j
                &&& final(self).cur_char_at_cur_line == c0 + (j - p)
                &&& match r {
                    Ok(st) => {
                        &&& parses_as_i64(text)
                        &&& st@ == (SpannedModel {
                            token: TokenModel::Integer(decimal_value(text)),
                            line: old(self).line as int,
                            start: c0,
                            end: c0 + (j - p) - 1,
                        })
                    },
                    Err(e) => {
                        &&& e == LexerError::FailedToParseInteger
                        &&& !parses_as_i64(text)
                    },
                }
            }),
    {
        let ghost i0: int = *i as int;
        let ghost col0: int = self.cur_char_at_cur_line as int;
        let ghost line0 = self.line;
        let ghost kws0 = self.keywords;
        let number_start: usize = self.cur_char_at_cur_line - 1;
        let mut text_chars: Vec<char> = Vec::new();
        text_chars.push(ch);
        proof {
            assert(chars.len() == chars@.len());
        }
        while number_continues(chars, *i)
            invariant
                1 <= i0,
                chars@.len() <= usize::MAX,
                i0 <= *i as int <= chars@.len(),
                self.cur_char == *i,
                self.cur_char_at_cur_line as int == col0 + (*i as int - i0),
                self.cur_char_at_cur_line <= *i,
                self.line == line0,
                self.keywords == kws0,
                text_chars@ == chars@.subrange(i0 - 1, *i as int),
                number_run_end(chars@, *i as int) == number_run_end(chars@, i0),
            decreases chars@.len() - *i as int,
        {
            let c = chars[*i];
            text_chars.push(c);
            proof {
                assert(chars@.subrange(i0 - 1, *i as int + 1) =~= chars@.subrange(
                    i0 - 1,
                    *i as int,
                ).push(chars@[*i as int]));
            }
            *i = *i + 1;
            self.cur_char = self.cur_char + 1;
            self.cur_char_at_cur_line = self.cur_char_at_cur_line + 1;
        }
        match parse_decimal(&text_chars) {
            Some(value) => Ok(
                SpannedToken::new(
                    Token::Integer(value),
                    self.line,
                    number_start,
                    self.cur_char_at_cur_line - 1,
                ),
            ),
            None => Err(LexerError::FailedToParseInteger),
        }
    }

    /// One dispatch step on the character just consumed. Each character
    /// class is pinned exactly: punctuation appends its one token and moves
    /// nothing; a letter or a digit/underscore consumes its run and appends
    /// the run's token (or fails the parse, run consumed, nothing
    /// appended); a newline advances the line counter and resets the
    /// column, emitting nothing; any other character fails with
    /// `UnrecognizedLexeme` and changes nothing. Tokens are only ever
    /// appended. On success, the tokens emitted so far followed by the rest
    /// of the scan stay equal to the scan from where this step started.
    pub fn scan_token(
        &mut self,
        ch: char,
        chars: &Vec<char>,
        i: &mut usize,
        tokens: &mut Vec<SpannedToken>,
    ) -> (r: Result<(), LexerError>)
        requires
            old(self).keywords_wf(),
            1 <= *old(i) <= chars@.len(),
            ch == chars@[*old(i) - 1],
            old(self).cur_char == *old(i),
            1 <= old(self).cur_char_at_cur_line <= *old(i),
            old(self).line <= *old(i) - 1,
        ensures
            final(self).keywords == old(self).keywords,
            final(self).keywords_wf(),
            old(tokens)@.is_prefix_of(final(tokens)@),
            ({
                let s = chars@;
                let p = *old(i) - 1;
                let li = old(self).line as int;
                let c0 = old(self).cur_char_at_cur_line - 1;
                let c = s[p];
                match punctuation_token(c) {
                    Some(tok) => {
                        &&& r is Ok
                        &&& tokens_view(final(tokens)@) == tokens_view(old(tokens)@).push(
                            SpannedModel { token: tok, line: li, start: c0, end: c0 },
                        )
                        &&& *final(i) == *old(i)
                        &&& final(self).cur_char == old(self).cur_char
                        &&& final(self).cur_char_at_cur_line == old(self).cur_char_at_cur_line
                        &&& final(self).line == old(self).line
                    },
                    None => {
                        if crate::chars::alphabetic(c) {
                            let j = identifier_run_end(s, *old(i) as int);
                            let text = s.subrange(p, j);
                            let tok = match keyword_token(text) {
                                Some(k) => k,
                                None => TokenModel::Identifier(text),
                            };
                            &&& r is Ok
                            &&& tokens_view(final(tokens)@) == tokens_view(old(tokens)@).push(
                                SpannedModel {
                                    token: tok,
                                    line: li,
                                    start: c0,
                                    end: c0 + (j - p) - 1,
                                },
                            )
                            &&& *final(i) == j
                            &&& final(self).cur_char == j
                            &&& final(self).cur_char_at_cur_line == c0 + (j - p)
                            &&& final(self).line == old(self).line
                        } else if crate::chars::numeric(c) || c == '_' {
                            let j = number_run_end(s, *old(i) as int);
                            let text = s.subrange(p, j);
                            &&& *final(i) == j
                            &&& final(self).cur_char == j
                            &&& final(self).cur_char_at_cur_line == c0 + (j - p)
                            &&& final(self).line == old(self).line
                            &&& if parses_as_i64(text) {
                                &&& r is Ok
                                &&& tokens_view(final(tokens)@) == tokens_view(old(tokens)@).push(
                                    SpannedModel {
                                        token: TokenModel::Integer(decimal_value(text)),
                                        line: li,
                                        start: c0,
                                        end: c0 + (j - p) - 1,
                                    },
                                )
                            } else {
                                &&& r == Err::<(), LexerError>(LexerError::FailedToParseInteger)
                                &&& final(tokens)@ == old(tokens)@
                            }
                        } else if c == '\n' {
                            &&& r is Ok
                            &&& final(tokens)@ == old(tokens)@
                            &&& *final(i) == *old(i)
                            &&& final(self).cur_char == old(self).cur_char
                            &&& final(self).cur_char_at_cur_line == 0
                            &&& final(self).line == old(self).line + 1
                        } else {
                            &&& r == Err::<(), LexerError>(LexerError::UnrecognizedLexeme)
                            &&& final(tokens)@ == old(tokens)@
                            &&& *final(i) == *old(i)
                            &&& final(self).cur_char == old(self).cur_char
                            &&& final(self).cur_char_at_cur_line == old(
                                self,
                            ).cur_char_at_cur_line
                            &&& final(self).line == old(self).line
                        }
                    },
                }
            }),
            (match r {
                Ok(_) => ({
                    let p = *old(i) - 1;
                    let li = old(self).line as int;
                    let c0 = old(self).cur_char_at_cur_line - 1;
                    &&& *old(i) <= *final(i) <= chars@.len()
                    &&& final(self).cur_char == *final(i)
                    &&& final(self).cur_char_at_cur_line <= *final(i)
                    &&& final(self).line <= *final(i)
                    &&& with_tokens(tokens_view(old(tokens)@), lex_from(chars@, p, li, c0))
                        == with_tokens(
                        tokens_view(final(tokens)@),
                        lex_from(
                            chars@,
                            *final(i) as int,
                            final(self).line as int,
                            final(self).cur_char_at_cur_line as int,
                        ),
                    )
                }),
                Err(e) => lex_from(
                    chars@,
                    *old(i) - 1,
                    old(self).line as int,
                    old(self).cur_char_at_cur_line - 1,
                ) == Err::<Seq<SpannedModel>, LexerError>(e),
            }),
    {
        let ghost p: int = *old(i) - 1;
        let ghost li: int = old(self).line as int;
        let ghost c0: int = old(self).cur_char_at_cur_line - 1;
        if ch == '(' {
            let st = SpannedToken::new_single(
                Token::LeftParen,
                self.line,
                self.cur_char_at_cur_line - 1,
            );
            tokens.push(st);
            proof {
                assert(tokens_view(tokens@) =~= tokens_view(old(tokens)@).push(st@));
                lemma_with_tokens_push(
                    tokens_view(old(tokens)@),
                    st@,
                    lex_from(chars@, p + 1, li, c0 + 1),
                );
            }
            Ok(())
        } else if ch == ')' {
            let st = SpannedToken::new_single(
                Token::RightParen,
                self.line,
                self.cur_char_at_cur_line - 1,
            );
            tokens.push(st);
            proof {
                assert(tokens_view(tokens@) =~= tokens_view(old(tokens)@).push(st@));
                lemma_with_tokens_push(
                    tokens_view(old(tokens)@),
                    st@,
                    lex_from(chars@, p + 1, li, c0 + 1),
                );
            }
            Ok(())
        } else if ch == '{' {
            let st = SpannedToken::new_single(
                Token::LeftCurlyBrace,
                self.line,
                self.cur_char_at_cur_line - 1,
            );
            tokens.push(st);
            proof {
                assert(tokens_view(tokens@) =~= tokens_view(old(tokens)@).push(st@));
                lemma_with_tokens_push(
                    tokens_view(old(tokens)@),
                    st@,
                    lex_from(chars@, p + 1, li, c0 + 1),
                );
            }
            Ok(())
        } else if ch == '}' {
            let st = SpannedToken::new_single(
                Token::RightCurlyBrace,
                self.line,
                self.cur_char_at_cur_line - 1,
            );
            tokens.push(st);
            proof {
                assert(tokens_view(tokens@) =~= tokens_view(old(tokens)@).push(st@));
                lemma_with_tokens_push(
                    tokens_view(old(tokens)@),
                    st@,
                    lex_from(chars@, p + 1, li, c0 + 1),
                );
            }
            Ok(())
        } else if ch == ':' {
            let st = SpannedToken::new_single(
                Token::Colon,
                self.line,
                self.cur_char_at_cur_line - 1,
            );
            tokens.push(st);
            proof {
                assert(tokens_view(tokens@) =~= tokens_view(old(tokens)@).push(st@));
                lemma_with_tokens_push(
                    tokens_view(old(tokens)@),
                    st@,
                    lex_from(chars@, p + 1, li, c0 + 1),
                );
            }
            Ok(())
        } else if char_is_alphabetic(ch) {
            let st = self.scan_identifier(ch, chars, i);
            tokens.push(st);
            proof {
                let j = identifier_run_end(chars@, p + 1);
                crate::model::lemma_identifier_run_end_bounds(chars@, p + 1);
                assert(tokens_view(tokens@) =~= tokens_view(old(tokens)@).push(st@));
                lemma_with_tokens_push(
                    tokens_view(old(tokens)@),
                    st@,
                    lex_from(chars@, j, li, c0 + (j - p)),
                );
            }
            Ok(())
        } else if char_is_numeric(ch) || ch == '_' {
            match self.scan_number(ch, chars, i) {
                Ok(st) => {
                    tokens.push(st);
                    proof {
                        let j = number_run_end(chars@, p + 1);
                        crate::model::lemma_number_run_end_bounds(chars@, p + 1);
                        assert(tokens_view(tokens@) =~= tokens_view(old(tokens)@).push(st@));
                        lemma_with_tokens_push(
                            tokens_view(old(tokens)@),
                            st@,
                            lex_from(chars@, j, li, c0 + (j - p)),
                        );
                    }
                    Ok(())
                },
                Err(e) => Err(e),
            }
        } else if ch == '\n' {
            self.line = self.line + 1;
            self.cur_char_at_cur_line = 0;
            Ok(())
        } else {
            Err(LexerError::UnrecognizedLexeme)
        }
    }

    /// Consumes the whole source text, character by character, left to
    /// right. On success the full ordered token sequence; on the first
    /// lexical error, that error alone. The outcome is exactly what
    /// `lex_spec` says for this source text, and on success the counters
    /// describe the end of this text alone — its length, its newline
    /// count, the length of its last line — whatever they held before.
    pub fn tokenize(&mut self, source: &str) -> (r: Result<Vec<SpannedToken>, LexerError>)
        requires
            old(self).keywords_wf(),
        ensures
            final(self).keywords == old(self).keywords,
            final(self).keywords_wf(),
            r is Ok ==> {
                &&& final(self).cur_char == source@.len()
                &&& final(self).line as int == newline_count(source@)
                &&& final(self).cur_char_at_cur_line as int == source@.len() - last_line_begin(
                    source@,
                )
            },
            (match r {
                Ok(ts) => lex_spec(source@) == Ok::<Seq<SpannedModel>, LexerError>(
                    tokens_view(ts@),
                ),
                Err(e) => lex_spec(source@) == Err::<Seq<SpannedModel>, LexerError>(e),
            }),
    {
        self.cur_char = 0;
        self.cur_char_at_cur_line = 0;
        self.line = 0;
        let chars = str_chars(source);
        let mut tokens: Vec<SpannedToken> = Vec::new();
        let mut i: usize = 0;
        proof {
            lemma_with_tokens_empty(lex_from(chars@, 0, 0, 0));
            assert(tokens_view(tokens@) =~= Seq::<SpannedModel>::empty());
            assert(chars@.take(0) =~= Seq::<char>::empty());
        }
        while i < chars.len()
            invariant
                self.keywords == old(self).keywords,
                self.keywords_wf(),
                self.cur_char == i,
                i <= chars@.len(),
                self.cur_char_at_cur_line <= i,
                self.line <= i,
                self.line as int == newline_count(chars@.take(i as int)),
                self.cur_char_at_cur_line as int == i - last_line_begin(chars@.take(i as int)),
                chars@ == source@,
                with_tokens(
                    tokens_view(tokens@),
                    lex_from(chars@, i as int, self.line as int, self.cur_char_at_cur_line as int),
                ) == lex_spec(source@),
            decreases chars@.len() - i,
        {
            let ghost p: int = i as int;
            let ch = chars[i];
            i = i + 1;
            self.cur_char = self.cur_char + 1;
            self.cur_char_at_cur_line = self.cur_char_at_cur_line + 1;
            match self.scan_token(ch, &chars, &mut i, &mut tokens) {
                Ok(_) => {},
                Err(e) => {
                    return Err(e);
                },
            }
            proof {
                let s = chars@;
                let c = s[p];
                if punctuation_token(c) is Some {
                    crate::model::lemma_position_extend_no_newline(s, p, p + 1);
                } else if crate::chars::alphabetic(c) {
                    let j = identifier_run_end(s, p + 1);
                    crate::model::lemma_identifier_run_end_bounds(s, p + 1);
                    crate::model::lemma_identifier_run_chars(s, p + 1);
                    assert forall|m: int| p <= m < j implies #[trigger] s[m] != '\n' by {
                        if m > p {
                            assert(identifier_continue(s[m]));
                        }
                    }
                    crate::model::lemma_position_extend_no_newline(s, p, j);
                } else if crate::chars::numeric(c) || c == '_' {
                    let j = number_run_end(s, p + 1);
                    let text = s.subrange(p, j);
                    crate::model::lemma_number_run_end_bounds(s, p + 1);
                    assert forall|m: int| p <= m < j implies #[trigger] s[m] != '\n' by {
                        assert(text[m - p] == s[m]);
                        assert(crate::chars::decimal_digit(text[m - p]));
                    }
                    crate::model::lemma_position_extend_no_newline(s, p, j);
                } else {
                    assert(c == '\n');
                    crate::model::lemma_position_extend_newline(s, p);
                }
            }
        }
        proof {
            assert(tokens_view(tokens@) + Seq::<SpannedModel>::empty() =~= tokens_view(tokens@));
            assert(chars@.take(chars@.len() as int) =~= chars@);
        }
        Ok(tokens)
    }
}

} // verus!
