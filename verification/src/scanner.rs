//! The scanner: a single left-to-right pass over one text buffer, producing
//! tokens and recoverable lexical errors, proved to follow `scan_spec`.

use vstd::prelude::*;
use vstd::string::StrSliceExecFns;
use vstd::string::StringExecFns;

use crate::chars::char_alphabetic;
use crate::chars::char_alphanumeric;
use crate::chars::dec_digit;
use crate::chars::digit_value;
use crate::chars::hex_digit;
use crate::chars::is_alnum;
use crate::chars::is_dec_digit;
use crate::chars::is_hex_digit;
use crate::chars::string_from_chars;
use crate::chars::to_lowercase_str;
use crate::chars::unicode_alphabetic;
use crate::model::digits_val;
use crate::model::first_step;
use crate::model::fits_u32;
use crate::model::keyword_of;
use crate::model::lemma_alnum_run_char;
use crate::model::lemma_dec_run_char;
use crate::model::lemma_digits_val_overflow_push;
use crate::model::lemma_digits_val_push;
use crate::model::lemma_first_step_lexeme;
use crate::model::lemma_newline_count_skip;
use crate::model::lemma_newline_count_skip_mono;
use crate::model::lemma_hex_run_char;
use crate::model::newline_count;
use crate::model::scan_spec;
use crate::model::StepKind;
use crate::token::error_lines_of;
use crate::token::tokens_view;
use crate::token::LexError;
use crate::token::Op;
use crate::token::Token;
use crate::token::TokenModel;

verus! {

/// Looks a lowercased lexeme up in the keyword table.
pub fn keyword_lookup(s: &str) -> (r: Option<Op>)
    ensures
        r == keyword_of(s@),
{
    proof {
        reveal_strlit("adc");
        reveal_strlit("lda");
    }
    let n: usize = s.unicode_len();
    if n == 3 {
        let c0 = s.get_char(0);
        let c1 = s.get_char(1);
        let c2 = s.get_char(2);
        if c0 == 'a' && c1 == 'd' && c2 == 'c' {
            proof {
                assert(s@ =~= "adc"@);
            }
            return Some(Op::ADC);
        }
        if c0 == 'l' && c1 == 'd' && c2 == 'a' {
            proof {
                assert(s@ =~= "lda"@);
            }
            return Some(Op::LDA);
        }
    }
    None
}

/// Whether the character at `j` is a digit of the given radix.
fn digit_at(s: &str, j: usize, radix: u32) -> (r: bool)
    requires
        radix == 10 || radix == 16,
        j < s@.len(),
    ensures
        r == if radix == 16 {
            is_hex_digit(s@[j as int])
        } else {
            is_dec_digit(s@[j as int])
        },
{
    let c = s.get_char(j);
    if radix == 16 {
        hex_digit(c)
    } else {
        dec_digit(c)
    }
}

/// Whether the character at `j` may continue an identifier lexeme.
fn alnum_at(s: &str, j: usize) -> (r: bool)
    requires
        j < s@.len(),
    ensures
        r == is_alnum(s@[j as int]),
{
    char_alphanumeric(s.get_char(j))
}

/// Per-scan lexer state: the text buffer it owns, the current line counter,
/// and the tokens and errors accumulated so far.
pub struct Scanner {
    pub source: String,
    pub line: usize,
    pub tokens: Vec<Token>,
    pub errors: Vec<LexError>,
    pub has_error: bool,
}

impl Scanner {
    /// A fresh scanner over `source`, starting at line 1 with nothing
    /// accumulated.
    pub fn new(source: String) -> (s: Self)
        ensures
            s.source == source,
            s.line == 1,
            s.tokens@.len() == 0,
            s.errors@.len() == 0,
            !s.has_error,
    {
        Self { source, line: 1, tokens: Vec::new(), errors: Vec::new(), has_error: false }
    }

    /// Scans the whole buffer: appends the tokens and errors that
    /// `scan_spec` assigns to the text, advances the line counter over
    /// discarded newlines, raises the error flag exactly when a new error was
    /// found, and returns a copy of the accumulated token sequence.
    pub fn scan(&mut self) -> (tokens: Vec<Token>)
        requires
            old(self).line + newline_count(old(self).source@) <= usize::MAX,
        ensures
            ({
                let m = scan_spec(old(self).source@, old(self).line as int);
                &&& final(self).source == old(self).source
                &&& tokens_view(final(self).tokens@) == tokens_view(old(self).tokens@) + m.tokens
                &&& tokens_view(tokens@) == tokens_view(final(self).tokens@)
                &&& error_lines_of(final(self).errors@) == error_lines_of(old(self).errors@)
                    + m.error_lines
                &&& (forall|k: int|
                    old(self).errors@.len() <= k < final(self).errors@.len()
                        ==> final(self).errors@[k].message@ == "invalid number"@)
                &&& final(self).line as int == m.end_line
                &&& final(self).has_error == (old(self).has_error || m.error_lines.len() > 0)
            }),
    {
        let ghost src0 = self.source;
        let ghost s0 = self.source@;
        let ghost line0 = self.line as int;
        let ghost toks0 = self.tokens@;
        let ghost errs0 = self.errors@;
        let ghost he0 = self.has_error;
        let n: usize = self.source.as_str().unicode_len();
        let mut i: usize = 0;
        proof {
            assert(s0.skip(0) =~= s0);
        }
        while i < n
            invariant
                self.source == src0,
                self.source@ == s0,
                n == s0.len(),
                i <= n,
                self.line + newline_count(s0.skip(i as int)) <= usize::MAX,
                tokens_view(self.tokens@) + scan_spec(s0.skip(i as int), self.line as int).tokens
                    == tokens_view(toks0) + scan_spec(s0, line0).tokens,
                error_lines_of(self.errors@) + scan_spec(
                    s0.skip(i as int),
                    self.line as int,
                ).error_lines == error_lines_of(errs0) + scan_spec(s0, line0).error_lines,
                scan_spec(s0.skip(i as int), self.line as int).end_line == scan_spec(
                    s0,
                    line0,
                ).end_line,
                errs0.len() <= self.errors@.len(),
                forall|k: int|
                    errs0.len() <= k < self.errors@.len() ==> self.errors@[k].message@
                        == "invalid number"@,
                self.has_error == (he0 || self.errors@.len() > errs0.len()),
            decreases n - i,
        {
            let ghost i0 = i as int;
            let ghost line_i = self.line as int;
            let ghost rem = s0.skip(i0);
            proof {
                lemma_first_step_lexeme(rem);
            }
            let ghost st = first_step(rem);
            let ghost lexlen = st.lexeme.len() as int;
            proof {
                assert(rem.skip(lexlen) =~= s0.skip(i0 + lexlen));
            }
            let r = self.next_token(&mut i);
            match r {
                Some(res) => {
                    proof {
                        assert(st.kind != StepKind::Skip);
                        lemma_newline_count_skip_mono(s0, i0, i0 + lexlen);
                    }
                    match res {
                        Ok(t) => {
                            proof {
                                let rest = scan_spec(s0.skip(i0 + lexlen), line_i);
                                assert(scan_spec(rem, line_i).tokens == seq![t@] + rest.tokens);
                                assert(tokens_view(self.tokens@.push(t)) =~= tokens_view(
                                    self.tokens@,
                                ) + seq![t@]);
                                assert((tokens_view(self.tokens@) + seq![t@]) + rest.tokens
                                    =~= tokens_view(self.tokens@) + (seq![t@] + rest.tokens));
                            }
                            self.tokens.push(t);
                        },
                        Err(e) => {
                            proof {
                                let rest = scan_spec(s0.skip(i0 + lexlen), line_i);
                                assert(scan_spec(rem, line_i).error_lines == seq![line_i]
                                    + rest.error_lines);
                                assert(error_lines_of(self.errors@.push(e)) =~= error_lines_of(
                                    self.errors@,
                                ) + seq![e.line as int]);
                                assert((error_lines_of(self.errors@) + seq![line_i])
                                    + rest.error_lines =~= error_lines_of(self.errors@) + (seq![
                                    line_i,
                                ] + rest.error_lines));
                            }
                            self.has_error = true;
                            self.errors.push(e);
                        },
                    }
                },
                None => {
                    proof {
                        assert(st.kind == StepKind::Skip && lexlen == 1);
                        assert(st.lexeme == rem.take(1));
                        assert(st.lexeme[0] == s0[i0]);
                        lemma_newline_count_skip(s0, i0);
                    }
                    let c = self.source.as_str().get_char(i);
                    if c == '\n' {
                        self.line = self.line + 1;
                    }
                    i = i + 1;
                },
            }
        }
        proof {
            assert(s0.skip(n as int) =~= Seq::<char>::empty());
            let m = scan_spec(s0, line0);
            assert(tokens_view(self.tokens@) + Seq::<TokenModel>::empty() =~= tokens_view(
                self.tokens@,
            ));
            assert(error_lines_of(self.errors@) + Seq::<int>::empty() =~= error_lines_of(
                self.errors@,
            ));
        }
        let mut out: Vec<Token> = Vec::new();
        let mut k: usize = 0;
        while k < self.tokens.len()
            invariant
                k <= self.tokens@.len(),
                out@.len() == k as int,
                forall|m: int| 0 <= m < k ==> out@[m]@ == self.tokens@[m]@,
            decreases self.tokens@.len() - k,
        {
            let t = self.tokens[k].clone();
            out.push(t);
            k = k + 1;
        }
        proof {
            assert(tokens_view(out@) =~= tokens_view(self.tokens@));
        }
        out
    }

    /// Classifies the character at the cursor and scans one lexeme: a `$`
    /// starts a hexadecimal number, a decimal digit a decimal number, an
    /// alphabetic character an identifier; any other character yields `None`
    /// and is left for the caller to discard.
    pub fn next_token(&self, i: &mut usize) -> (r: Option<Result<Token, LexError>>)
        requires
            *old(i) < self.source@.len(),
        ensures
            ({
                let st = first_step(self.source@.skip(*old(i) as int));
                match r {
                    None => st.kind == StepKind::Skip && *final(i) == *old(i),
                    Some(res) => *final(i) == *old(i) + st.lexeme.len() && match res {
                        Ok(t) => st.kind == StepKind::Emit(t@),
                        Err(e) => st.kind == StepKind::Fault && e.line == self.line && e.message@
                            == "invalid number"@,
                    },
                }
            }),
    {
        let c = self.source.as_str().get_char(*i);
        if c == '$' {
            Some(self.number(i, 16))
        } else if dec_digit(c) {
            Some(self.number(i, 10))
        } else if char_alphabetic(c) {
            Some(self.identifier(i))
        } else {
            None
        }
    }

    /// Scans a numeric literal at the cursor: consumes the `$` prefix when the
    /// radix is 16, then the maximal digit run, and parses it as an unsigned
    /// 32-bit integer; an empty run or an overflowing value is an "invalid
    /// number" error on the current line.
    pub fn number(&self, i: &mut usize, radix: u32) -> (r: Result<Token, LexError>)
        requires
            radix == 10 || radix == 16,
            *old(i) < self.source@.len(),
            radix == 16 ==> self.source@[*old(i) as int] == '$',
            radix == 10 ==> is_dec_digit(self.source@[*old(i) as int]),
        ensures
            ({
                let st = first_step(self.source@.skip(*old(i) as int));
                &&& *final(i) == *old(i) + st.lexeme.len()
                &&& match r {
                    Ok(t) => st.kind == StepKind::Emit(t@),
                    Err(e) => st.kind == StepKind::Fault && e.line == self.line && e.message@
                        == "invalid number"@,
                }
            }),
    {
        let ghost start = *i as int;
        let ghost s = self.source@.skip(start);
        let src: &str = self.source.as_str();
        let n: usize = src.unicode_len();
        let mut j: usize = *i;
        if radix != 10 {
            j = j + 1;
        }
        let digits_start: usize = j;
        let ghost base = digits_start as int;
        let mut val: u32 = 0;
        let mut overflow: bool = false;
        while j < n && digit_at(src, j, radix)
            invariant
                radix == 10 || radix == 16,
                0 <= base <= j <= n,
                n == src@.len(),
                forall|k: int|
                    base <= k < j ==> if radix == 16 {
                        is_hex_digit(#[trigger] src@[k])
                    } else {
                        is_dec_digit(src@[k])
                    },
                !overflow ==> val as int == digits_val(src@.subrange(base, j as int), radix as int),
                overflow ==> !fits_u32(digits_val(src@.subrange(base, j as int), radix as int)),
            decreases n - j,
        {
            let c = src.get_char(j);
            let d = digit_value(c);
            proof {
                assert(src@.subrange(base, j + 1) =~= src@.subrange(base, j as int).push(src@[j as int]));
                if overflow {
                    lemma_digits_val_overflow_push(
                        src@.subrange(base, j as int),
                        src@[j as int],
                        radix as int,
                    );
                } else {
                    lemma_digits_val_push(src@.subrange(base, j as int), src@[j as int], radix as int);
                }
            }
            if !overflow {
                proof {
                    assert(val as int * radix as int + d as int <= 0xFFFF_FFFF * 16 + 15)
                        by (nonlinear_arith)
                        requires
                            val as int <= 0xFFFF_FFFF,
                            radix as int <= 16,
                            d as int <= 15,
                    ;
                }
                let nv: u64 = (val as u64) * (radix as u64) + (d as u64);
                if nv > 0xFFFF_FFFFu64 {
                    overflow = true;
                } else {
                    val = nv as u32;
                }
            }
            j = j + 1;
        }
        let ghost d_run = j - base;
        proof {
            if radix == 16 {
                assert(s.skip(1) =~= src@.skip(base));
                assert(forall|k: int|
                    0 <= k < d_run ==> src@.skip(base)[k] == #[trigger] src@[base + k]);
                lemma_hex_run_char(src@.skip(base), d_run);
                assert(s.skip(1).take(d_run) =~= src@.subrange(base, j as int));
            } else {
                assert(s =~= src@.skip(base));
                assert(forall|k: int|
                    0 <= k < d_run ==> src@.skip(base)[k] == #[trigger] src@[base + k]);
                lemma_dec_run_char(src@.skip(base), d_run);
                assert(s.take(d_run) =~= src@.subrange(base, j as int));
                assert(d_run >= 1);
            }
        }
        *i = j;
        if j == digits_start || overflow {
            Err(
                LexError {
                    line: self.line,
                    message: String::from_str("invalid number"),
                },
            )
        } else {
            Ok(Token::Number(val))
        }
    }

    /// Scans an identifier lexeme at the cursor: consumes the maximal
    /// alphanumeric run, then yields the keyword it names case-insensitively,
    /// or an identifier preserving the original text.
    pub fn identifier(&self, i: &mut usize) -> (r: Result<Token, LexError>)
        requires
            *old(i) < self.source@.len(),
            self.source@[*old(i) as int] != '$',
            !is_dec_digit(self.source@[*old(i) as int]),
            unicode_alphabetic(self.source@[*old(i) as int]),
        ensures
            ({
                let st = first_step(self.source@.skip(*old(i) as int));
                &&& *final(i) == *old(i) + st.lexeme.len()
                &&& match r {
                    Ok(t) => st.kind == StepKind::Emit(t@),
                    Err(_) => false,
                }
            }),
    {
        let ghost start = *i as int;
        let ghost s = self.source@.skip(start);
        let src: &str = self.source.as_str();
        let n: usize = src.unicode_len();
        let mut lex: Vec<char> = Vec::new();
        let mut j: usize = *i;
        while j < n && alnum_at(src, j)
            invariant
                0 <= start <= j <= n,
                n == src@.len(),
                lex@ == src@.subrange(start, j as int),
                forall|k: int| start <= k < j ==> is_alnum(#[trigger] src@[k]),
            decreases n - j,
        {
            let c = src.get_char(j);
            proof {
                assert(src@.subrange(start, j + 1) =~= src@.subrange(start, j as int).push(
                    src@[j as int],
                ));
            }
            lex.push(c);
            j = j + 1;
        }
        let ghost d_run = j - start;
        proof {
            assert(s =~= src@.skip(start));
            assert(forall|k: int| 0 <= k < d_run ==> src@.skip(start)[k] == #[trigger] src@[start + k]);
            assert(is_alnum(s[0]));
            lemma_alnum_run_char(src@.skip(start), d_run);
            assert(d_run >= 1);
            assert(s.take(d_run) =~= src@.subrange(start, j as int));
        }
        *i = j;
        let lexeme_str: String = string_from_chars(&lex);
        let lower: String = to_lowercase_str(lexeme_str.as_str());
        match keyword_lookup(lower.as_str()) {
            Some(op) => Ok(Token::Op(op)),
            None => Ok(Token::Identifier(lexeme_str)),
        }
    }
}

} // verus!
