//! The mathematical model of a scan: the greedy lexeme runs, the numeric
//! value of a digit run, and the step-by-step meaning of scanning a text.

use vstd::prelude::*;

use crate::chars::digit_val;
use crate::chars::is_alnum;
use crate::chars::is_dec_digit;
use crate::chars::is_hex_digit;
use crate::chars::lower_of;
use crate::chars::unicode_alphabetic;
use crate::token::Op;
use crate::token::TokenModel;

verus! {

/// Length of the maximal run of decimal digits at the front of `s`.
pub open spec fn dec_run_len(s: Seq<char>) -> nat
    decreases s.len(),
{
    if s.len() == 0 || !is_dec_digit(s[0]) {
        0
    } else {
        (1 + dec_run_len(s.skip(1))) as nat
    }
}

/// Length of the maximal run of hexadecimal digits at the front of `s`.
pub open spec fn hex_run_len(s: Seq<char>) -> nat
    decreases s.len(),
{
    if s.len() == 0 || !is_hex_digit(s[0]) {
        0
    } else {
        (1 + hex_run_len(s.skip(1))) as nat
    }
}

/// Length of the maximal run of alphanumeric characters at the front of `s`.
pub open spec fn alnum_run_len(s: Seq<char>) -> nat
    decreases s.len(),
{
    if s.len() == 0 || !is_alnum(s[0]) {
        0
    } else {
        (1 + alnum_run_len(s.skip(1))) as nat
    }
}

/// The maximal decimal run is within bounds, consists of digits, and stops at
/// the first non-digit.
pub proof fn lemma_dec_run_props(s: Seq<char>)
    ensures
        dec_run_len(s) <= s.len(),
        forall|k: int| 0 <= k < dec_run_len(s) ==> is_dec_digit(#[trigger] s[k]),
        dec_run_len(s) < s.len() ==> !is_dec_digit(s[dec_run_len(s) as int]),
    decreases s.len(),
{
    if s.len() == 0 || !is_dec_digit(s[0]) {
    } else {
        lemma_dec_run_props(s.skip(1));
        assert(forall|k: int| 1 <= k < dec_run_len(s) ==> #[trigger] s[k] == s.skip(1)[k - 1]);
    }
}

/// Any index bounded as a maximal decimal run is bounded equals `dec_run_len`.
pub proof fn lemma_dec_run_char(s: Seq<char>, j: int)
    requires
        0 <= j <= s.len(),
        forall|k: int| 0 <= k < j ==> is_dec_digit(#[trigger] s[k]),
        j < s.len() ==> !is_dec_digit(s[j]),
    ensures
        dec_run_len(s) == j,
    decreases s.len(),
{
    if j == 0 {
    } else {
        assert(is_dec_digit(s[0]));
        lemma_dec_run_char(s.skip(1), j - 1);
    }
}

/// The maximal hexadecimal run is within bounds, consists of hex digits, and
/// stops at the first non-digit.
pub proof fn lemma_hex_run_props(s: Seq<char>)
    ensures
        hex_run_len(s) <= s.len(),
        forall|k: int| 0 <= k < hex_run_len(s) ==> is_hex_digit(#[trigger] s[k]),
        hex_run_len(s) < s.len() ==> !is_hex_digit(s[hex_run_len(s) as int]),
    decreases s.len(),
{
    if s.len() == 0 || !is_hex_digit(s[0]) {
    } else {
        lemma_hex_run_props(s.skip(1));
        assert(forall|k: int| 1 <= k < hex_run_len(s) ==> #[trigger] s[k] == s.skip(1)[k - 1]);
    }
}

/// Any index bounded as a maximal hexadecimal run is bounded equals `hex_run_len`.
pub proof fn lemma_hex_run_char(s: Seq<char>, j: int)
    requires
        0 <= j <= s.len(),
        forall|k: int| 0 <= k < j ==> is_hex_digit(#[trigger] s[k]),
        j < s.len() ==> !is_hex_digit(s[j]),
    ensures
        hex_run_len(s) == j,
    decreases s.len(),
{
    if j == 0 {
    } else {
        assert(is_hex_digit(s[0]));
        lemma_hex_run_char(s.skip(1), j - 1);
    }
}

/// The maximal alphanumeric run is within bounds, consists of alphanumeric
/// characters, and stops at the first other character.
pub proof fn lemma_alnum_run_props(s: Seq<char>)
    ensures
        alnum_run_len(s) <= s.len(),
        forall|k: int| 0 <= k < alnum_run_len(s) ==> is_alnum(#[trigger] s[k]),
        alnum_run_len(s) < s.len() ==> !is_alnum(s[alnum_run_len(s) as int]),
    decreases s.len(),
{
    if s.len() == 0 || !is_alnum(s[0]) {
    } else {
        lemma_alnum_run_props(s.skip(1));
        assert(forall|k: int| 1 <= k < alnum_run_len(s) ==> #[trigger] s[k] == s.skip(1)[k - 1]);
    }
}

/// Any index bounded as a maximal alphanumeric run is bounded equals `alnum_run_len`.
pub proof fn lemma_alnum_run_char(s: Seq<char>, j: int)
    requires
        0 <= j <= s.len(),
        forall|k: int| 0 <= k < j ==> is_alnum(#[trigger] s[k]),
        j < s.len() ==> !is_alnum(s[j]),
    ensures
        alnum_run_len(s) == j,
    decreases s.len(),
{
    if j == 0 {
    } else {
        assert(is_alnum(s[0]));
        lemma_alnum_run_char(s.skip(1), j - 1);
    }
}

/// The value of a digit run read most-significant first in the given radix.
pub open spec fn digits_val(s: Seq<char>, radix: int) -> int
    decreases s.len(),
{
    if s.len() == 0 {
        0
    } else {
        digits_val(s.drop_last(), radix) * radix + digit_val(s.last())
    }
}

/// `v` fits an unsigned 32-bit integer.
pub open spec fn fits_u32(v: int) -> bool {
    v <= u32::MAX
}

/// A digit run's value is never negative.
pub proof fn lemma_digits_val_nonneg(s: Seq<char>, radix: int)
    requires
        radix >= 0,
    ensures
        digits_val(s, radix) >= 0,
    decreases s.len(),
{
    if s.len() == 0 {
    } else {
        lemma_digits_val_nonneg(s.drop_last(), radix);
        assert(digits_val(s.drop_last(), radix) * radix >= 0) by (nonlinear_arith)
            requires
                digits_val(s.drop_last(), radix) >= 0,
                radix >= 0,
        ;
    }
}

/// Appending a digit multiplies the run's value by the radix and adds the digit.
pub proof fn lemma_digits_val_push(s: Seq<char>, c: char, radix: int)
    ensures
        digits_val(s.push(c), radix) == digits_val(s, radix) * radix + digit_val(c),
{
    assert(s.push(c).drop_last() =~= s);
    assert(s.push(c).last() == c);
}

/// Once a digit run's value is beyond the 32-bit range, appending digits keeps
/// it there.
pub proof fn lemma_digits_val_overflow_push(s: Seq<char>, c: char, radix: int)
    requires
        radix >= 1,
        !fits_u32(digits_val(s, radix)),
    ensures
        !fits_u32(digits_val(s.push(c), radix)),
{
    lemma_digits_val_push(s, c, radix);
    assert(digits_val(s, radix) * radix >= digits_val(s, radix)) by (nonlinear_arith)
        requires
            digits_val(s, radix) > 0,
            radix >= 1,
    ;
}

/// Number of newline characters in `s`.
pub open spec fn newline_count(s: Seq<char>) -> nat
    decreases s.len(),
{
    if s.len() == 0 {
        0
    } else {
        ((if s[0] == '\n' {
            1int
        } else {
            0int
        }) + newline_count(s.skip(1))) as nat
    }
}

/// There are no more newlines in a text than characters; this lets a caller
/// of `Scanner::scan` bound the newline budget by the text's length.
pub proof fn lemma_newline_count_le(s: Seq<char>)
    ensures
        newline_count(s) <= s.len(),
    decreases s.len(),
{
    if s.len() > 0 {
        lemma_newline_count_le(s.skip(1));
    }
}

/// Dropping the character at `i` removes its contribution to the newline count
/// of the rest.
pub proof fn lemma_newline_count_skip(s: Seq<char>, i: int)
    requires
        0 <= i < s.len(),
    ensures
        newline_count(s.skip(i)) == (if s[i] == '\n' {
            1int
        } else {
            0int
        }) + newline_count(s.skip(i + 1)),
{
    assert(s.skip(i).len() > 0);
    assert(s.skip(i)[0] == s[i]);
    assert(s.skip(i).skip(1) =~= s.skip(i + 1));
}

/// The newline count of a suffix shrinks as the suffix shrinks.
pub proof fn lemma_newline_count_skip_mono(s: Seq<char>, i: int, j: int)
    requires
        0 <= i <= j <= s.len(),
    ensures
        newline_count(s.skip(j)) <= newline_count(s.skip(i)),
    decreases j - i,
{
    if i < j {
        lemma_newline_count_skip(s, i);
        lemma_newline_count_skip_mono(s, i + 1, j);
    }
}

/// What one scanning step yields: one token, one error, or nothing (the
/// character is discarded).
pub enum StepKind {
    Emit(TokenModel),
    Fault,
    Skip,
}

/// One scanning step: the lexeme consumed and what it yields.
pub struct Step {
    pub lexeme: Seq<char>,
    pub kind: StepKind,
}

/// The keyword table: the lowercased mnemonic texts that name an operation.
pub open spec fn keyword_of(s: Seq<char>) -> Option<Op> {
    if s == "adc"@ {
        Some(Op::ADC)
    } else if s == "lda"@ {
        Some(Op::LDA)
    } else {
        None
    }
}

/// The token an identifier lexeme yields: a keyword if its lowercased text is
/// in the keyword table, else an identifier preserving the original text.
pub open spec fn ident_token(lex: Seq<char>) -> TokenModel {
    match keyword_of(lower_of(lex)) {
        Some(op) => TokenModel::Op(op),
        None => TokenModel::Identifier(lex),
    }
}

/// The first scanning step of a non-empty text: dispatch on the first
/// character, consume the maximal lexeme of its class, and classify it.
pub open spec fn first_step(s: Seq<char>) -> Step
    recommends
        s.len() > 0,
{
    let c = s[0];
    if c == '$' {
        let d = hex_run_len(s.skip(1));
        let digits = s.skip(1).take(d as int);
        let lexeme = s.take(1 + d as int);
        if d == 0 || !fits_u32(digits_val(digits, 16)) {
            Step { lexeme, kind: StepKind::Fault }
        } else {
            Step { lexeme, kind: StepKind::Emit(TokenModel::Number(digits_val(digits, 16) as u32)) }
        }
    } else if is_dec_digit(c) {
        let digits = s.take(dec_run_len(s) as int);
        if !fits_u32(digits_val(digits, 10)) {
            Step { lexeme: digits, kind: StepKind::Fault }
        } else {
            Step { lexeme: digits, kind: StepKind::Emit(TokenModel::Number(digits_val(digits, 10) as u32)) }
        }
    } else if unicode_alphabetic(c) {
        let lexeme = s.take(alnum_run_len(s) as int);
        Step { lexeme, kind: StepKind::Emit(ident_token(lexeme)) }
    } else {
        Step { lexeme: s.take(1), kind: StepKind::Skip }
    }
}

/// The first step of a non-empty text consumes at least one and at most all of
/// its characters, and its lexeme is the prefix it consumes.
pub proof fn lemma_first_step_lexeme(s: Seq<char>)
    requires
        s.len() > 0,
    ensures
        1 <= first_step(s).lexeme.len() <= s.len(),
        first_step(s).lexeme == s.take(first_step(s).lexeme.len() as int),
{
    let c = s[0];
    if c == '$' {
        lemma_hex_run_props(s.skip(1));
    } else if is_dec_digit(c) {
        lemma_dec_run_props(s);
        if dec_run_len(s) == 0 {
            assert(!is_dec_digit(s[0]));
        }
    } else if unicode_alphabetic(c) {
        lemma_alnum_run_props(s);
        assert(is_alnum(s[0]));
        if alnum_run_len(s) == 0 {
            assert(!is_alnum(s[0]));
        }
    } else {
    }
}

/// How a step moves the line counter: a discarded newline advances it by one.
pub open spec fn step_line_delta(st: Step) -> int {
    if st.kind is Skip && st.lexeme.len() == 1 && st.lexeme[0] == '\n' {
        1
    } else {
        0
    }
}

/// The result of a whole scan: the tokens in order, the line number of each
/// error in order, and the line counter when the text is exhausted.
pub struct ScanModel {
    pub tokens: Seq<TokenModel>,
    pub error_lines: Seq<int>,
    pub end_line: int,
}

/// The meaning of scanning `s` starting at line `line`: repeat `first_step`
/// until the text is exhausted, collecting tokens and error lines.
pub open spec fn scan_spec(s: Seq<char>, line: int) -> ScanModel
    decreases s.len(),
    via scan_spec_dec
{
    if s.len() == 0 {
        ScanModel { tokens: Seq::empty(), error_lines: Seq::empty(), end_line: line }
    } else {
        let st = first_step(s);
        let rest = scan_spec(s.skip(st.lexeme.len() as int), line + step_line_delta(st));
        match st.kind {
            StepKind::Emit(t) => ScanModel {
                tokens: seq![t] + rest.tokens,
                error_lines: rest.error_lines,
                end_line: rest.end_line,
            },
            StepKind::Fault => ScanModel {
                tokens: rest.tokens,
                error_lines: seq![line] + rest.error_lines,
                end_line: rest.end_line,
            },
            StepKind::Skip => rest,
        }
    }
}

#[via_fn]
proof fn scan_spec_dec(s: Seq<char>, line: int) {
    if s.len() > 0 {
        lemma_first_step_lexeme(s);
    }
}

} // verus!
