//! Global laws of the scan, stated over the model and proved once for all
//! inputs: the lexeme decomposition accounts for every character position,
//! and scanning texts joined by a separator concatenates their tokens.

use vstd::prelude::*;

use crate::chars::is_alnum;
use crate::chars::is_dec_digit;
use crate::chars::is_hex_digit;
use crate::chars::unicode_alphabetic;
use crate::model::alnum_run_len;
use crate::model::dec_run_len;
use crate::model::first_step;
use crate::model::hex_run_len;
use crate::model::lemma_alnum_run_char;
use crate::model::lemma_alnum_run_props;
use crate::model::lemma_dec_run_char;
use crate::model::lemma_dec_run_props;
use crate::model::lemma_first_step_lexeme;
use crate::model::lemma_hex_run_char;
use crate::model::lemma_hex_run_props;
use crate::model::scan_spec;
use crate::model::step_line_delta;
use crate::model::Step;
use crate::model::StepKind;
use crate::token::TokenModel;

verus! {

/// The sequence of scanning steps that consumes the whole of `s`.
pub open spec fn steps_of(s: Seq<char>) -> Seq<Step>
    decreases s.len(),
    via steps_of_dec
{
    if s.len() == 0 {
        Seq::empty()
    } else {
        let st = first_step(s);
        seq![st] + steps_of(s.skip(st.lexeme.len() as int))
    }
}

#[via_fn]
proof fn steps_of_dec(s: Seq<char>) {
    if s.len() > 0 {
        lemma_first_step_lexeme(s);
    }
}

/// The characters the steps consume, in order.
pub open spec fn lexemes_concat(steps: Seq<Step>) -> Seq<char>
    decreases steps.len(),
{
    if steps.len() == 0 {
        Seq::empty()
    } else {
        steps[0].lexeme + lexemes_concat(steps.drop_first())
    }
}

/// The tokens the steps emit, in order.
pub open spec fn emitted_tokens(steps: Seq<Step>) -> Seq<TokenModel>
    decreases steps.len(),
{
    if steps.len() == 0 {
        Seq::empty()
    } else {
        match steps[0].kind {
            StepKind::Emit(t) => seq![t] + emitted_tokens(steps.drop_first()),
            _ => emitted_tokens(steps.drop_first()),
        }
    }
}

/// How many of the steps fault.
pub open spec fn fault_count(steps: Seq<Step>) -> nat
    decreases steps.len(),
{
    if steps.len() == 0 {
        0
    } else {
        ((match steps[0].kind {
            StepKind::Fault => 1int,
            _ => 0int,
        }) + fault_count(steps.drop_first())) as nat
    }
}

/// Every character position of the input is accounted for: the scan splits
/// `s` into consecutive nonempty lexemes, a lexeme that yields nothing is a
/// single discarded character, and the scan's tokens and errors are exactly
/// one token per emitting lexeme and one error per faulting lexeme.
pub proof fn lemma_scan_accounts_for_input(s: Seq<char>, line: int)
    ensures
        lexemes_concat(steps_of(s)) == s,
        forall|j: int| 0 <= j < steps_of(s).len() ==> (#[trigger] steps_of(s)[j]).lexeme.len() >= 1,
        forall|j: int|
            0 <= j < steps_of(s).len() ==> ((#[trigger] steps_of(s)[j]).kind is Skip
                ==> steps_of(s)[j].lexeme.len() == 1),
        scan_spec(s, line).tokens == emitted_tokens(steps_of(s)),
        scan_spec(s, line).error_lines.len() == fault_count(steps_of(s)),
    decreases s.len(),
{
    if s.len() == 0 {
        assert(lexemes_concat(steps_of(s)) =~= s);
    } else {
        lemma_first_step_lexeme(s);
        let st = first_step(s);
        let l = st.lexeme.len() as int;
        let rest = s.skip(l);
        lemma_scan_accounts_for_input(rest, line + step_line_delta(st));
        assert(steps_of(s) == seq![st] + steps_of(rest));
        assert(steps_of(s).drop_first() =~= steps_of(rest));
        assert(st.lexeme + rest =~= s);
        assert(forall|j: int|
            1 <= j < steps_of(s).len() ==> #[trigger] steps_of(s)[j] == steps_of(rest)[j - 1]);
        if st.kind is Skip {
            assert(st.lexeme.len() == 1);
        }
        let m_rest = scan_spec(rest, line + step_line_delta(st));
        match st.kind {
            StepKind::Emit(t) => {
                assert(scan_spec(s, line).tokens == seq![t] + m_rest.tokens);
            },
            StepKind::Fault => {
                assert(scan_spec(s, line).error_lines == seq![line] + m_rest.error_lines);
            },
            StepKind::Skip => {},
        }
    }
}

/// A maximal hexadecimal run is unchanged by appending text that starts with
/// a non-digit.
proof fn lemma_hex_run_append(a: Seq<char>, b: Seq<char>)
    requires
        b.len() > 0,
        !is_hex_digit(b[0]),
    ensures
        hex_run_len(a + b) == hex_run_len(a),
{
    lemma_hex_run_props(a);
    let j = hex_run_len(a) as int;
    assert(forall|k: int| 0 <= k < j ==> (a + b)[k] == a[k]);
    if j < a.len() {
        assert((a + b)[j] == a[j]);
    } else {
        assert((a + b)[j] == b[0]);
    }
    lemma_hex_run_char(a + b, j);
}

/// A maximal decimal run is unchanged by appending text that starts with a
/// non-digit.
proof fn lemma_dec_run_append(a: Seq<char>, b: Seq<char>)
    requires
        b.len() > 0,
        !is_dec_digit(b[0]),
    ensures
        dec_run_len(a + b) == dec_run_len(a),
{
    lemma_dec_run_props(a);
    let j = dec_run_len(a) as int;
    assert(forall|k: int| 0 <= k < j ==> (a + b)[k] == a[k]);
    if j < a.len() {
        assert((a + b)[j] == a[j]);
    } else {
        assert((a + b)[j] == b[0]);
    }
    lemma_dec_run_char(a + b, j);
}

/// A maximal alphanumeric run is unchanged by appending text that starts with
/// a non-alphanumeric character.
proof fn lemma_alnum_run_append(a: Seq<char>, b: Seq<char>)
    requires
        b.len() > 0,
        !is_alnum(b[0]),
    ensures
        alnum_run_len(a + b) == alnum_run_len(a),
{
    lemma_alnum_run_props(a);
    let j = alnum_run_len(a) as int;
    assert(forall|k: int| 0 <= k < j ==> (a + b)[k] == a[k]);
    if j < a.len() {
        assert((a + b)[j] == a[j]);
    } else {
        assert((a + b)[j] == b[0]);
    }
    lemma_alnum_run_char(a + b, j);
}

/// The tokens of a scan do not depend on the starting line number.
proof fn lemma_scan_tokens_line_free(s: Seq<char>, l1: int, l2: int)
    ensures
        scan_spec(s, l1).tokens == scan_spec(s, l2).tokens,
    decreases s.len(),
{
    if s.len() > 0 {
        lemma_first_step_lexeme(s);
        let st = first_step(s);
        lemma_scan_tokens_line_free(
            s.skip(st.lexeme.len() as int),
            l1 + step_line_delta(st),
            l2 + step_line_delta(st),
        );
    }
}

proof fn lemma_scan_sep_helper(s1: Seq<char>, sep: char, s2: Seq<char>, l1: int, l2: int, l3: int)
    requires
        sep != '$',
        !is_hex_digit(sep),
        !is_alnum(sep),
    ensures
        scan_spec(s1 + seq![sep] + s2, l1).tokens == scan_spec(s1, l2).tokens + scan_spec(
            s2,
            l3,
        ).tokens,
    decreases s1.len(),
{
    let w = s1 + seq![sep] + s2;
    assert(!is_dec_digit(sep));
    assert(!unicode_alphabetic(sep));
    if s1.len() == 0 {
        assert(w[0] == sep);
        let st = first_step(w);
        assert(st.kind is Skip);
        assert(w.skip(1) =~= s2);
        lemma_scan_tokens_line_free(s2, l1 + step_line_delta(st), l3);
        assert(scan_spec(s1, l2).tokens =~= Seq::<TokenModel>::empty());
        assert(scan_spec(s1, l2).tokens + scan_spec(s2, l3).tokens =~= scan_spec(s2, l3).tokens);
    } else {
        lemma_first_step_lexeme(s1);
        let st1 = first_step(s1);
        let l = st1.lexeme.len() as int;
        let c = s1[0];
        assert(w[0] == c);
        let tail = seq![sep] + s2;
        assert(tail.len() > 0 && tail[0] == sep);
        if c == '$' {
            assert(w.skip(1) =~= s1.skip(1) + tail);
            lemma_hex_run_append(s1.skip(1), tail);
            lemma_hex_run_props(s1.skip(1));
            let d = hex_run_len(s1.skip(1)) as int;
            assert(w.skip(1).take(d) =~= s1.skip(1).take(d));
            assert(w.take(1 + d) =~= s1.take(1 + d));
        } else if is_dec_digit(c) {
            assert(w =~= s1 + tail);
            lemma_dec_run_append(s1, tail);
            lemma_dec_run_props(s1);
            let d = dec_run_len(s1) as int;
            assert(w.take(d) =~= s1.take(d));
        } else if unicode_alphabetic(c) {
            assert(w =~= s1 + tail);
            lemma_alnum_run_append(s1, tail);
            lemma_alnum_run_props(s1);
            let d = alnum_run_len(s1) as int;
            assert(w.take(d) =~= s1.take(d));
        } else {
            assert(w.take(1) =~= s1.take(1));
        }
        assert(first_step(w).lexeme == st1.lexeme);
        assert(first_step(w).kind == st1.kind);
        assert(w.skip(l) =~= s1.skip(l) + seq![sep] + s2);
        lemma_scan_sep_helper(
            s1.skip(l),
            sep,
            s2,
            l1 + step_line_delta(st1),
            l2 + step_line_delta(st1),
            l3,
        );
        let t_rest = scan_spec(s1.skip(l) + seq![sep] + s2, l1 + step_line_delta(st1)).tokens;
        match st1.kind {
            StepKind::Emit(t) => {
                assert(scan_spec(w, l1).tokens == seq![t] + t_rest);
                assert(seq![t] + (scan_spec(s1.skip(l), l2 + step_line_delta(st1)).tokens
                    + scan_spec(s2, l3).tokens) =~= (seq![t] + scan_spec(
                    s1.skip(l),
                    l2 + step_line_delta(st1),
                ).tokens) + scan_spec(s2, l3).tokens);
            },
            StepKind::Fault => {},
            StepKind::Skip => {},
        }
    }
}

/// Scanning two texts joined by a separator character — one that cannot begin
/// or continue any lexeme — yields exactly the tokens of the first text
/// followed by the tokens of the second: no lexeme merges across the
/// boundary. Whitespace and punctuation are such separators.
pub proof fn lemma_scan_separated_concat(s1: Seq<char>, sep: char, s2: Seq<char>, line: int)
    requires
        sep != '$',
        !is_hex_digit(sep),
        !is_alnum(sep),
    ensures
        scan_spec(s1 + seq![sep] + s2, line).tokens == scan_spec(s1, line).tokens + scan_spec(
            s2,
            line,
        ).tokens,
{
    lemma_scan_sep_helper(s1, sep, s2, line, line, line);
}

} // verus!
