//! The mathematical model of the lexer: a total, functional description of
//! how one pass over the input bytes produces a sequence of top-level token
//! trees and a sequence of diagnostics. The executable lexer in
//! `tokenizer` is proved to return exactly what this model says.

use vstd::prelude::*;

use crate::errors::SpecError;
use crate::errors::msg_digit_after_base_prefix;
use crate::errors::msg_digit_after_dot;
use crate::errors::msg_duplicate_decimal_point;
use crate::errors::msg_expected_close;
use crate::errors::msg_expected_open;
use crate::errors::msg_integer_overflow;
use crate::errors::msg_unexpected_character;
use crate::errors::msg_unterminated_string;
use crate::scanner::ScanPos;
use crate::scanner::lemma_scan_steps_index;
use crate::scanner::scan_pos_si;
use crate::scanner::scan_start;
use crate::scanner::scan_step;
use crate::scanner::scan_steps;
use crate::scanner::prefix2_at;
use crate::source_info::SpecPos;

verus! {

/// The model of a lexed token: what the lexer can actually produce. Type
/// annotations, signed integers and sweet expressions never come out of the
/// lexer, so they have no counterpart here.
pub ghost struct SpecToken {
    pub pos: SpecPos,
    pub kind: SpecTokenKind,
}

pub ghost enum SpecTokenKind {
    Group(Seq<SpecToken>),
    Ident(Seq<char>),
    UInt(u128),
    /// The exact source digits of a decimal float literal.
    FloatLit(Seq<u8>),
    StrLit(Seq<u8>),
}

/// The outcome of one attempt to scan a token: the token or a diagnostic,
/// together with the cursor afterwards (scanning resumes from there).
pub ghost enum SpecScan {
    Tok(SpecToken, ScanPos),
    Fail(SpecError, ScanPos),
}

/// The outcome of scanning the members of a group up to its closing brace.
pub ghost enum SpecItems {
    Done(Seq<SpecToken>, ScanPos),
    Fail(SpecError, ScanPos),
}

// ------------------------------------------------------------------
// Byte classification
// ------------------------------------------------------------------

/// ASCII whitespace. Non-ASCII bytes are never whitespace here; they reach
/// the token scanner and are reported as unexpected characters.
pub open spec fn is_space_byte(b: u8) -> bool {
    b == 32 || (9 <= b <= 13)
}

pub open spec fn is_digit_byte(b: u8) -> bool {
    48 <= b <= 57
}

/// Digits of the bases a literal can be written in (2, 8, 10, 16); both
/// letter cases serve as hex digits.
pub open spec fn is_digit_in_base(b: u8, base: nat) -> bool {
    if base == 16 {
        is_digit_byte(b) || (97 <= b <= 102) || (65 <= b <= 70)
    } else {
        48 <= b && b < 48 + base
    }
}

/// The characters an identifier may continue with: ASCII letters and a
/// fixed set of symbolic characters, excluding the group delimiters, the
/// quote character and whitespace. Digits are allowed here; they are only
/// excluded as the leading character by the token dispatch.
pub open spec fn is_ident_char_byte(b: u8) -> bool {
    ||| b == 33  // !
    ||| 36 <= b <= 38  // $ % &
    ||| b == 42  // *
    ||| b == 43  // +
    ||| b == 45  // -
    ||| 47 <= b <= 90  // / 0-9 : ; < = > ? @ A-Z
    ||| b == 92  // backslash
    ||| 94 <= b <= 122  // ^ _ ` a-z
    ||| b == 124  // |
    ||| b == 126  // ~
}

/// The characters an identifier may start with: the same set minus digits.
pub open spec fn is_ident_start_byte(b: u8) -> bool {
    is_ident_char_byte(b) && !is_digit_byte(b)
}

// ------------------------------------------------------------------
// Spans
// ------------------------------------------------------------------

/// The end of the maximal run of base-`base` digits starting at `i`.
pub open spec fn digits_end(text: Seq<u8>, i: int, base: nat) -> int
    decreases text.len() - i,
{
    if 0 <= i < text.len() && is_digit_in_base(text[i], base) {
        digits_end(text, i + 1, base)
    } else {
        i
    }
}

/// The end of the maximal run of identifier characters starting at `i`.
pub open spec fn ident_end(text: Seq<u8>, i: int) -> int
    decreases text.len() - i,
{
    if 0 <= i < text.len() && is_ident_char_byte(text[i]) {
        ident_end(text, i + 1)
    } else {
        i
    }
}

/// The position of the first double quote at or after `i`, or the input
/// length if there is none.
pub open spec fn quote_end(text: Seq<u8>, i: int) -> int
    decreases text.len() - i,
{
    if 0 <= i < text.len() {
        if text[i] == 34 {
            i
        } else {
            quote_end(text, i + 1)
        }
    } else {
        text.len() as int
    }
}

/// The numeric value of a digit span read in the given base.
pub open spec fn digit_val(b: u8) -> nat {
    if 48 <= b <= 57 {
        (b - 48) as nat
    } else if 97 <= b <= 102 {
        (b - 87) as nat
    } else if 65 <= b <= 70 {
        (b - 55) as nat
    } else {
        0
    }
}

pub open spec fn base_val(ds: Seq<u8>, base: nat) -> nat
    decreases ds.len(),
{
    if ds.len() == 0 {
        0
    } else {
        base_val(ds.drop_last(), base) * base + digit_val(ds.last())
    }
}

/// Bounds and contents of a maximal digit run.
pub proof fn lemma_digits_end(text: Seq<u8>, i: int, base: nat)
    requires
        0 <= i <= text.len(),
    ensures
        i <= digits_end(text, i, base) <= text.len(),
        forall|j: int|
            i <= j < digits_end(text, i, base) ==> is_digit_in_base(#[trigger] text[j], base),
        digits_end(text, i, base) < text.len() ==> !is_digit_in_base(
            text[digits_end(text, i, base)],
            base,
        ),
    decreases text.len() - i,
{
    if i < text.len() && is_digit_in_base(text[i], base) {
        lemma_digits_end(text, i + 1, base);
    }
}

/// Bounds and contents of a maximal identifier run.
pub proof fn lemma_ident_end(text: Seq<u8>, i: int)
    requires
        0 <= i <= text.len(),
    ensures
        i <= ident_end(text, i) <= text.len(),
        forall|j: int| i <= j < ident_end(text, i) ==> is_ident_char_byte(#[trigger] text[j]),
        ident_end(text, i) < text.len() ==> !is_ident_char_byte(text[ident_end(text, i)]),
    decreases text.len() - i,
{
    if i < text.len() && is_ident_char_byte(text[i]) {
        lemma_ident_end(text, i + 1);
    }
}

/// Bounds and contents of the span up to the next double quote.
pub proof fn lemma_quote_end(text: Seq<u8>, i: int)
    requires
        0 <= i <= text.len(),
    ensures
        i <= quote_end(text, i) <= text.len(),
        forall|j: int| i <= j < quote_end(text, i) ==> #[trigger] text[j] != 34,
        quote_end(text, i) < text.len() ==> text[quote_end(text, i)] == 34,
    decreases text.len() - i,
{
    if i < text.len() && text[i] != 34 {
        lemma_quote_end(text, i + 1);
    }
}

/// Reading one more digit multiplies the value by the base and adds it.
pub proof fn lemma_base_val_push(ds: Seq<u8>, d: u8, base: nat)
    ensures
        base_val(ds.push(d), base) == base_val(ds, base) * base + digit_val(d),
{
    assert(ds.push(d).drop_last() =~= ds);
    assert(ds.push(d).last() == d);
}

/// The guard the digit loop tests before multiplying: staying at or below
/// `(m - d) / b` keeps `v * b + d` within `m`.
pub proof fn lemma_accum_within(v: int, b: int, d: int, m: int)
    requires
        b >= 1,
        0 <= d <= m,
        0 <= v <= (m - d) / b,
    ensures
        v * b + d <= m,
{
    vstd::arithmetic::div_mod::lemma_fundamental_div_mod(m - d, b);
    vstd::arithmetic::mul::lemma_mul_inequality(v, (m - d) / b, b);
    vstd::arithmetic::div_mod::lemma_mod_bound(m - d, b);
}

/// Exceeding that guard makes `v * b + d` exceed `m`.
pub proof fn lemma_accum_exceeds(v: int, b: int, d: int, m: int)
    requires
        b >= 1,
        0 <= d <= m,
        v > (m - d) / b,
        v >= 0,
    ensures
        v * b + d > m,
{
    vstd::arithmetic::div_mod::lemma_fundamental_div_mod(m - d, b);
    vstd::arithmetic::mul::lemma_mul_inequality((m - d) / b + 1, v, b);
    vstd::arithmetic::div_mod::lemma_mod_bound(m - d, b);
    assert(((m - d) / b + 1) * b == ((m - d) / b) * b + b) by (nonlinear_arith);
}

/// Once a span's value exceeds 128 bits, so does every extension of it.
pub proof fn lemma_base_val_overflow_sticky(ds: Seq<u8>, d: u8, base: nat)
    requires
        base >= 2,
        base_val(ds, base) > u128::MAX,
    ensures
        base_val(ds.push(d), base) > u128::MAX,
{
    lemma_base_val_push(ds, d, base);
    assert(base_val(ds, base) * base >= base_val(ds, base) * 2) by (nonlinear_arith)
        requires
            base >= 2,
    ;
}

// ------------------------------------------------------------------
// Whitespace and comments
// ------------------------------------------------------------------

/// Where the cursor stands while skipping: in code, inside a line comment
/// (`#` to end of line), or inside a block comment (`#-` to `-#`).
pub ghost enum WsMode {
    Code,
    Line,
    Block,
}

/// Skipping whitespace and comments, one byte at a time. A line comment
/// ends at the first newline (consumed); a block comment ends at the first
/// `-#` (consumed); either ends silently at the end of the input.
pub open spec fn skip_ws_from(text: Seq<u8>, p: ScanPos, mode: WsMode) -> ScanPos
    decreases text.len() - p.index,
{
    if p.index < 0 || p.index >= text.len() {
        p
    } else {
        let b = text[p.index];
        match mode {
            WsMode::Code => {
                if is_space_byte(b) {
                    skip_ws_from(text, scan_step(text, p), WsMode::Code)
                } else if b == 35 {  // #
                    if p.index + 1 < text.len() && text[p.index + 1] == 45 {  // -
                        skip_ws_from(
                            text,
                            scan_step(text, scan_step(text, p)),
                            WsMode::Block,
                        )
                    } else {
                        skip_ws_from(text, scan_step(text, p), WsMode::Line)
                    }
                } else {
                    p
                }
            },
            WsMode::Line => {
                if b == 10 {  // newline ends the comment and is consumed
                    skip_ws_from(text, scan_step(text, p), WsMode::Code)
                } else {
                    skip_ws_from(text, scan_step(text, p), WsMode::Line)
                }
            },
            WsMode::Block => {
                if b == 45 && p.index + 1 < text.len() && text[p.index + 1] == 35 {
                    skip_ws_from(text, scan_step(text, scan_step(text, p)), WsMode::Code)
                } else {
                    skip_ws_from(text, scan_step(text, p), WsMode::Block)
                }
            },
        }
    }
}

pub open spec fn spec_skip_ws(text: Seq<u8>, p: ScanPos) -> ScanPos {
    skip_ws_from(text, p, WsMode::Code)
}

/// Skipping never rewinds the cursor, and never runs past the input.
pub proof fn lemma_skip_ws_mono(text: Seq<u8>, p: ScanPos, mode: WsMode)
    ensures
        p.index <= skip_ws_from(text, p, mode).index,
        p.index <= text.len() ==> skip_ws_from(text, p, mode).index <= text.len(),
    decreases text.len() - p.index,
{
    if 0 <= p.index < text.len() {
        let b = text[p.index];
        match mode {
            WsMode::Code => {
                if is_space_byte(b) {
                    lemma_skip_ws_mono(text, scan_step(text, p), WsMode::Code);
                } else if b == 35 {
                    if p.index + 1 < text.len() && text[p.index + 1] == 45 {
                        lemma_skip_ws_mono(
                            text,
                            scan_step(text, scan_step(text, p)),
                            WsMode::Block,
                        );
                    } else {
                        lemma_skip_ws_mono(text, scan_step(text, p), WsMode::Line);
                    }
                }
            },
            WsMode::Line => {
                if b == 10 {
                    lemma_skip_ws_mono(text, scan_step(text, p), WsMode::Code);
                } else {
                    lemma_skip_ws_mono(text, scan_step(text, p), WsMode::Line);
                }
            },
            WsMode::Block => {
                if b == 45 && p.index + 1 < text.len() && text[p.index + 1] == 35 {
                    lemma_skip_ws_mono(text, scan_step(text, scan_step(text, p)), WsMode::Code);
                } else {
                    lemma_skip_ws_mono(text, scan_step(text, p), WsMode::Block);
                }
            },
        }
    }
}

// ------------------------------------------------------------------
// Single tokens
// ------------------------------------------------------------------

/// An identifier: the maximal run of identifier characters from the cursor,
/// taken as characters.
pub open spec fn spec_scan_identifier(text: Seq<u8>, p: ScanPos) -> SpecScan {
    let end = ident_end(text, p.index);
    let n = (end - p.index) as nat;
    SpecScan::Tok(
        SpecToken {
            pos: scan_pos_si(p),
            kind: SpecTokenKind::Ident(
                text.subrange(p.index, end).map(|j: int, b: u8| b as char),
            ),
        },
        scan_steps(text, p, n),
    )
}

/// A string literal: the raw bytes up to the next double quote, which is
/// consumed; reaching the end of the input first is an error reported
/// there.
pub open spec fn spec_scan_string(text: Seq<u8>, p: ScanPos) -> SpecScan {
    let q = quote_end(text, p.index + 1);
    if q < text.len() {
        let after = scan_steps(text, p, (q + 1 - p.index) as nat);
        SpecScan::Tok(
            SpecToken {
                pos: scan_pos_si(p),
                kind: SpecTokenKind::StrLit(text.subrange(p.index + 1, q)),
            },
            after,
        )
    } else {
        let after = scan_steps(text, p, (text.len() - p.index) as nat);
        SpecScan::Fail(
            SpecError { pos: scan_pos_si(after), msg: msg_unterminated_string() },
            after,
        )
    }
}

/// A numeric literal in a given base, after its `0x`/`0o`/`0b` prefix (of
/// length 2) has been recognised: the digit span read in that base, which
/// must be non-empty and fit in 128 bits.
pub open spec fn spec_scan_prefixed(text: Seq<u8>, p: ScanPos, base: nat) -> SpecScan {
    let p1 = scan_steps(text, p, 2);
    let end = digits_end(text, p.index + 2, base);
    let span = text.subrange(p.index + 2, end);
    let after = scan_steps(text, p, (end - p.index) as nat);
    if span.len() == 0 {
        SpecScan::Fail(
            SpecError { pos: scan_pos_si(p1), msg: msg_digit_after_base_prefix() },
            p1,
        )
    } else if base_val(span, base) > u128::MAX {
        SpecScan::Fail(SpecError { pos: scan_pos_si(p), msg: msg_integer_overflow() }, after)
    } else {
        SpecScan::Tok(
            SpecToken {
                pos: scan_pos_si(p),
                kind: SpecTokenKind::UInt(base_val(span, base) as u128),
            },
            after,
        )
    }
}

/// A numeric literal: a base-prefixed integer, a decimal integer, or a
/// single-dot decimal float. The cursor stands on a decimal digit.
pub open spec fn spec_scan_number(text: Seq<u8>, p: ScanPos) -> SpecScan {
    if prefix2_at(text, p.index, 48, 120) {  // 0x
        spec_scan_prefixed(text, p, 16)
    } else if prefix2_at(text, p.index, 48, 111) {  // 0o
        spec_scan_prefixed(text, p, 8)
    } else if prefix2_at(text, p.index, 48, 98) {  // 0b
        spec_scan_prefixed(text, p, 2)
    } else {
        let d1 = digits_end(text, p.index, 10);
        let int_after = scan_steps(text, p, (d1 - p.index) as nat);
        if d1 < text.len() && text[d1] == 46 {  // .
            if d1 + 1 < text.len() && is_digit_byte(text[d1 + 1]) {
                let d2 = digits_end(text, d1 + 1, 10);
                let float_after = scan_steps(text, p, (d2 - p.index) as nat);
                if d2 < text.len() && text[d2] == 46 {
                    SpecScan::Fail(
                        SpecError {
                            pos: scan_pos_si(float_after),
                            msg: msg_duplicate_decimal_point(),
                        },
                        float_after,
                    )
                } else {
                    SpecScan::Tok(
                        SpecToken {
                            pos: scan_pos_si(p),
                            kind: SpecTokenKind::FloatLit(text.subrange(p.index, d2)),
                        },
                        float_after,
                    )
                }
            } else {
                // the dot is consumed; the error points at what follows it
                let dot_after = scan_steps(text, p, (d1 + 1 - p.index) as nat);
                SpecScan::Fail(
                    SpecError { pos: scan_pos_si(dot_after), msg: msg_digit_after_dot() },
                    dot_after,
                )
            }
        } else {
            let span = text.subrange(p.index, d1);
            if base_val(span, 10) > u128::MAX {
                SpecScan::Fail(
                    SpecError { pos: scan_pos_si(p), msg: msg_integer_overflow() },
                    int_after,
                )
            } else {
                SpecScan::Tok(
                    SpecToken {
                        pos: scan_pos_si(p),
                        kind: SpecTokenKind::UInt(base_val(span, 10) as u128),
                    },
                    int_after,
                )
            }
        }
    }
}

// ------------------------------------------------------------------
// Groups and the whole input
// ------------------------------------------------------------------

/// The cursor moved forward by force; only used to keep the recursion
/// measures decreasing on branches that the progress lemmas rule out.
pub open spec fn scan_bump(p: ScanPos) -> ScanPos {
    ScanPos { index: p.index + 1, ..p }
}

/// One token inside a group, dispatched on the byte under the cursor.
pub open spec fn spec_scan_token(text: Seq<u8>, p: ScanPos) -> SpecScan
    decreases text.len() - p.index, 1int,
{
    if p.index < 0 || p.index >= text.len() {
        SpecScan::Fail(
            SpecError { pos: scan_pos_si(p), msg: msg_unexpected_character() },
            p,
        )
    } else {
        let b = text[p.index];
        if b == 123 {  // {
            spec_scan_group(text, p)
        } else if is_ident_start_byte(b) {
            spec_scan_identifier(text, p)
        } else if is_digit_byte(b) {
            spec_scan_number(text, p)
        } else if b == 34 {  // "
            spec_scan_string(text, p)
        } else {
            SpecScan::Fail(
                SpecError { pos: scan_pos_si(p), msg: msg_unexpected_character() },
                p,
            )
        }
    }
}

/// The members of a group: tokens separated by whitespace, ending at the
/// closing brace or the end of the input (both left unconsumed). A failed
/// member ends the whole attempt.
pub open spec fn spec_scan_items(text: Seq<u8>, p: ScanPos) -> SpecItems
    decreases text.len() - p.index, 2int,
{
    if p.index < 0 || p.index >= text.len() {
        SpecItems::Done(seq![], p)
    } else if text[p.index] == 125 {  // }
        SpecItems::Done(seq![], p)
    } else {
        match spec_scan_token(text, p) {
            SpecScan::Fail(e, pf) => SpecItems::Fail(e, pf),
            SpecScan::Tok(t, pt) => {
                let pn = spec_skip_ws(text, pt);
                let pnc = if pn.index > p.index && pn.index <= text.len() {
                    pn
                } else {
                    scan_bump(p)
                };
                match spec_scan_items(text, pnc) {
                    SpecItems::Done(rest, pf) => SpecItems::Done(seq![t] + rest, pf),
                    SpecItems::Fail(e, pf) => SpecItems::Fail(e, pf),
                }
            },
        }
    }
}

/// One group: an opening brace, members with surrounding whitespace, and a
/// closing brace. A missing opening or closing delimiter is an error at the
/// position just past the byte that was read looking for it.
pub open spec fn spec_scan_group(text: Seq<u8>, p: ScanPos) -> SpecScan
    decreases text.len() - p.index, 0int,
{
    let si0 = scan_pos_si(p);
    if p.index < 0 || p.index >= text.len() {
        SpecScan::Fail(SpecError { pos: si0, msg: msg_expected_open() }, p)
    } else if text[p.index] != 123 {
        let p1 = scan_step(text, p);
        SpecScan::Fail(SpecError { pos: scan_pos_si(p1), msg: msg_expected_open() }, p1)
    } else {
        let p1 = scan_step(text, p);
        let pw = spec_skip_ws(text, p1);
        let pwc = if pw.index > p.index && pw.index <= text.len() {
            pw
        } else {
            scan_bump(p)
        };
        match spec_scan_items(text, pwc) {
            SpecItems::Fail(e, pf) => SpecScan::Fail(e, pf),
            SpecItems::Done(children, p3) => {
                if p3.index >= text.len() {
                    SpecScan::Fail(
                        SpecError { pos: scan_pos_si(p3), msg: msg_expected_close() },
                        p3,
                    )
                } else {
                    let p4 = scan_step(text, p3);
                    if text[p3.index] == 125 {
                        SpecScan::Tok(
                            SpecToken { pos: si0, kind: SpecTokenKind::Group(children) },
                            p4,
                        )
                    } else {
                        SpecScan::Fail(
                            SpecError { pos: scan_pos_si(p4), msg: msg_expected_close() },
                            p4,
                        )
                    }
                }
            },
        }
    }
}

/// Top-level forms: groups separated by whitespace, to the end of the
/// input. On a failed attempt the diagnostic is recorded and scanning
/// resumes where the attempt stopped.
pub open spec fn spec_tokenize_loop(text: Seq<u8>, p: ScanPos) -> (Seq<SpecToken>, Seq<
    SpecError,
>)
    decreases text.len() - p.index, 3int,
{
    if p.index < 0 || p.index >= text.len() {
        (seq![], seq![])
    } else {
        match spec_scan_group(text, p) {
            SpecScan::Tok(t, p2) => {
                let pn = spec_skip_ws(text, p2);
                let pnc = if pn.index > p.index && pn.index <= text.len() {
                    pn
                } else {
                    scan_bump(p)
                };
                let (ts, es) = spec_tokenize_loop(text, pnc);
                (seq![t] + ts, es)
            },
            SpecScan::Fail(e, p2) => {
                let pn = spec_skip_ws(text, p2);
                let pnc = if pn.index > p.index && pn.index <= text.len() {
                    pn
                } else {
                    scan_bump(p)
                };
                let (ts, es) = spec_tokenize_loop(text, pnc);
                (ts, seq![e] + es)
            },
        }
    }
}

/// What lexing the whole input yields: every successfully scanned top-level
/// token and every diagnostic, in source order.
pub open spec fn spec_tokenize(text: Seq<u8>) -> (Seq<SpecToken>, Seq<SpecError>) {
    spec_tokenize_loop(text, spec_skip_ws(text, scan_start()))
}

// ------------------------------------------------------------------
// Progress: scanning a token always consumes input
// ------------------------------------------------------------------

/// Scanning a number moves the cursor forward and keeps it in the input.
pub proof fn lemma_scan_number_progress(text: Seq<u8>, p: ScanPos)
    requires
        0 <= p.index < text.len(),
        is_digit_byte(text[p.index]),
    ensures
        match spec_scan_number(text, p) {
            SpecScan::Tok(_, pt) => p.index < pt.index <= text.len(),
            SpecScan::Fail(_, pf) => p.index < pf.index <= text.len(),
        },
{
    if prefix2_at(text, p.index, 48, 120) {
        lemma_scan_prefixed_progress(text, p, 16);
    } else if prefix2_at(text, p.index, 48, 111) {
        lemma_scan_prefixed_progress(text, p, 8);
    } else if prefix2_at(text, p.index, 48, 98) {
        lemma_scan_prefixed_progress(text, p, 2);
    } else {
        assert(digits_end(text, p.index, 10) == digits_end(text, p.index + 1, 10));
        lemma_digits_end(text, p.index + 1, 10);
        let d1 = digits_end(text, p.index, 10);
        lemma_scan_steps_index(text, p, (d1 - p.index) as nat);
        if d1 < text.len() && text[d1] == 46 {
            if d1 + 1 < text.len() && is_digit_byte(text[d1 + 1]) {
                lemma_digits_end(text, d1 + 1, 10);
                let d2 = digits_end(text, d1 + 1, 10);
                lemma_scan_steps_index(text, p, (d2 - p.index) as nat);
            } else {
                lemma_scan_steps_index(text, p, (d1 + 1 - p.index) as nat);
            }
        }
    }
}

proof fn lemma_scan_prefixed_progress(text: Seq<u8>, p: ScanPos, base: nat)
    requires
        0 <= p.index,
        p.index + 2 <= text.len(),
    ensures
        match spec_scan_prefixed(text, p, base) {
            SpecScan::Tok(_, pt) => p.index < pt.index <= text.len(),
            SpecScan::Fail(_, pf) => p.index < pf.index <= text.len(),
        },
{
    lemma_scan_steps_index(text, p, 2);
    lemma_digits_end(text, p.index + 2, base);
    let end = digits_end(text, p.index + 2, base);
    lemma_scan_steps_index(text, p, (end - p.index) as nat);
}

/// Scanning a token moves the cursor forward on success and never rewinds
/// it on failure.
pub proof fn lemma_scan_token_progress(text: Seq<u8>, p: ScanPos)
    requires
        0 <= p.index <= text.len(),
    ensures
        match spec_scan_token(text, p) {
            SpecScan::Tok(_, pt) => p.index < pt.index <= text.len(),
            SpecScan::Fail(_, pf) => p.index <= pf.index <= text.len(),
        },
    decreases text.len() - p.index, 1int,
{
    if p.index < text.len() {
        let b = text[p.index];
        if b == 123 {
            lemma_scan_group_progress(text, p);
        } else if is_ident_start_byte(b) {
            assert(ident_end(text, p.index) == ident_end(text, p.index + 1));
            lemma_ident_end(text, p.index + 1);
            let end = ident_end(text, p.index);
            lemma_scan_steps_index(text, p, (end - p.index) as nat);
        } else if is_digit_byte(b) {
            lemma_scan_number_progress(text, p);
        } else if b == 34 {
            lemma_quote_end(text, p.index + 1);
            let q = quote_end(text, p.index + 1);
            if q < text.len() {
                lemma_scan_steps_index(text, p, (q + 1 - p.index) as nat);
            } else {
                lemma_scan_steps_index(text, p, (text.len() - p.index) as nat);
            }
        }
    }
}

/// Scanning group members never rewinds the cursor.
pub proof fn lemma_scan_items_progress(text: Seq<u8>, p: ScanPos)
    requires
        0 <= p.index <= text.len(),
    ensures
        match spec_scan_items(text, p) {
            SpecItems::Done(_, pf) => p.index <= pf.index <= text.len(),
            SpecItems::Fail(_, pf) => p.index <= pf.index <= text.len(),
        },
    decreases text.len() - p.index, 2int,
{
    if 0 <= p.index < text.len() && text[p.index] != 125 {
        lemma_scan_token_progress(text, p);
        match spec_scan_token(text, p) {
            SpecScan::Fail(..) => {},
            SpecScan::Tok(t, pt) => {
                lemma_skip_ws_mono(text, pt, WsMode::Code);
                let pn = spec_skip_ws(text, pt);
                let pnc = if pn.index > p.index && pn.index <= text.len() {
                    pn
                } else {
                    scan_bump(p)
                };
                lemma_scan_items_progress(text, pnc);
            },
        }
    }
}

/// Scanning a group moves the cursor forward whenever there is input, on
/// success and on failure alike.
pub proof fn lemma_scan_group_progress(text: Seq<u8>, p: ScanPos)
    requires
        0 <= p.index <= text.len(),
    ensures
        match spec_scan_group(text, p) {
            SpecScan::Tok(_, pt) => p.index < pt.index <= text.len(),
            SpecScan::Fail(_, pf) => p.index <= pf.index <= text.len() && (p.index < text.len()
                ==> p.index < pf.index),
        },
    decreases text.len() - p.index, 0int,
{
    if p.index < text.len() {
        if text[p.index] != 123 {
        } else {
            let p1 = scan_step(text, p);
            lemma_skip_ws_mono(text, p1, WsMode::Code);
            let pw = spec_skip_ws(text, p1);
            let pwc = if pw.index > p.index && pw.index <= text.len() {
                pw
            } else {
                scan_bump(p)
            };
            lemma_scan_items_progress(text, pwc);
        }
    }
}

// ------------------------------------------------------------------
// Matching the executable token tree against the model
// ------------------------------------------------------------------

/// Whether an executable token carries exactly the modelled token: same
/// position, same shape, same literal values, recursively.
pub open spec fn token_matches(t: crate::token::Token, g: SpecToken) -> bool
    decreases g,
{
    &&& t.si@ == g.pos
    &&& match g.kind {
        SpecTokenKind::Group(gs) => {
            &&& t.kind matches crate::token::TokenKind::SExpr(v)
            &&& v@.len() == gs.len()
            &&& forall|i: int| 0 <= i < gs.len() ==> token_matches(#[trigger] v@[i], gs[i])
        },
        SpecTokenKind::Ident(cs) => t.kind matches crate::token::TokenKind::Identifier(s) && s@
            == cs,
        SpecTokenKind::UInt(u) => t.kind matches crate::token::TokenKind::UInt(v) && v == u,
        SpecTokenKind::FloatLit(bs) => t.kind matches crate::token::TokenKind::Float(v) && v@
            == bs,
        SpecTokenKind::StrLit(bs) => t.kind matches crate::token::TokenKind::String(v) && v@
            == bs,
    }
}

/// Whether a sequence of executable tokens matches the modelled ones, in
/// the same order.
pub open spec fn tokens_match(ts: Seq<crate::token::Token>, gs: Seq<SpecToken>) -> bool {
    &&& ts.len() == gs.len()
    &&& forall|i: int| 0 <= i < ts.len() ==> token_matches(#[trigger] ts[i], gs[i])
}


/// A maximal digit run is pinned down by its contents and its first
/// non-digit follower.
pub proof fn lemma_digits_end_exact(text: Seq<u8>, a: int, b: int, base: nat)
    requires
        0 <= a <= b <= text.len(),
        forall|j: int| a <= j < b ==> is_digit_in_base(#[trigger] text[j], base),
        b < text.len() ==> !is_digit_in_base(text[b], base),
    ensures
        digits_end(text, a, base) == b,
    decreases b - a,
{
    if a < b {
        lemma_digits_end_exact(text, a + 1, b, base);
    }
}

/// A maximal identifier run is pinned down the same way.
pub proof fn lemma_ident_end_exact(text: Seq<u8>, a: int, b: int)
    requires
        0 <= a <= b <= text.len(),
        forall|j: int| a <= j < b ==> is_ident_char_byte(#[trigger] text[j]),
        b < text.len() ==> !is_ident_char_byte(text[b]),
    ensures
        ident_end(text, a) == b,
    decreases b - a,
{
    if a < b {
        lemma_ident_end_exact(text, a + 1, b);
    }
}

/// The first double quote is pinned down by the non-quotes before it.
pub proof fn lemma_quote_end_exact(text: Seq<u8>, a: int, b: int)
    requires
        0 <= a <= b <= text.len(),
        forall|j: int| a <= j < b ==> #[trigger] text[j] != 34,
        b < text.len() ==> text[b] == 34,
        b == text.len() ==> true,
    ensures
        b < text.len() ==> quote_end(text, a) == b,
        b == text.len() ==> quote_end(text, a) == text.len(),
    decreases b - a,
{
    if a < b {
        lemma_quote_end_exact(text, a + 1, b);
    }
}

} // verus!
