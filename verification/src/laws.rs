//! The laws the front end obeys, stated and proved against the models:
//! what lexing a braced literal yields, exactly which diagnostic each
//! malformed numeric literal produces, and that re-validating an
//! already-normalized form never inserts a second type placeholder.

use vstd::prelude::*;

use crate::errors::SpecError;
use crate::errors::msg_digit_after_dot;
use crate::errors::msg_duplicate_decimal_point;
use crate::scanner::ScanPos;
use crate::scanner::scan_pos_si;
use crate::scanner::scan_start;
use crate::scanner::scan_step;
use crate::token::Token;
use crate::tokenizer_model::SpecScan;
use crate::tokenizer_model::SpecToken;
use crate::scanner::lemma_scan_steps_no_newline;
use crate::source_info::SpecPos;
use crate::tokenizer_model::SpecItems;
use crate::tokenizer_model::SpecTokenKind;
use crate::tokenizer_model::WsMode;
use crate::tokenizer_model::base_val;
use crate::tokenizer_model::is_ident_char_byte;
use crate::tokenizer_model::lemma_base_val_push;
use crate::tokenizer_model::digit_val;
use crate::tokenizer_model::digits_end;
use crate::tokenizer_model::is_digit_byte;
use crate::tokenizer_model::is_space_byte;
use crate::tokenizer_model::lemma_digits_end_exact;
use crate::tokenizer_model::lemma_ident_end_exact;
use crate::tokenizer_model::lemma_quote_end_exact;
use crate::scanner::lemma_scan_steps_index;
use crate::tokenizer_model::spec_scan_string;
use crate::tokenizer_model::lemma_skip_ws_mono;
use crate::tokenizer_model::scan_bump;
use crate::tokenizer_model::spec_scan_group;
use crate::tokenizer_model::spec_scan_items;
use crate::tokenizer_model::spec_scan_number;
use crate::tokenizer_model::spec_scan_token;
use crate::tokenizer_model::spec_skip_ws;
use crate::tokenizer_model::spec_tokenize;
use crate::tokenizer_model::spec_tokenize_loop;
use crate::scanner::prefix2_at;
use crate::scanner::scan_steps;
use crate::validate_model::children_of;
use crate::validate_model::has_type_at_2;
use crate::validate_model::head_is;
use crate::validate_model::normalize2;
use crate::validate_model::vtree_token;
use crate::program::Module;
use crate::program::expressions_after;
use crate::program::registered_after;
use crate::validate::module_validated;

verus! {

/// Re-validating an already-normalized binding form — one that already
/// carries an explicit type annotation at position 2 — never inserts a
/// second placeholder: a `let` or `procedure` form keeps its child count,
/// and in every case the original annotation is still at position 2.
pub proof fn lemma_revalidation_no_second_placeholder(t: Token, r: Token)
    requires
        vtree_token(t, r),
        t.kind is SExpr,
        has_type_at_2(children_of(t)),
        head_is(children_of(t), "let"@) || head_is(children_of(t), "procedure"@) || head_is(
            children_of(t),
            "function"@,
        ),
    ensures
        head_is(children_of(t), "let"@) || head_is(children_of(t), "procedure"@)
            ==> children_of(r).len() == children_of(t).len(),
        children_of(r)[2] == children_of(t)[2],
{
    reveal_strlit("function");
    reveal_strlit("procedure");
    reveal_strlit("let");
    reveal_strlit("fun");
    assert("function"@.len() == 8);
    assert("procedure"@.len() == 9);
    assert("let"@.len() == 3);
    let s = children_of(t);
    assert(normalize2(s) == s);
    // the head names are pairwise distinct, so the rewrite relation
    // dispatches on exactly the head this form carries; splitting on it
    // exposes the matching branch to the prover
    if head_is(s, "function"@) {
    } else if head_is(s, "procedure"@) {
    } else if head_is(s, "let"@) {
    }
}


/// The bytes of one braced form.
pub open spec fn braced(lit: Seq<u8>) -> Seq<u8> {
    seq![123u8] + lit + seq![125u8]
}

/// The cursor after the opening brace of a braced form.
pub open spec fn after_open() -> ScanPos {
    ScanPos { index: 1, line: 1, column: 2, newline: false }
}

/// Once no opening brace is left, scanning yields no further tokens.
proof fn lemma_no_braces_no_tokens(text: Seq<u8>, p: ScanPos)
    requires
        0 <= p.index,
        forall|j: int| p.index <= j < text.len() ==> #[trigger] text[j] != 123,
    ensures
        spec_tokenize_loop(text, p).0 =~= Seq::<SpecToken>::empty(),
    decreases text.len() - p.index,
{
    if 0 <= p.index < text.len() {
        match spec_scan_group(text, p) {
            SpecScan::Tok(t, p2) => {
                assert(false);
            },
            SpecScan::Fail(e, p2) => {
                let pn = spec_skip_ws(text, p2);
                let pnc = if pn.index > p.index && pn.index <= text.len() {
                    pn
                } else {
                    scan_bump(p)
                };
                lemma_no_braces_no_tokens(text, pnc);
            },
        }
    }
}

/// Lexing `{lit}` where `lit` scans as the single leaf token `tok`: the
/// result is exactly one group around that token and no diagnostics.
proof fn lemma_tokenize_braced_token(lit: Seq<u8>, tok: SpecToken, pend: ScanPos)
    requires
        lit.len() > 0,
        !is_space_byte(lit[0]),
        lit[0] != 35,
        lit[0] != 123,
        lit[0] != 125,
        spec_scan_token(braced(lit), after_open()) == SpecScan::Tok(tok, pend),
        pend.index == lit.len() + 1,
    ensures
        spec_tokenize(braced(lit)) == (
            seq![
                SpecToken {
                    pos: SpecPos { line: 1, column: 1, index: 0 },
                    kind: SpecTokenKind::Group(seq![tok]),
                },
            ],
            Seq::<SpecError>::empty(),
        ),
{
    let text = braced(lit);
    assert(text.len() == lit.len() + 2);
    assert(text[0] == 123);
    assert(forall|j: int| 0 <= j < lit.len() ==> text[1 + j] == #[trigger] lit[j]);
    assert(text[lit.len() as int + 1] == 125);
    let p0 = scan_start();
    assert(spec_skip_ws(text, p0) == p0);
    let p1 = scan_step(text, p0);
    assert(p1 == after_open());
    assert(text[1] == lit[0]);
    assert(spec_skip_ws(text, p1) == p1);
    assert(spec_skip_ws(text, pend) == pend);
    assert(spec_scan_items(text, pend) == SpecItems::Done(Seq::<SpecToken>::empty(), pend));
    assert(spec_scan_items(text, p1) == SpecItems::Done(seq![tok] + seq![], pend));
    assert(seq![tok] + Seq::<SpecToken>::empty() =~= seq![tok]);
    let p4 = scan_step(text, pend);
    let gtok = SpecToken {
        pos: SpecPos { line: 1, column: 1, index: 0 },
        kind: SpecTokenKind::Group(seq![tok]),
    };
    assert(scan_pos_si(p0) == SpecPos { line: 1, column: 1, index: 0 });
    assert(spec_scan_group(text, p0) == SpecScan::Tok(gtok, p4));
    assert(p4.index == text.len());
    assert(spec_skip_ws(text, p4) == p4);
    assert(spec_tokenize_loop(text, p4) == (Seq::<SpecToken>::empty(), Seq::<
        SpecError,
    >::empty()));
    assert(spec_tokenize_loop(text, p0).0 =~= seq![gtok]);
    assert(spec_tokenize_loop(text, p0).1 =~= Seq::<SpecError>::empty());
    assert(spec_tokenize(text) == spec_tokenize_loop(text, p0));
}

/// Lexing `{lit}` where `lit` fails to scan with diagnostic `ge`, the
/// cursor stopping inside the form: the diagnostic comes back first, with
/// only cascade diagnostics after it and no token at all.
proof fn lemma_tokenize_braced_error(lit: Seq<u8>, ge: SpecError, pend: ScanPos)
    requires
        lit.len() > 0,
        !is_space_byte(lit[0]),
        lit[0] != 35,
        lit[0] != 123,
        lit[0] != 125,
        forall|j: int| 0 <= j < lit.len() ==> #[trigger] lit[j] != 123,
        spec_scan_token(braced(lit), after_open()) == SpecScan::Fail(ge, pend),
        1 < pend.index <= lit.len() + 1,
    ensures
        spec_tokenize(braced(lit)).0 =~= Seq::<SpecToken>::empty(),
        spec_tokenize(braced(lit)).1.len() >= 1,
        spec_tokenize(braced(lit)).1[0] == ge,
{
    let text = braced(lit);
    assert(text.len() == lit.len() + 2);
    assert(text[0] == 123);
    assert(forall|j: int| 0 <= j < lit.len() ==> text[1 + j] == #[trigger] lit[j]);
    assert(text[lit.len() as int + 1] == 125);
    let p0 = scan_start();
    assert(spec_skip_ws(text, p0) == p0);
    let p1 = scan_step(text, p0);
    assert(p1 == after_open());
    assert(text[1] == lit[0]);
    assert(spec_skip_ws(text, p1) == p1);
    assert(spec_scan_items(text, p1) == SpecItems::Fail(ge, pend));
    assert(spec_scan_group(text, p0) == SpecScan::Fail(ge, pend));
    lemma_skip_ws_mono(text, pend, WsMode::Code);
    let pn = spec_skip_ws(text, pend);
    let pnc = if pn.index > p0.index && pn.index <= text.len() {
        pn
    } else {
        scan_bump(p0)
    };
    assert(pnc == pn);
    assert(forall|j: int| pn.index <= j < text.len() ==> #[trigger] text[j] != 123);
    lemma_no_braces_no_tokens(text, pn);
    let rest = spec_tokenize_loop(text, pn);
    assert(spec_tokenize_loop(text, p0).0 =~= Seq::<SpecToken>::empty() + rest.0);
    assert(Seq::<SpecToken>::empty() + rest.0 =~= rest.0);
    assert(spec_tokenize_loop(text, p0).1 == seq![ge] + rest.1);
    assert((seq![ge] + rest.1)[0] == ge);
    assert(spec_tokenize(text) == spec_tokenize_loop(text, p0));
}


/// A decimal integer literal lexes to its exact positional value when that
/// value fits in 128 bits; above that range the first diagnostic is an
/// overflow error at the literal's start position, and no token comes back.
pub proof fn lemma_integer_literal(ds: Seq<u8>)
    requires
        ds.len() > 0,
        forall|i: int| 0 <= i < ds.len() ==> is_digit_byte(#[trigger] ds[i]),
    ensures
        base_val(ds, 10) <= u128::MAX ==> spec_tokenize(braced(ds)) == (
            seq![
                SpecToken {
                    pos: SpecPos { line: 1, column: 1, index: 0 },
                    kind: SpecTokenKind::Group(
                        seq![
                            SpecToken {
                                pos: SpecPos { line: 1, column: 2, index: 1 },
                                kind: SpecTokenKind::UInt(base_val(ds, 10) as u128),
                            },
                        ],
                    ),
                },
            ],
            Seq::<SpecError>::empty(),
        ),
        base_val(ds, 10) > u128::MAX ==> {
            &&& spec_tokenize(braced(ds)).0 =~= Seq::<SpecToken>::empty()
            &&& spec_tokenize(braced(ds)).1.len() >= 1
            &&& spec_tokenize(braced(ds)).1[0] == (SpecError {
                pos: SpecPos { line: 1, column: 2, index: 1 },
                msg: crate::errors::msg_integer_overflow(),
            })
        },
{
    let text = braced(ds);
    let p1 = after_open();
    assert(text.len() == ds.len() + 2);
    assert(forall|j: int| 0 <= j < ds.len() ==> text[1 + j] == #[trigger] ds[j]);
    assert(text[ds.len() as int + 1] == 125);
    assert(text[1] == ds[0]);
    assert(!is_digit_byte(125));
    lemma_digits_end_exact(text, 1, ds.len() as int + 1, 10);
    assert(digits_end(text, 1, 10) == ds.len() as int + 1);
    assert(forall|j: int| 1 <= j < ds.len() + 1 ==> #[trigger] text[j] != 10);
    lemma_scan_steps_no_newline(text, p1, ds.len());
    let pa = scan_steps(text, p1, ds.len());
    assert(pa == (ScanPos {
        index: ds.len() as int + 1,
        line: 1,
        column: 2 + ds.len() as int,
        newline: false,
    }));
    assert(text.subrange(1, ds.len() as int + 1) =~= ds);
    if ds.len() >= 2 {
        assert(is_digit_byte(text[2]));
    }
    assert(!prefix2_at(text, 1, 48, 120));
    assert(!prefix2_at(text, 1, 48, 111));
    assert(!prefix2_at(text, 1, 48, 98));
    assert(scan_pos_si(p1) == SpecPos { line: 1, column: 2, index: 1 });
    if base_val(ds, 10) <= u128::MAX {
        let tok = SpecToken {
            pos: SpecPos { line: 1, column: 2, index: 1 },
            kind: SpecTokenKind::UInt(base_val(ds, 10) as u128),
        };
        assert(spec_scan_number(text, p1) == SpecScan::Tok(tok, pa));
        assert(spec_scan_token(text, p1) == SpecScan::Tok(tok, pa));
        lemma_tokenize_braced_token(ds, tok, pa);
    } else {
        let ge = SpecError {
            pos: SpecPos { line: 1, column: 2, index: 1 },
            msg: crate::errors::msg_integer_overflow(),
        };
        assert(spec_scan_number(text, p1) == SpecScan::Fail(ge, pa));
        assert(spec_scan_token(text, p1) == SpecScan::Fail(ge, pa));
        lemma_tokenize_braced_error(ds, ge, pa);
    }
}

/// `digits.digits` lexes to a float literal carrying exactly its source
/// digits, so its parsed value is recoverable unchanged.
pub proof fn lemma_float_literal(ds1: Seq<u8>, ds2: Seq<u8>)
    requires
        ds1.len() > 0,
        ds2.len() > 0,
        forall|i: int| 0 <= i < ds1.len() ==> is_digit_byte(#[trigger] ds1[i]),
        forall|i: int| 0 <= i < ds2.len() ==> is_digit_byte(#[trigger] ds2[i]),
    ensures
        spec_tokenize(braced(ds1 + seq![46u8] + ds2)) == (
            seq![
                SpecToken {
                    pos: SpecPos { line: 1, column: 1, index: 0 },
                    kind: SpecTokenKind::Group(
                        seq![
                            SpecToken {
                                pos: SpecPos { line: 1, column: 2, index: 1 },
                                kind: SpecTokenKind::FloatLit(ds1 + seq![46u8] + ds2),
                            },
                        ],
                    ),
                },
            ],
            Seq::<SpecError>::empty(),
        ),
{
    let lit = ds1 + seq![46u8] + ds2;
    let text = braced(lit);
    let p1 = after_open();
    assert(lit.len() == ds1.len() + 1 + ds2.len());
    assert(text.len() == lit.len() + 2);
    assert(forall|j: int| 0 <= j < lit.len() ==> text[1 + j] == #[trigger] lit[j]);
    assert(forall|j: int| 0 <= j < ds1.len() ==> lit[j] == #[trigger] ds1[j]);
    assert(lit[ds1.len() as int] == 46);
    assert(forall|j: int|
        0 <= j < ds2.len() ==> lit[ds1.len() + 1 + j] == #[trigger] ds2[j]);
    assert(text[lit.len() as int + 1] == 125);
    assert(text[1] == ds1[0]);
    let d1 = ds1.len() as int + 1;
    assert(text[d1] == 46);
    assert(!is_digit_byte(46));
    lemma_digits_end_exact(text, 1, d1, 10);
    let d2 = d1 + 1 + ds2.len();
    assert(text[d2] == 125);
    assert(is_digit_byte(text[d1 + 1]));
    lemma_digits_end_exact(text, d1 + 1, d2, 10);
    assert(forall|j: int| 1 <= j < d2 ==> #[trigger] text[j] != 10);
    lemma_scan_steps_no_newline(text, p1, (d2 - 1) as nat);
    let pa = scan_steps(text, p1, (d2 - 1) as nat);
    assert(pa == (ScanPos { index: d2, line: 1, column: d2 + 1, newline: false }));
    assert(text.subrange(1, d2) =~= lit);
    assert(!prefix2_at(text, 1, 48, 120));
    assert(!prefix2_at(text, 1, 48, 111));
    assert(!prefix2_at(text, 1, 48, 98));
    let tok = SpecToken {
        pos: SpecPos { line: 1, column: 2, index: 1 },
        kind: SpecTokenKind::FloatLit(lit),
    };
    assert(spec_scan_number(text, p1) == SpecScan::Tok(tok, pa));
    assert(spec_scan_token(text, p1) == SpecScan::Tok(tok, pa));
    lemma_tokenize_braced_token(lit, tok, pa);
}

/// `digits.` — a dot with no digit after it — lexes to exactly the
/// missing-fraction-digit diagnostic, never a crash and never a token.
pub proof fn lemma_float_missing_fraction(ds: Seq<u8>)
    requires
        ds.len() > 0,
        forall|i: int| 0 <= i < ds.len() ==> is_digit_byte(#[trigger] ds[i]),
    ensures
        spec_tokenize(braced(ds + seq![46u8])).0 =~= Seq::<SpecToken>::empty(),
        spec_tokenize(braced(ds + seq![46u8])).1.len() >= 1,
        spec_tokenize(braced(ds + seq![46u8])).1[0].msg == msg_digit_after_dot(),
{
    let lit = ds + seq![46u8];
    let text = braced(lit);
    let p1 = after_open();
    assert(text.len() == lit.len() + 2);
    assert(forall|j: int| 0 <= j < lit.len() ==> text[1 + j] == #[trigger] lit[j]);
    assert(text[lit.len() as int + 1] == 125);
    assert(text[1] == ds[0]);
    let d1 = ds.len() as int + 1;
    assert(text[d1] == 46);
    assert(!is_digit_byte(46));
    lemma_digits_end_exact(text, 1, d1, 10);
    assert(text[d1 + 1] == 125);
    assert(!is_digit_byte(125));
    assert(forall|j: int| 1 <= j < d1 + 1 ==> #[trigger] text[j] != 10);
    lemma_scan_steps_no_newline(text, p1, ds.len() + 1);
    let pa = scan_steps(text, p1, ds.len() + 1);
    assert(!prefix2_at(text, 1, 48, 120));
    assert(!prefix2_at(text, 1, 48, 111));
    assert(!prefix2_at(text, 1, 48, 98));
    let ge = SpecError { pos: scan_pos_si(pa), msg: msg_digit_after_dot() };
    assert(spec_scan_number(text, p1) == SpecScan::Fail(ge, pa));
    assert(spec_scan_token(text, p1) == SpecScan::Fail(ge, pa));
    assert(forall|j: int| 0 <= j < lit.len() ==> #[trigger] lit[j] != 123);
    lemma_tokenize_braced_error(lit, ge, pa);
}

/// `digits..digits` — a dot directly after the first dot — also lexes to
/// the missing-fraction-digit diagnostic (the consumed first dot demanded
/// a digit), deterministically and without a crash.
pub proof fn lemma_float_double_dot(ds1: Seq<u8>, ds2: Seq<u8>)
    requires
        ds1.len() > 0,
        forall|i: int| 0 <= i < ds1.len() ==> is_digit_byte(#[trigger] ds1[i]),
        forall|i: int| 0 <= i < ds2.len() ==> is_digit_byte(#[trigger] ds2[i]),
    ensures
        spec_tokenize(braced(ds1 + seq![46u8, 46u8] + ds2)).0 =~= Seq::<SpecToken>::empty(),
        spec_tokenize(braced(ds1 + seq![46u8, 46u8] + ds2)).1.len() >= 1,
        spec_tokenize(braced(ds1 + seq![46u8, 46u8] + ds2)).1[0].msg == msg_digit_after_dot(),
{
    let lit = ds1 + seq![46u8, 46u8] + ds2;
    let text = braced(lit);
    let p1 = after_open();
    assert(text.len() == lit.len() + 2);
    assert(forall|j: int| 0 <= j < lit.len() ==> text[1 + j] == #[trigger] lit[j]);
    assert(forall|j: int| 0 <= j < ds1.len() ==> lit[j] == #[trigger] ds1[j]);
    assert(lit[ds1.len() as int] == 46);
    assert(lit[ds1.len() as int + 1] == 46);
    assert(text[lit.len() as int + 1] == 125);
    assert(text[1] == ds1[0]);
    let d1 = ds1.len() as int + 1;
    assert(text[d1] == 46);
    assert(!is_digit_byte(46));
    lemma_digits_end_exact(text, 1, d1, 10);
    assert(text[d1 + 1] == 46);
    assert(forall|j: int| 1 <= j < d1 + 1 ==> #[trigger] text[j] != 10);
    lemma_scan_steps_no_newline(text, p1, ds1.len() + 1);
    let pa = scan_steps(text, p1, ds1.len() + 1);
    assert(!prefix2_at(text, 1, 48, 120));
    assert(!prefix2_at(text, 1, 48, 111));
    assert(!prefix2_at(text, 1, 48, 98));
    let ge = SpecError { pos: scan_pos_si(pa), msg: msg_digit_after_dot() };
    assert(spec_scan_number(text, p1) == SpecScan::Fail(ge, pa));
    assert(spec_scan_token(text, p1) == SpecScan::Fail(ge, pa));
    assert(forall|j: int| 0 <= j < lit.len() ==> #[trigger] lit[j] != 123);
    lemma_tokenize_braced_error(lit, ge, pa);
}

/// `digits.digits.` — a second decimal point in one literal — lexes to
/// exactly the duplicate-decimal-point diagnostic, and that diagnostic is
/// distinct from the missing-fraction-digit one.
pub proof fn lemma_float_duplicate_point(ds1: Seq<u8>, ds2: Seq<u8>)
    requires
        ds1.len() > 0,
        ds2.len() > 0,
        forall|i: int| 0 <= i < ds1.len() ==> is_digit_byte(#[trigger] ds1[i]),
        forall|i: int| 0 <= i < ds2.len() ==> is_digit_byte(#[trigger] ds2[i]),
    ensures
        spec_tokenize(braced(ds1 + seq![46u8] + ds2 + seq![46u8])).0 =~= Seq::<
            SpecToken,
        >::empty(),
        spec_tokenize(braced(ds1 + seq![46u8] + ds2 + seq![46u8])).1.len() >= 1,
        spec_tokenize(braced(ds1 + seq![46u8] + ds2 + seq![46u8])).1[0].msg
            == msg_duplicate_decimal_point(),
        msg_duplicate_decimal_point() != msg_digit_after_dot(),
{
    reveal_strlit("Duplicate decimal point in float");
    reveal_strlit("Expected at least one digit after '.'");
    assert(msg_duplicate_decimal_point().len() == 32);
    assert(msg_digit_after_dot().len() == 37);
    let lit = ds1 + seq![46u8] + ds2 + seq![46u8];
    let text = braced(lit);
    let p1 = after_open();
    assert(text.len() == lit.len() + 2);
    assert(forall|j: int| 0 <= j < lit.len() ==> text[1 + j] == #[trigger] lit[j]);
    assert(forall|j: int| 0 <= j < ds1.len() ==> lit[j] == #[trigger] ds1[j]);
    assert(lit[ds1.len() as int] == 46);
    assert(forall|j: int|
        0 <= j < ds2.len() ==> lit[ds1.len() + 1 + j] == #[trigger] ds2[j]);
    assert(lit[ds1.len() + 1 + ds2.len() as int] == 46);
    assert(text[lit.len() as int + 1] == 125);
    assert(text[1] == ds1[0]);
    let d1 = ds1.len() as int + 1;
    assert(text[d1] == 46);
    lemma_digits_end_exact(text, 1, d1, 10);
    let d2 = d1 + 1 + ds2.len();
    assert(text[d2] == 46);
    assert(!is_digit_byte(46));
    assert(is_digit_byte(text[d1 + 1]));
    lemma_digits_end_exact(text, d1 + 1, d2, 10);
    assert(forall|j: int| 1 <= j < d2 ==> #[trigger] text[j] != 10);
    lemma_scan_steps_no_newline(text, p1, (d2 - 1) as nat);
    let pa = scan_steps(text, p1, (d2 - 1) as nat);
    assert(!prefix2_at(text, 1, 48, 120));
    assert(!prefix2_at(text, 1, 48, 111));
    assert(!prefix2_at(text, 1, 48, 98));
    let ge = SpecError { pos: scan_pos_si(pa), msg: msg_duplicate_decimal_point() };
    assert(spec_scan_number(text, p1) == SpecScan::Fail(ge, pa));
    assert(spec_scan_token(text, p1) == SpecScan::Fail(ge, pa));
    assert(forall|j: int| 0 <= j < lit.len() ==> #[trigger] lit[j] != 123);
    lemma_tokenize_braced_error(lit, ge, pa);
}


// ------------------------------------------------------------------
// The structural round trip
// ------------------------------------------------------------------

/// Whether a character is the image of a byte (code point below 256), so
/// that `byte_of_char` is grounded.
pub open spec fn char_is_byte(c: char) -> bool {
    exists|b: u8| #[trigger] (b as char) == c
}

/// The byte a (byte-valued) character came from.
pub open spec fn byte_of_char(c: char) -> u8 {
    choose|b: u8| #[trigger] (b as char) == c
}

/// The decimal digit bytes of `n`, most significant first.
pub open spec fn dec_bytes(n: nat) -> Seq<u8>
    decreases n,
{
    if n < 10 {
        seq![(48 + n) as u8]
    } else {
        dec_bytes(n / 10).push((48 + n % 10) as u8)
    }
}

/// The canonical source text of a model token: nested groups with one
/// space before each member, literals spelled directly.
pub open spec fn render(g: SpecToken) -> Seq<u8>
    decreases g, 0int,
{
    match g.kind {
        SpecTokenKind::Group(gs) => seq![123u8] + render_items(gs) + seq![125u8],
        SpecTokenKind::Ident(cs) => Seq::new(cs.len(), |i: int| byte_of_char(cs[i])),
        SpecTokenKind::UInt(u) => dec_bytes(u as nat),
        SpecTokenKind::FloatLit(bs) => bs,
        SpecTokenKind::StrLit(bs) => seq![34u8] + bs + seq![34u8],
    }
}

pub open spec fn render_items(gs: Seq<SpecToken>) -> Seq<u8>
    decreases gs, 1int, gs.len(),
{
    if gs.len() == 0 {
        seq![]
    } else {
        seq![32u8] + render(gs[0]) + render_items(gs.drop_first())
    }
}

/// A well-formed model token: one whose canonical text lexes back. An
/// identifier is non-empty, over the identifier characters, not starting
/// with a digit; a float literal is digits, one dot, digits; a string
/// literal contains no quote.
pub open spec fn wf_token(g: SpecToken) -> bool
    decreases g,
{
    match g.kind {
        SpecTokenKind::Group(gs) => forall|i: int| 0 <= i < gs.len() ==> wf_token(#[trigger] gs[i]),
        SpecTokenKind::Ident(cs) => {
            &&& cs.len() > 0
            &&& forall|i: int|
                0 <= i < cs.len() ==> char_is_byte(#[trigger] cs[i]) && is_ident_char_byte(
                    byte_of_char(cs[i]),
                )
            &&& !is_digit_byte(byte_of_char(cs[0]))
        },
        SpecTokenKind::UInt(_) => true,
        SpecTokenKind::FloatLit(bs) => exists|d: int|
            {
                &&& 1 <= d <= bs.len() - 2
                &&& #[trigger] bs[d] == 46
                &&& (forall|j: int| 0 <= j < d ==> is_digit_byte(#[trigger] bs[j]))
                &&& (forall|j: int| d < j < bs.len() ==> is_digit_byte(#[trigger] bs[j]))
            },
        SpecTokenKind::StrLit(bs) => forall|i: int| 0 <= i < bs.len() ==> #[trigger] bs[i] != 34,
    }
}

/// Same nesting and same literal values, positions aside.
pub open spec fn same_shape(a: SpecToken, b: SpecToken) -> bool
    decreases b,
{
    match b.kind {
        SpecTokenKind::Group(bs) => {
            &&& a.kind matches SpecTokenKind::Group(a_s)
            &&& a_s.len() == bs.len()
            &&& forall|i: int| 0 <= i < bs.len() ==> same_shape(a_s[i], #[trigger] bs[i])
        },
        _ => a.kind == b.kind,
    }
}

/// The decimal digit bytes of `n` are digits and read back to `n`.
pub proof fn lemma_dec_bytes(n: nat)
    ensures
        dec_bytes(n).len() >= 1,
        forall|i: int| 0 <= i < dec_bytes(n).len() ==> is_digit_byte(#[trigger] dec_bytes(n)[i]),
        base_val(dec_bytes(n), 10) == n,
    decreases n,
{
    if n < 10 {
        assert((48 + n) as u8 == 48 + n);
        assert(base_val(dec_bytes(n), 10) == n) by {
            assert(dec_bytes(n) =~= seq![(48 + n) as u8]);
            assert(dec_bytes(n).drop_last() =~= Seq::<u8>::empty());
            assert(dec_bytes(n).last() == (48 + n) as u8);
            assert(digit_val((48 + n) as u8) == n);
            assert(base_val(Seq::<u8>::empty(), 10) == 0);
        }
    } else {
        assert((48 + n % 10) as u8 == 48 + n % 10);
        lemma_dec_bytes(n / 10);
        lemma_base_val_push(dec_bytes(n / 10), (48 + n % 10) as u8, 10);
        assert(forall|i: int|
            0 <= i < dec_bytes(n / 10).len() ==> dec_bytes(n)[i] == #[trigger] dec_bytes(
                n / 10,
            )[i]);
        assert(base_val(dec_bytes(n), 10) == (n / 10) * 10 + n % 10);
        assert((n / 10) * 10 + n % 10 == n) by {
            vstd::arithmetic::div_mod::lemma_fundamental_div_mod(n as int, 10);
        }
    }
}

/// The first byte of a rendered token starts that token: never whitespace,
/// a comment mark, or a delimiter that would end the group early.
pub proof fn lemma_render_first_byte(g: SpecToken)
    requires
        wf_token(g),
    ensures
        render(g).len() > 0,
        !is_space_byte(render(g)[0]),
        render(g)[0] != 35,
        render(g)[0] != 125,
        render(g)[0] != 32,
{
    match g.kind {
        SpecTokenKind::Group(gs) => {},
        SpecTokenKind::Ident(cs) => {
            assert(render(g)[0] == byte_of_char(cs[0]));
            assert(is_ident_char_byte(byte_of_char(cs[0])));
        },
        SpecTokenKind::UInt(u) => {
            lemma_dec_bytes(u as nat);
        },
        SpecTokenKind::FloatLit(bs) => {
            let d = choose|d: int|
                {
                    &&& 1 <= d <= bs.len() - 2
                    &&& #[trigger] bs[d] == 46
                    &&& (forall|j: int| 0 <= j < d ==> is_digit_byte(#[trigger] bs[j]))
                    &&& (forall|j: int| d < j < bs.len() ==> is_digit_byte(#[trigger] bs[j]))
                };
            assert(is_digit_byte(bs[0]));
        },
        SpecTokenKind::StrLit(bs) => {},
    }
}


/// A subrange equality, read pointwise.
proof fn lemma_subrange_pointwise(text: Seq<u8>, at: int, r: Seq<u8>)
    requires
        0 <= at,
        at + r.len() <= text.len(),
        text.subrange(at, at + r.len()) == r,
    ensures
        forall|j: int| 0 <= j < r.len() ==> text[at + j] == #[trigger] r[j],
{
    assert forall|j: int| 0 <= j < r.len() implies text[at + j] == #[trigger] r[j] by {
        assert(text.subrange(at, at + r.len())[j] == text[at + j]);
    }
}

/// Scanning the canonical text of a well-formed token — followed by a
/// space, a closing brace, or the end of the input — yields a token of the
/// same shape and stops exactly at the end of that text.
#[verifier::rlimit(80)]
pub proof fn lemma_scan_render(text: Seq<u8>, p: ScanPos, g: SpecToken)
    requires
        wf_token(g),
        0 <= p.index,
        p.index + render(g).len() <= text.len(),
        text.subrange(p.index, p.index + render(g).len()) == render(g),
        p.index + render(g).len() == text.len() || text[p.index + render(g).len()] == 32
            || text[p.index + render(g).len()] == 125,
    ensures
        spec_scan_token(text, p) matches SpecScan::Tok(g2, pend) && same_shape(g2, g)
            && pend.index == p.index + render(g).len(),
    decreases g, 0int, 0int,
{
    let r = render(g);
    let e = p.index + r.len();
    lemma_render_first_byte(g);
    lemma_subrange_pointwise(text, p.index, r);
    assert(text[p.index] == r[0]);
    match g.kind {
        SpecTokenKind::Group(gs) => {
            assert(r[0] == 123);
            let p1 = scan_step(text, p);
            if gs.len() == 0 {
                assert(render_items(gs) =~= Seq::<u8>::empty());
                assert(r =~= seq![123u8, 125u8]);
                assert(r[1] == 125);
                assert(text[p.index + 1] == 125);
                assert(spec_skip_ws(text, p1) == p1);
                assert(spec_scan_items(text, p1) == SpecItems::Done(
                    Seq::<SpecToken>::empty(),
                    p1,
                ));
                let p4 = scan_step(text, p1);
                assert(spec_scan_group(text, p) matches SpecScan::Tok(g2, pend) && g2.kind
                    matches SpecTokenKind::Group(out) && out.len() == 0 && pend == p4);
            } else {
                let r0 = render(gs[0]);
                let ri = render_items(gs.drop_first());
                let items = render_items(gs);
                assert(items =~= seq![32u8] + r0 + ri);
                assert(r =~= seq![123u8] + items + seq![125u8]);
                assert(forall|j: int|
                    0 <= j < items.len() ==> r[1 + j] == #[trigger] items[j]);
                assert(forall|j: int|
                    0 <= j < r0.len() + ri.len() ==> items[1 + j] == #[trigger] (r0 + ri)[j]);
                assert(items[0] == 32);
                assert(text[p.index + 1] == 32);
                lemma_render_first_byte(gs[0]);
                assert((r0 + ri)[0] == r0[0]);
                assert(text[p.index + 2] == r0[0]);
                let p2 = scan_step(text, p1);
                assert(spec_skip_ws(text, p1) == spec_skip_ws(text, p2));
                assert(spec_skip_ws(text, p2) == p2);
                assert(forall|j: int|
                    0 <= j < r0.len() + ri.len() ==> text[p.index + 2 + j] == #[trigger] (r0
                        + ri)[j]);
                assert(text.subrange(p2.index, e - 1) =~= r0 + ri);
                assert(r[r.len() - 1] == 125);
                assert(text[e - 1] == 125);
                lemma_scan_render_items(text, p2, gs, e - 1);
                assert(spec_scan_group(text, p) matches SpecScan::Tok(g2, pend) && same_shape(
                    g2,
                    g,
                ) && pend.index == e);
            }
        },
        SpecTokenKind::Ident(cs) => {
            assert(r[0] == byte_of_char(cs[0]));
            assert(is_ident_char_byte(r[0]) && !is_digit_byte(r[0]));
            assert forall|j: int| p.index <= j < e implies is_ident_char_byte(
                #[trigger] text[j],
            ) by {
                assert(text[j] == r[j - p.index]);
                assert(r[j - p.index] == byte_of_char(cs[j - p.index]));
            }
            assert(!is_ident_char_byte(32) && !is_ident_char_byte(125));
            lemma_ident_end_exact(text, p.index, e);
            lemma_scan_steps_index(text, p, r.len() as nat);
            match spec_scan_token(text, p) {
                SpecScan::Tok(g2, pend) => {
                    assert(g2.kind matches SpecTokenKind::Ident(cs2) && cs2 =~= cs) by {
                        let cs2 = text.subrange(p.index, e).map(|j: int, b: u8| b as char);
                        assert(forall|i: int|
                            0 <= i < cs.len() ==> #[trigger] cs2[i] == byte_of_char(
                                cs[i],
                            ) as char);
                        assert(forall|i: int|
                            0 <= i < cs.len() ==> byte_of_char(#[trigger] cs[i]) as char
                                == cs[i]);
                    }
                },
                SpecScan::Fail(..) => {
                    assert(false);
                },
            }
        },
        SpecTokenKind::UInt(u) => {
            lemma_dec_bytes(u as nat);
            assert forall|j: int| p.index <= j < e implies is_digit_byte(
                #[trigger] text[j],
            ) by {
                assert(text[j] == r[j - p.index]);
            }
            assert(!prefix2_at(text, p.index, 48, 120));
            assert(!prefix2_at(text, p.index, 48, 111));
            assert(!prefix2_at(text, p.index, 48, 98));
            assert(!is_digit_byte(32) && !is_digit_byte(125));
            lemma_digits_end_exact(text, p.index, e, 10);
            lemma_scan_steps_index(text, p, r.len() as nat);
            assert(text.subrange(p.index, e) =~= dec_bytes(u as nat));
            assert(e < text.len() ==> text[e] != 46);
            match spec_scan_number(text, p) {
                SpecScan::Tok(g2, pend) => {
                    assert(g2.kind == SpecTokenKind::UInt(u));
                },
                SpecScan::Fail(..) => {
                    assert(false);
                },
            }
        },
        SpecTokenKind::FloatLit(bs) => {
            let d = choose|d: int|
                {
                    &&& 1 <= d <= bs.len() - 2
                    &&& #[trigger] bs[d] == 46
                    &&& (forall|j: int| 0 <= j < d ==> is_digit_byte(#[trigger] bs[j]))
                    &&& (forall|j: int| d < j < bs.len() ==> is_digit_byte(#[trigger] bs[j]))
                };
            assert forall|j: int| p.index <= j < p.index + d implies is_digit_byte(
                #[trigger] text[j],
            ) by {
                assert(text[j] == r[j - p.index]);
            }
            assert forall|j: int| p.index + d < j < e implies is_digit_byte(
                #[trigger] text[j],
            ) by {
                assert(text[j] == r[j - p.index]);
            }
            assert(text[p.index] == r[0]);
            assert(is_digit_byte(text[p.index]));
            assert(text[p.index + 1] == r[1]);
            assert(!prefix2_at(text, p.index, 48, 120));
            assert(!prefix2_at(text, p.index, 48, 111));
            assert(!prefix2_at(text, p.index, 48, 98));
            assert(!is_digit_byte(46) && !is_digit_byte(32) && !is_digit_byte(125));
            assert(text[p.index + d] == r[d]);
            assert(text[p.index + d] == 46);
            lemma_digits_end_exact(text, p.index, p.index + d, 10);
            assert(text[p.index + d + 1] == r[d + 1]);
            assert(is_digit_byte(text[p.index + d + 1]));
            lemma_digits_end_exact(text, p.index + d + 1, e, 10);
            lemma_scan_steps_index(text, p, r.len() as nat);
            assert(text.subrange(p.index, e) =~= bs);
            assert(e < text.len() ==> text[e] != 46);
            match spec_scan_number(text, p) {
                SpecScan::Tok(g2, pend) => {
                    assert(g2.kind == SpecTokenKind::FloatLit(bs));
                },
                SpecScan::Fail(..) => {
                    assert(false);
                },
            }
        },
        SpecTokenKind::StrLit(bs) => {
            assert(r =~= seq![34u8] + bs + seq![34u8]);
            assert(r[0] == 34);
            assert(forall|j: int| 0 <= j < bs.len() ==> r[1 + j] == #[trigger] bs[j]);
            assert(r[r.len() - 1] == 34);
            assert(text[p.index] == 34);
            assert(!is_ident_char_byte(34));
            assert forall|j: int| p.index + 1 <= j < e - 1 implies #[trigger] text[j]
                != 34 by {
                assert(text[j] == r[j - p.index]);
                assert(r[j - p.index] == bs[j - p.index - 1]);
            }
            assert(text[e - 1] == 34);
            lemma_quote_end_exact(text, p.index + 1, e - 1);
            lemma_scan_steps_index(text, p, r.len() as nat);
            match spec_scan_string(text, p) {
                SpecScan::Tok(g2, pend) => {
                    assert(g2.kind matches SpecTokenKind::StrLit(bs2) && bs2 =~= bs);
                },
                SpecScan::Fail(..) => {
                    assert(false);
                },
            }
        },
    }
}

/// Scanning rendered members, with the cursor standing at the first one
/// and the closing brace at `qe`, yields matching tokens one by one and
/// stops at the brace.
proof fn lemma_scan_render_items(text: Seq<u8>, pc: ScanPos, gs: Seq<SpecToken>, qe: int)
    requires
        gs.len() > 0,
        forall|i: int| 0 <= i < gs.len() ==> wf_token(#[trigger] gs[i]),
        0 <= pc.index,
        pc.index + render(gs[0]).len() + render_items(gs.drop_first()).len() == qe,
        qe < text.len(),
        text.subrange(pc.index, qe) == render(gs[0]) + render_items(gs.drop_first()),
        text[qe] == 125,
    ensures
        spec_scan_items(text, pc) matches SpecItems::Done(out, pf) && out.len() == gs.len()
            && (forall|i: int| 0 <= i < gs.len() ==> same_shape(out[i], #[trigger] gs[i]))
            && pf.index == qe,
    decreases gs, 2int, 0int,
{
    let r0 = render(gs[0]);
    let ri = render_items(gs.drop_first());
    lemma_subrange_pointwise(text, pc.index, r0 + ri);
    assert(forall|j: int| 0 <= j < r0.len() ==> (r0 + ri)[j] == #[trigger] r0[j]);
    assert(forall|j: int| 0 <= j < ri.len() ==> (r0 + ri)[r0.len() + j] == #[trigger] ri[j]);
    assert(text.subrange(pc.index, pc.index + r0.len()) =~= r0);
    lemma_render_first_byte(gs[0]);
    if gs.len() == 1 {
        assert(ri =~= Seq::<u8>::empty());
        assert(pc.index + r0.len() == qe);
        lemma_scan_render(text, pc, gs[0]);
        match spec_scan_token(text, pc) {
            SpecScan::Tok(g0, pend) => {
                assert(spec_skip_ws(text, pend) == pend);
                assert(spec_scan_items(text, pend) == SpecItems::Done(
                    Seq::<SpecToken>::empty(),
                    pend,
                ));
                assert(spec_scan_items(text, pc) matches SpecItems::Done(out, pf) && out
                    =~= seq![g0] + Seq::<SpecToken>::empty());
                assert(seq![g0] + Seq::<SpecToken>::empty() =~= seq![g0]);
            },
            SpecScan::Fail(..) => {
                assert(false);
            },
        }
    } else {
        let rest = gs.drop_first();
        let r1 = render(rest[0]);
        let ri2 = render_items(rest.drop_first());
        assert(ri =~= seq![32u8] + r1 + ri2);
        assert(forall|j: int| 0 <= j < r1.len() ==> ri[1 + j] == #[trigger] r1[j]);
        assert(forall|j: int|
            0 <= j < ri2.len() ==> ri[1 + r1.len() + j] == #[trigger] ri2[j]);
        assert((r0 + ri)[r0.len() as int] == ri[0]);
        assert(ri[0] == 32);
        assert(text[pc.index + r0.len()] == (r0 + ri)[r0.len() as int]);
        assert(text[pc.index + r0.len()] == 32);
        lemma_scan_render(text, pc, gs[0]);
        match spec_scan_token(text, pc) {
            SpecScan::Tok(g0, pend) => {
                assert(pend.index == pc.index + r0.len());
                let pn = scan_step(text, pend);
                lemma_render_first_byte(rest[0]);
                assert(text[pn.index] == (r0 + ri)[r0.len() as int + 1]);
                assert((r0 + ri)[r0.len() as int + 1] == ri[1]);
                assert(ri[1] == r1[0]);
                assert(text[pn.index] == r1[0]);
                assert(spec_skip_ws(text, pend) == spec_skip_ws(text, pn));
                assert(spec_skip_ws(text, pn) == pn);
                assert forall|j: int| 0 <= j < r1.len() + ri2.len() implies text[pn.index
                    + j] == #[trigger] (r1 + ri2)[j] by {
                    assert(text[pc.index + (r0.len() + 1 + j)] == (r0 + ri)[r0.len() as int
                        + 1 + j]);
                    assert((r0 + ri)[r0.len() as int + 1 + j] == ri[1 + j]);
                    if j < r1.len() {
                        assert(ri[1 + j] == r1[j]);
                        assert((r1 + ri2)[j] == r1[j]);
                    } else {
                        assert(ri[1 + j] == ri2[j - r1.len()]);
                        assert((r1 + ri2)[j] == ri2[j - r1.len()]);
                    }
                }
                assert(text.subrange(pn.index, qe) =~= r1 + ri2);
                assert(forall|i: int|
                    0 <= i < rest.len() ==> wf_token(#[trigger] rest[i]));
                lemma_scan_render_items(text, pn, rest, qe);
                match spec_scan_items(text, pn) {
                    SpecItems::Done(out2, pf) => {
                        assert(spec_scan_items(text, pc) matches SpecItems::Done(out, pfa)
                            && out =~= seq![g0] + out2 && pfa == pf);
                        assert forall|i: int| 1 <= i < gs.len() implies same_shape(
                            (seq![g0] + out2)[i],
                            #[trigger] gs[i],
                        ) by {
                            assert((seq![g0] + out2)[i] == out2[i - 1]);
                            assert(same_shape(out2[i - 1], rest[i - 1]));
                            assert(rest[i - 1] == gs[i]);
                        }
                    },
                    SpecItems::Fail(..) => {
                        assert(false);
                    },
                }
            },
            SpecScan::Fail(..) => {
                assert(false);
            },
        }
    }
}

/// The structural round trip: lexing the canonical text of any single
/// well-formed group yields exactly one top-level token whose nesting and
/// literal values mirror it, and no diagnostics.
pub proof fn lemma_structural_round_trip(g: SpecToken)
    requires
        wf_token(g),
        g.kind is Group,
    ensures
        spec_tokenize(render(g)).1 =~= Seq::<SpecError>::empty(),
        spec_tokenize(render(g)).0.len() == 1,
        same_shape(spec_tokenize(render(g)).0[0], g),
{
    let text = render(g);
    let p0 = scan_start();
    assert(text[0] == 123);
    assert(spec_skip_ws(text, p0) == p0);
    assert(text.subrange(0, text.len() as int) =~= text);
    lemma_scan_render(text, p0, g);
    assert(spec_scan_token(text, p0) == spec_scan_group(text, p0));
    match spec_scan_group(text, p0) {
        SpecScan::Tok(g2, pend) => {
            assert(pend.index == text.len());
            assert(spec_skip_ws(text, pend) == pend);
            assert(spec_tokenize_loop(text, pend) == (Seq::<SpecToken>::empty(), Seq::<
                SpecError,
            >::empty()));
            assert(spec_tokenize_loop(text, p0).0 =~= seq![g2]);
            assert(spec_tokenize_loop(text, p0).1 =~= Seq::<SpecError>::empty());
        },
        SpecScan::Fail(..) => {
            assert(false);
        },
    }
}


// ------------------------------------------------------------------
// The module invariant
// ------------------------------------------------------------------

/// The module invariant: every index a symbol table or the bare-expression
/// list stores is valid in `code`, and a table entry's head identifier
/// matches its category — `let` for variables, `procedure` for procedures.
pub open spec fn module_wf(m: Module) -> bool {
    &&& forall|n: Seq<char>|
        m.variables@.contains_key(n) ==> #[trigger] m.variables@[n] < m.code@.len()
            && m.code@[m.variables@[n] as int].kind is SExpr && head_is(
            children_of(m.code@[m.variables@[n] as int]),
            "let"@,
        )
    &&& forall|n: Seq<char>|
        m.procedures@.contains_key(n) ==> #[trigger] m.procedures@[n] < m.code@.len()
            && m.code@[m.procedures@[n] as int].kind is SExpr && head_is(
            children_of(m.code@[m.procedures@[n] as int]),
            "procedure"@,
        )
    &&& forall|i: int|
        0 <= i < m.expressions@.len() ==> #[trigger] m.expressions@[i] < m.code@.len()
}

/// Validation keeps a binding form's head: a `let` stays a `let` and a
/// `procedure` stays a `procedure`.
proof fn lemma_vtree_head_preserved(t: Token, r: Token, name: Seq<char>)
    requires
        vtree_token(t, r),
        t.kind is SExpr,
        head_is(children_of(t), name),
        name == "let"@ || name == "procedure"@,
    ensures
        r.kind is SExpr,
        head_is(children_of(r), name),
{
    reveal_strlit("function");
    reveal_strlit("procedure");
    reveal_strlit("let");
    reveal_strlit("fun");
    assert("function"@.len() == 8);
    assert("procedure"@.len() == 9);
    assert("let"@.len() == 3);
    assert("fun"@.len() == 3);
    assert("fun"@[0] == 'f' && "let"@[0] == 'l');
    let s = children_of(t);
    let q = children_of(r);
    let n = normalize2(s);
    if head_is(s, "let"@) {
        assert(q[0] == n[0]);
        assert(n[0] == s[0]);
    } else {
        assert(q[0] == n[0]);
        assert(n[0] == s[0]);
    }
}

/// The entries a registration pass adds all satisfy the invariant, so the
/// whole table does whenever the inherited entries do.
proof fn lemma_registered_after_wf(
    m0: Map<Seq<char>, usize>,
    head: Seq<char>,
    oldc: Seq<Token>,
    newc: Seq<Token>,
    upto: int,
)
    requires
        upto <= newc.len(),
        newc.len() <= usize::MAX,
        forall|n: Seq<char>|
            m0.contains_key(n) ==> #[trigger] m0[n] < newc.len() && newc[m0[n] as int].kind
                is SExpr && head_is(children_of(newc[m0[n] as int]), head),
    ensures
        forall|n: Seq<char>|
            registered_after(m0, head, oldc, newc, upto).contains_key(n)
                ==> #[trigger] registered_after(m0, head, oldc, newc, upto)[n] < newc.len()
                && newc[registered_after(m0, head, oldc, newc, upto)[n] as int].kind is SExpr
                && head_is(
                children_of(newc[registered_after(m0, head, oldc, newc, upto)[n] as int]),
                head,
            ),
    decreases upto,
{
    if upto > 0 {
        lemma_registered_after_wf(m0, head, oldc, newc, upto - 1);
    }
}

/// One whole-module validation pass preserves the module invariant, and
/// establishes it for everything it registers.
pub proof fn lemma_module_invariant_preserved(m0: Module, m1: Module)
    requires
        module_validated(m0, m1),
        module_wf(m0),
    ensures
        module_wf(m1),
{
    vstd::std_specs::vec::axiom_spec_len(&m1.code);
    vstd::std_specs::vec::axiom_spec_len(&m0.code);
    assert forall|n: Seq<char>|
        m0.variables@.contains_key(n) implies #[trigger] m0.variables@[n] < m1.code@.len()
        && m1.code@[m0.variables@[n] as int].kind is SExpr && head_is(
        children_of(m1.code@[m0.variables@[n] as int]),
        "let"@,
    ) by {
        let i = m0.variables@[n] as int;
        lemma_vtree_head_preserved(m0.code@[i], m1.code@[i], "let"@);
    }
    lemma_registered_after_wf(
        m0.variables@,
        "let"@,
        m0.code@,
        m1.code@,
        m0.code@.len() as int,
    );
    assert forall|n: Seq<char>|
        m0.procedures@.contains_key(n) implies #[trigger] m0.procedures@[n] < m1.code@.len()
        && m1.code@[m0.procedures@[n] as int].kind is SExpr && head_is(
        children_of(m1.code@[m0.procedures@[n] as int]),
        "procedure"@,
    ) by {
        let i = m0.procedures@[n] as int;
        lemma_vtree_head_preserved(m0.code@[i], m1.code@[i], "procedure"@);
    }
    lemma_registered_after_wf(
        m0.procedures@,
        "procedure"@,
        m0.code@,
        m1.code@,
        m0.code@.len() as int,
    );
    lemma_expressions_after_wf(
        m0.expressions@,
        m0.code@,
        m0.code@.len() as int,
        m1.code@.len() as int,
    );
}

/// The bare-expression indices a pass records are all in range.
proof fn lemma_expressions_after_wf(e0: Seq<usize>, oldc: Seq<Token>, upto: int, len: int)
    requires
        upto <= len,
        len <= usize::MAX,
        forall|i: int| 0 <= i < e0.len() ==> #[trigger] e0[i] < len,
    ensures
        forall|i: int|
            0 <= i < expressions_after(e0, oldc, upto).len() ==> #[trigger] expressions_after(
                e0,
                oldc,
                upto,
            )[i] < len,
    decreases upto,
{
    if upto > 0 {
        lemma_expressions_after_wf(e0, oldc, upto - 1, len);
        let prev = expressions_after(e0, oldc, upto - 1);
        let cur = expressions_after(e0, oldc, upto);
        assert forall|i: int| 0 <= i < cur.len() implies #[trigger] cur[i] < len by {
            if !(oldc[upto - 1].kind is SExpr) {
                assert(cur == prev.push((upto - 1) as usize));
                if i < prev.len() {
                    assert(cur[i] == prev[i]);
                } else {
                    assert(cur[i] == (upto - 1) as usize);
                }
            } else {
                assert(cur == prev);
            }
        }
    }
}

} // verus!
