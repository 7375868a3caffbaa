//! The lexer: a single pass over a byte buffer producing the sequence of
//! top-level token trees, proved to return exactly what the model in
//! `tokenizer_model` describes.

use vstd::prelude::*;

use crate::errors::Error;
use crate::errors::error_matches;
use crate::scanner::Scanner;
use crate::scanner::lemma_scan_steps_add;
use crate::scanner::lemma_scan_steps_index;
use crate::scanner::lemma_scan_steps_snoc;
use crate::scanner::scan_pos_wf;
use crate::scanner::scan_pos_si;
use crate::scanner::scan_step;
use crate::scanner::scan_steps;
use crate::scanner::source_len_ok;
use crate::source_info::SourceInfo;
use crate::strutil::ascii_to_string;
use crate::token::Token;
use crate::token::NumberKind;
use crate::token::TokenKind;
use crate::token::spec_radix;
use crate::errors::SpecError;
use crate::errors::errors_match;
use crate::tokenizer_model::SpecItems;
use crate::tokenizer_model::SpecToken;
use crate::tokenizer_model::lemma_scan_group_progress;
use crate::tokenizer_model::lemma_scan_token_progress;
use crate::tokenizer_model::lemma_skip_ws_mono;
use crate::tokenizer_model::spec_scan_group;
use crate::tokenizer_model::spec_scan_items;
use crate::tokenizer_model::spec_scan_token;
use crate::tokenizer_model::spec_tokenize;
use crate::tokenizer_model::spec_tokenize_loop;
use crate::tokenizer_model::tokens_match;
use crate::tokenizer_model::SpecScan;
use crate::tokenizer_model::SpecTokenKind;
use crate::tokenizer_model::WsMode;
use crate::tokenizer_model::base_val;
use crate::tokenizer_model::digit_val;
use crate::tokenizer_model::digits_end;
use crate::tokenizer_model::is_digit_in_base;
use crate::tokenizer_model::lemma_accum_exceeds;
use crate::tokenizer_model::lemma_accum_within;
use crate::tokenizer_model::lemma_base_val_overflow_sticky;
use crate::tokenizer_model::lemma_base_val_push;
use crate::tokenizer_model::lemma_digits_end;
use crate::tokenizer_model::spec_scan_number;
use crate::tokenizer_model::spec_scan_prefixed;
use crate::tokenizer_model::ident_end;
use crate::tokenizer_model::is_digit_byte;
use crate::tokenizer_model::is_ident_char_byte;
use crate::tokenizer_model::lemma_ident_end;
use crate::tokenizer_model::lemma_quote_end;
use crate::tokenizer_model::quote_end;
use crate::tokenizer_model::skip_ws_from;
use crate::tokenizer_model::spec_scan_identifier;
use crate::tokenizer_model::spec_scan_string;
use crate::tokenizer_model::spec_skip_ws;
use crate::tokenizer_model::token_matches;

verus! {

/// Whether `c` may appear in an identifier: ASCII letters, digits past the
/// first position, and the fixed set of symbolic characters.
pub open spec fn char_is_ident_char(c: char) -> bool {
    ||| c == '!'
    ||| '$' <= c <= '&'
    ||| c == '*'
    ||| c == '+'
    ||| c == '-'
    ||| '/' <= c <= 'Z'
    ||| c == '\\'
    ||| '^' <= c <= 'z'
    ||| c == '|'
    ||| c == '~'
}

/// The identifier character set, on characters as the scanner hands them
/// out; it agrees with the model's byte classification on every byte.
pub fn valid_identifier_char(c: char) -> (r: bool)
    ensures
        r == char_is_ident_char(c),
{
    c == '!' || ('$' <= c && c <= '&') || c == '*' || c == '+' || c == '-' || ('/' <= c && c
        <= 'Z') || c == '\\' || ('^' <= c && c <= 'z') || c == '|' || c == '~'
}

fn is_space_char(c: char) -> (r: bool)
    ensures
        r == (c == ' ' || ('\u{9}' <= c && c <= '\u{d}')),
{
    c == ' ' || ('\u{9}' <= c && c <= '\u{d}')
}

/// Where the cursor stands while skipping whitespace; mirrors the model's
/// `WsMode`.
#[derive(Clone, Copy)]
enum CommentMode {
    Code,
    Line,
    Block,
}

spec fn ws_mode_of(m: CommentMode) -> WsMode {
    match m {
        CommentMode::Code => WsMode::Code,
        CommentMode::Line => WsMode::Line,
        CommentMode::Block => WsMode::Block,
    }
}

/// Skips whitespace and comments: `# …` to end of line, `#- … -#` as a
/// non-nesting block (an unterminated one silently consumes to the end of
/// the input).
fn skip_whitespace(text: &[u8], scanner: &mut Scanner)
    requires
        scan_pos_wf(old(scanner)@, text@.len() as int),
        source_len_ok(text@.len() as int),
    ensures
        final(scanner)@ == spec_skip_ws(text@, old(scanner)@),
        scan_pos_wf(final(scanner)@, text@.len() as int),
{
    let ghost p0 = scanner@;
    let mut mode = CommentMode::Code;
    loop
        invariant
            scan_pos_wf(scanner@, text@.len() as int),
            source_len_ok(text@.len() as int),
            spec_skip_ws(text@, p0) == skip_ws_from(text@, scanner@, ws_mode_of(mode)),
        ensures
            scanner@ == spec_skip_ws(text@, p0),
            scan_pos_wf(scanner@, text@.len() as int),
        decreases text@.len() - scanner@.index,
    {
        if scanner.is_at_end(text) {
            break ;
        }
        let ghost prev = scanner@;
        match mode {
            CommentMode::Code => {
                let c = scanner.peek(text);
                if is_space_char(c) {
                    scanner.advance(text);
                    proof {
                        assert(skip_ws_from(text@, prev, WsMode::Code) == skip_ws_from(
                            text@,
                            scanner@,
                            WsMode::Code,
                        ));
                    }
                } else if c == '#' {
                    if scanner.index < text.len() - 1 && text[scanner.index + 1] == 45 {
                        proof {
                            let p = scanner@;
                            assert(scan_steps(text@, p, 2) == scan_steps(
                                text@,
                                scan_step(text@, p),
                                1,
                            ));
                            assert(scan_steps(text@, scan_step(text@, p), 1) == scan_steps(
                                text@,
                                scan_step(text@, scan_step(text@, p)),
                                0,
                            ));
                        }
                        scanner.skip(text, 2);
                        mode = CommentMode::Block;
                        proof {
                            assert(skip_ws_from(text@, prev, WsMode::Code) == skip_ws_from(
                                text@,
                                scanner@,
                                WsMode::Block,
                            ));
                        }
                    } else {
                        scanner.advance(text);
                        mode = CommentMode::Line;
                        proof {
                            assert(skip_ws_from(text@, prev, WsMode::Code) == skip_ws_from(
                                text@,
                                scanner@,
                                WsMode::Line,
                            ));
                        }
                    }
                } else {
                    break ;
                }
            },
            CommentMode::Line => {
                let c = scanner.advance(text);
                if c == '\n' {
                    mode = CommentMode::Code;
                }
                proof {
                    assert(skip_ws_from(text@, prev, WsMode::Line) == skip_ws_from(
                        text@,
                        scanner@,
                        ws_mode_of(mode),
                    ));
                }
            },
            CommentMode::Block => {
                if text[scanner.index] == 45 && scanner.index < text.len() - 1
                    && text[scanner.index + 1] == 35 {
                    proof {
                        let p = scanner@;
                        assert(scan_steps(text@, p, 2) == scan_steps(
                            text@,
                            scan_step(text@, p),
                            1,
                        ));
                        assert(scan_steps(text@, scan_step(text@, p), 1) == scan_steps(
                            text@,
                            scan_step(text@, scan_step(text@, p)),
                            0,
                        ));
                    }
                    scanner.skip(text, 2);
                    mode = CommentMode::Code;
                    proof {
                        assert(skip_ws_from(text@, prev, WsMode::Block) == skip_ws_from(
                            text@,
                            scanner@,
                            WsMode::Code,
                        ));
                    }
                } else {
                    scanner.advance(text);
                    proof {
                        assert(skip_ws_from(text@, prev, WsMode::Block) == skip_ws_from(
                            text@,
                            scanner@,
                            WsMode::Block,
                        ));
                    }
                }
            },
        }
    }
}

/// Scans an identifier greedily to the first disallowed character.
fn scan_identifier(text: &[u8], scanner: &mut Scanner) -> (r: Result<Token, Error>)
    requires
        scan_pos_wf(old(scanner)@, text@.len() as int),
        source_len_ok(text@.len() as int),
    ensures
        scan_pos_wf(final(scanner)@, text@.len() as int),
        match r {
            Ok(t) => spec_scan_identifier(text@, old(scanner)@) matches SpecScan::Tok(g, pf)
                && token_matches(t, g) && final(scanner)@ == pf,
            Err(_) => false,
        },
{
    let si = scanner.get_source_info();
    let ghost p0 = scanner@;
    let start = scanner.index;
    proof {
        lemma_ident_end(text@, p0.index);
    }
    let ghost end = ident_end(text@, p0.index);
    loop
        invariant
            scan_pos_wf(scanner@, text@.len() as int),
            source_len_ok(text@.len() as int),
            start == p0.index,
            si@ == scan_pos_si(p0),
            p0.index <= scanner@.index <= end <= text@.len(),
            end == ident_end(text@, p0.index),
            ident_end(text@, scanner@.index) == end,
            scanner@ == scan_steps(text@, p0, (scanner@.index - p0.index) as nat),
            forall|j: int| p0.index <= j < end ==> is_ident_char_byte(#[trigger] text@[j]),
        ensures
            scan_pos_wf(scanner@, text@.len() as int),
            scanner@.index == end,
            scanner@ == scan_steps(text@, p0, (end - p0.index) as nat),
        decreases text@.len() - scanner@.index,
    {
        if scanner.is_at_end(text) {
            break ;
        }
        let c = scanner.peek(text);
        if !valid_identifier_char(c) {
            break ;
        }
        proof {
            assert(ident_end(text@, scanner@.index) == ident_end(text@, scanner@.index + 1));
            lemma_ident_end(text@, scanner@.index + 1);
            lemma_scan_steps_snoc(text@, p0, (scanner@.index - p0.index) as nat);
        }
        scanner.advance(text);
    }
    proof {
        // at exit the cursor stands exactly at the end of the run
        assert(scanner@.index == end);
    }
    let bytes = &text[start..scanner.index];
    let id = ascii_to_string(bytes);
    let t = Token { kind: TokenKind::Identifier(id), si };
    proof {
        let g = spec_scan_identifier(text@, p0);
        match g {
            SpecScan::Tok(gt, pf) => {
                assert(gt.kind matches SpecTokenKind::Ident(cs) && id@ =~= cs);
            },
            SpecScan::Fail(..) => {
                assert(false);
            },
        }
    }
    Ok(t)
}

/// Scans a string literal: raw bytes, no escapes, to the closing quote.
fn scan_string(text: &[u8], scanner: &mut Scanner) -> (r: Result<Token, Error>)
    requires
        scan_pos_wf(old(scanner)@, text@.len() as int),
        source_len_ok(text@.len() as int),
        old(scanner)@.index < text@.len(),
    ensures
        scan_pos_wf(final(scanner)@, text@.len() as int),
        r matches Ok(t) ==> spec_scan_string(text@, old(scanner)@) matches SpecScan::Tok(g, pf)
            && token_matches(t, g) && final(scanner)@ == pf,
        r matches Err(e) ==> spec_scan_string(text@, old(scanner)@) matches SpecScan::Fail(
            ge,
            pf,
        ) && error_matches(e, ge) && final(scanner)@ == pf,
{
    let si = scanner.get_source_info();
    let ghost p0 = scanner@;
    scanner.advance(text);
    let start = scanner.index;
    let ghost q = quote_end(text@, p0.index + 1);
    proof {
        lemma_quote_end(text@, p0.index + 1);
        assert(scan_steps(text@, p0, 0) == p0);
        lemma_scan_steps_snoc(text@, p0, 0);
    }
    let mut found = false;
    loop
        invariant_except_break
            !found,
            scanner@.index <= q,
        invariant
            scan_pos_wf(scanner@, text@.len() as int),
            source_len_ok(text@.len() as int),
            start == p0.index + 1,
            q == quote_end(text@, p0.index + 1),
            p0.index + 1 <= scanner@.index <= text@.len(),
            q <= text@.len(),
            forall|j: int| p0.index + 1 <= j < q ==> #[trigger] text@[j] != 34,
            q < text@.len() ==> text@[q] == 34,
            scanner@ == scan_steps(text@, p0, (scanner@.index - p0.index) as nat),
        ensures
            scan_pos_wf(scanner@, text@.len() as int),
            found ==> q < text@.len() && scanner@.index == q + 1 && scanner@ == scan_steps(
                text@,
                p0,
                (q + 1 - p0.index) as nat,
            ),
            !found ==> scanner@.index == text@.len() && q == text@.len() && scanner@
                == scan_steps(text@, p0, (text@.len() - p0.index) as nat),
        decreases text@.len() - scanner@.index,
    {
        if scanner.is_at_end(text) {
            break ;
        }
        proof {
            lemma_scan_steps_snoc(text@, p0, (scanner@.index - p0.index) as nat);
        }
        let c = scanner.advance(text);
        if c == '"' {
            found = true;
            break ;
        }
    }
    if found {
        let bytes = &text[start..scanner.index - 1];
        let t = Token { kind: TokenKind::String(vstd::slice::slice_to_vec(bytes)), si };
        proof {
            let g = spec_scan_string(text@, p0);
            match g {
                SpecScan::Tok(gt, pf) => {
                    assert(gt.kind matches SpecTokenKind::StrLit(bs) && bytes@ =~= bs);
                    assert(token_matches(t, gt));
                },
                SpecScan::Fail(..) => {
                    assert(false);
                },
            }
        }
        return Ok(t);
    }
    let e = Error::new("Unterminated string literal".to_owned(), scanner.get_source_info());
    Err(e)
}

/// Reads the maximal run of digits of the given base, accumulating its
/// value and detecting 128-bit overflow.
fn scan_digits(text: &[u8], scanner: &mut Scanner, base: u32) -> (r: (u128, bool))
    requires
        scan_pos_wf(old(scanner)@, text@.len() as int),
        source_len_ok(text@.len() as int),
        base == 2 || base == 8 || base == 10 || base == 16,
    ensures
        scan_pos_wf(final(scanner)@, text@.len() as int),
        final(scanner)@.index == digits_end(text@, old(scanner)@.index, base as nat),
        final(scanner)@ == scan_steps(
            text@,
            old(scanner)@,
            (digits_end(text@, old(scanner)@.index, base as nat) - old(scanner)@.index) as nat,
        ),
        ({
            let span = text@.subrange(
                old(scanner)@.index,
                digits_end(text@, old(scanner)@.index, base as nat),
            );
            &&& r.1 == (base_val(span, base as nat) > u128::MAX)
            &&& !r.1 ==> r.0 == base_val(span, base as nat)
        }),
{
    let ghost p0 = scanner@;
    proof {
        lemma_digits_end(text@, p0.index, base as nat);
    }
    let ghost dend = digits_end(text@, p0.index, base as nat);
    let mut value: u128 = 0;
    let mut overflowed = false;
    loop
        invariant
            scan_pos_wf(scanner@, text@.len() as int),
            source_len_ok(text@.len() as int),
            base == 2 || base == 8 || base == 10 || base == 16,
            p0.index <= scanner@.index <= dend <= text@.len(),
            dend == digits_end(text@, p0.index, base as nat),
            digits_end(text@, scanner@.index, base as nat) == dend,
            scanner@ == scan_steps(text@, p0, (scanner@.index - p0.index) as nat),
            ({
                let sofar = text@.subrange(p0.index, scanner@.index as int);
                &&& overflowed == (base_val(sofar, base as nat) > u128::MAX)
                &&& !overflowed ==> value == base_val(sofar, base as nat)
            }),
        ensures
            scan_pos_wf(scanner@, text@.len() as int),
            scanner@.index == dend,
            scanner@ == scan_steps(text@, p0, (dend - p0.index) as nat),
            ({
                let sofar = text@.subrange(p0.index, scanner@.index as int);
                &&& overflowed == (base_val(sofar, base as nat) > u128::MAX)
                &&& !overflowed ==> value == base_val(sofar, base as nat)
            }),
        decreases text@.len() - scanner@.index,
    {
        if scanner.is_at_end(text) {
            break ;
        }
        let b = text[scanner.index];
        if !digit_of_base(b, base) {
            break ;
        }
        let ghost sofar = text@.subrange(p0.index, scanner@.index as int);
        proof {
            assert(digits_end(text@, scanner@.index, base as nat) == digits_end(
                text@,
                scanner@.index + 1,
                base as nat,
            ));
            lemma_digits_end(text@, scanner@.index + 1, base as nat);
            lemma_scan_steps_snoc(text@, p0, (scanner@.index - p0.index) as nat);
            assert(text@.subrange(p0.index, scanner@.index + 1) =~= sofar.push(b));
            lemma_base_val_push(sofar, b, base as nat);
        }
        let d = digit_value(b);
        if overflowed {
            proof {
                lemma_base_val_overflow_sticky(sofar, b, base as nat);
            }
        } else {
            let dd = d as u128;
            let bb = base as u128;
            if value <= (u128::MAX - dd) / bb {
                proof {
                    lemma_accum_within(value as int, bb as int, dd as int, u128::MAX as int);
                }
                value = value * bb + dd;
            } else {
                proof {
                    lemma_accum_exceeds(value as int, bb as int, dd as int, u128::MAX as int);
                }
                overflowed = true;
            }
        }
        scanner.advance(text);
    }
    (value, overflowed)
}

fn digit_of_base(b: u8, base: u32) -> (r: bool)
    requires
        base == 2 || base == 8 || base == 10 || base == 16,
    ensures
        r == is_digit_in_base(b, base as nat),
{
    if base == 16 {
        (48 <= b && b <= 57) || (97 <= b && b <= 102) || (65 <= b && b <= 70)
    } else {
        48 <= b && (b as u32) < 48 + base
    }
}

fn digit_value(b: u8) -> (r: u8)
    ensures
        r == digit_val(b),
{
    if 48 <= b && b <= 57 {
        b - 48
    } else if 97 <= b && b <= 102 {
        b - 87
    } else if 65 <= b && b <= 70 {
        b - 55
    } else {
        0
    }
}

/// Scans a base-prefixed integer literal, after its two-byte prefix has
/// been recognised.
fn scan_prefixed(text: &[u8], scanner: &mut Scanner, si: SourceInfo, kind: NumberKind) -> (r:
    Result<Token, Error>)
    requires
        scan_pos_wf(old(scanner)@, text@.len() as int),
        source_len_ok(text@.len() as int),
        old(scanner)@.index + 2 <= text@.len(),
        si@ == scan_pos_si(old(scanner)@),
        kind is Base2 || kind is Base8 || kind is Base16,
    ensures
        scan_pos_wf(final(scanner)@, text@.len() as int),
        r matches Ok(t) ==> spec_scan_prefixed(text@, old(scanner)@, spec_radix(kind) as nat)
            matches SpecScan::Tok(g, pf) && token_matches(t, g) && final(scanner)@ == pf,
        r matches Err(e) ==> spec_scan_prefixed(text@, old(scanner)@, spec_radix(kind) as nat)
            matches SpecScan::Fail(ge, pf) && error_matches(e, ge) && final(scanner)@ == pf,
{
    let ghost p0 = scanner@;
    let base = kind.radix();
    scanner.skip(text, 2);
    let after_prefix = scanner.index;
    proof {
        lemma_scan_steps_index(text@, p0, 2);
        lemma_digits_end(text@, p0.index + 2, base as nat);
    }
    let (value, overflowed) = scan_digits(text, scanner, base);
    proof {
        lemma_scan_steps_add(
            text@,
            p0,
            2,
            (digits_end(text@, p0.index + 2, base as nat) - (p0.index + 2)) as nat,
        );
    }
    if scanner.index == after_prefix {
        return Err(
            Error::new(
                "Expected at least one digit after integer base prefix".to_owned(),
                scanner.get_source_info(),
            ),
        );
    }
    if overflowed {
        return Err(Error::new("Integer literal exceeds maximum integer size".to_owned(), si));
    }
    Ok(Token { kind: TokenKind::UInt(value), si })
}

/// Scans a numeric literal: a base-prefixed integer, a decimal integer, or
/// a single-dot decimal float.
fn scan_number(text: &[u8], scanner: &mut Scanner) -> (r: Result<Token, Error>)
    requires
        scan_pos_wf(old(scanner)@, text@.len() as int),
        source_len_ok(text@.len() as int),
        old(scanner)@.index < text@.len(),
        is_digit_byte(text@[old(scanner)@.index]),
    ensures
        scan_pos_wf(final(scanner)@, text@.len() as int),
        r matches Ok(t) ==> spec_scan_number(text@, old(scanner)@) matches SpecScan::Tok(g, pf)
            && token_matches(t, g) && final(scanner)@ == pf,
        r matches Err(e) ==> spec_scan_number(text@, old(scanner)@) matches SpecScan::Fail(
            ge,
            pf,
        ) && error_matches(e, ge) && final(scanner)@ == pf,
{
    let si = scanner.get_source_info();
    let ghost p0 = scanner@;
    let start = scanner.index;
    if scanner.index < text.len() - 1 && text[scanner.index] == 48 {
        let b1 = text[scanner.index + 1];
        if b1 == 120 {
            return scan_prefixed(text, scanner, si, NumberKind::Base16);
        }
        if b1 == 111 {
            return scan_prefixed(text, scanner, si, NumberKind::Base8);
        }
        if b1 == 98 {
            return scan_prefixed(text, scanner, si, NumberKind::Base2);
        }
    }
    proof {
        lemma_digits_end(text@, p0.index, 10);
    }
    let ghost d1 = digits_end(text@, p0.index, 10);
    let (value, overflowed) = scan_digits(text, scanner, 10);
    if !scanner.is_at_end(text) && scanner.peek(text) == '.' {
        let has_frac: bool = if scanner.index < text.len() - 1 {
            let b2 = text[scanner.index + 1];
            48 <= b2 && b2 <= 57
        } else {
            false
        };
        proof {
            lemma_scan_steps_snoc(text@, p0, (d1 - p0.index) as nat);
        }
        if has_frac {
            scanner.advance(text);
            let ghost d2 = digits_end(text@, d1 + 1, 10);
            proof {
                lemma_digits_end(text@, d1 + 1, 10);
            }
            let (_frac, _frac_overflow) = scan_digits(text, scanner, 10);
            proof {
                lemma_scan_steps_add(text@, p0, (d1 + 1 - p0.index) as nat, (d2 - (d1
                    + 1)) as nat);
            }
            if !scanner.is_at_end(text) && scanner.peek(text) == '.' {
                return Err(
                    Error::new(
                        "Duplicate decimal point in float".to_owned(),
                        scanner.get_source_info(),
                    ),
                );
            }
            let bytes = &text[start..scanner.index];
            let t = Token { kind: TokenKind::Float(vstd::slice::slice_to_vec(bytes)), si };
            proof {
                let g = spec_scan_number(text@, p0);
                match g {
                    SpecScan::Tok(gt, pf) => {
                        assert(gt.kind matches SpecTokenKind::FloatLit(bs) && bytes@ =~= bs);
                    },
                    SpecScan::Fail(..) => {
                        assert(false);
                    },
                }
            }
            return Ok(t);
        } else {
            scanner.advance(text);
            return Err(
                Error::new(
                    "Expected at least one digit after '.'".to_owned(),
                    scanner.get_source_info(),
                ),
            );
        }
    }
    if overflowed {
        return Err(Error::new("Integer literal exceeds maximum integer size".to_owned(), si));
    }
    let t = Token { kind: TokenKind::UInt(value), si };
    proof {
        let g = spec_scan_number(text@, p0);
        match g {
            SpecScan::Tok(gt, pf) => {},
            SpecScan::Fail(..) => {
                assert(false);
            },
        }
    }
    Ok(t)
}


/// Scans one token inside a group, dispatching on the byte under the
/// cursor.
fn scan_token(text: &[u8], scanner: &mut Scanner) -> (r: Result<Token, Error>)
    requires
        scan_pos_wf(old(scanner)@, text@.len() as int),
        source_len_ok(text@.len() as int),
        old(scanner)@.index < text@.len(),
    ensures
        scan_pos_wf(final(scanner)@, text@.len() as int),
        r matches Ok(t) ==> spec_scan_token(text@, old(scanner)@) matches SpecScan::Tok(g, pf)
            && token_matches(t, g) && final(scanner)@ == pf,
        r matches Err(e) ==> spec_scan_token(text@, old(scanner)@) matches SpecScan::Fail(
            ge,
            pf,
        ) && error_matches(e, ge) && final(scanner)@ == pf,
    decreases text@.len() - old(scanner)@.index, 1int,
{
    let b = text[scanner.index];
    if b == 123 {
        scan_sexpr(text, scanner)
    } else if valid_identifier_char(b as char) && !(48 <= b && b <= 57) {
        scan_identifier(text, scanner)
    } else if 48 <= b && b <= 57 {
        scan_number(text, scanner)
    } else if b == 34 {
        scan_string(text, scanner)
    } else {
        Err(Error::new("Unexpected character".to_owned(), scanner.get_source_info()))
    }
}

/// Scans one `{ … }` group: members separated by whitespace and comments,
/// closed by a matching brace.
fn scan_sexpr(text: &[u8], scanner: &mut Scanner) -> (r: Result<Token, Error>)
    requires
        scan_pos_wf(old(scanner)@, text@.len() as int),
        source_len_ok(text@.len() as int),
    ensures
        scan_pos_wf(final(scanner)@, text@.len() as int),
        r matches Ok(t) ==> spec_scan_group(text@, old(scanner)@) matches SpecScan::Tok(g, pf)
            && token_matches(t, g) && final(scanner)@ == pf,
        r matches Err(e) ==> spec_scan_group(text@, old(scanner)@) matches SpecScan::Fail(
            ge,
            pf,
        ) && error_matches(e, ge) && final(scanner)@ == pf,
    decreases text@.len() - old(scanner)@.index, 0int,
{
    let sexpr_si = scanner.get_source_info();
    let ghost p0 = scanner@;
    let c = scanner.advance(text);
    if c != '{' {
        return Err(
            Error::new(
                "Expected '{' to start an s-expression".to_owned(),
                scanner.get_source_info(),
            ),
        );
    }
    skip_whitespace(text, scanner);
    let ghost pwc = scanner@;
    proof {
        lemma_skip_ws_mono(text@, scan_step(text@, p0), WsMode::Code);
    }
    let mut sexpr: Vec<Token> = Vec::new();
    let ghost mut gitems: Seq<SpecToken> = seq![];
    let mut pending: Option<Error> = None;
    loop
        invariant_except_break
            pending is None,
            ({
                match spec_scan_items(text@, scanner@) {
                    SpecItems::Done(rest, pf) => spec_scan_items(text@, pwc) == SpecItems::Done(
                        gitems + rest,
                        pf,
                    ),
                    SpecItems::Fail(e, pf) => spec_scan_items(text@, pwc) == SpecItems::Fail(
                        e,
                        pf,
                    ),
                }
            }),
        invariant
            scan_pos_wf(scanner@, text@.len() as int),
            source_len_ok(text@.len() as int),
            old(scanner)@ == p0,
            p0.index < pwc.index <= text@.len(),
            p0.index < scanner@.index,
            tokens_match(sexpr@, gitems),
        ensures
            scan_pos_wf(scanner@, text@.len() as int),
            p0.index < scanner@.index,
            match pending {
                None => {
                    &&& (scanner@.index >= text@.len() || text@[scanner@.index] == 125)
                    &&& spec_scan_items(text@, pwc) == SpecItems::Done(gitems, scanner@)
                    &&& tokens_match(sexpr@, gitems)
                },
                Some(e) => spec_scan_items(text@, pwc) matches SpecItems::Fail(ge, pf)
                    && error_matches(e, ge) && scanner@ == pf,
            },
        decreases text@.len() - scanner@.index,
    {
        if scanner.is_at_end(text) {
            proof {
                assert(gitems + seq![] =~= gitems);
            }
            break ;
        }
        if scanner.match_char(text, '}') {
            proof {
                assert(gitems + seq![] =~= gitems);
            }
            break ;
        }
        let ghost prev = scanner@;
        proof {
            lemma_scan_token_progress(text@, prev);
        }
        match scan_token(text, scanner) {
            Err(e) => {
                pending = Some(e);
                break ;
            },
            Ok(t) => {
                let ghost pt = scanner@;
                proof {
                    lemma_skip_ws_mono(text@, pt, WsMode::Code);
                }
                skip_whitespace(text, scanner);
                let ghost gitems_prev = gitems;
                proof {
                    match spec_scan_token(text@, prev) {
                        SpecScan::Tok(g, pf2) => {
                            gitems = gitems_prev + seq![g];
                            let pn = spec_skip_ws(text@, pf2);
                            assert(pf2 == pt);
                            assert(pn == scanner@);
                            assert(prev.index < pf2.index <= text@.len());
                            assert(pn.index > prev.index && pn.index <= text@.len());
                            assert(spec_scan_items(text@, prev) == (match spec_scan_items(
                                text@,
                                pn,
                            ) {
                                SpecItems::Done(rest, pf) => SpecItems::Done(
                                    seq![g] + rest,
                                    pf,
                                ),
                                SpecItems::Fail(e, pf) => SpecItems::Fail(e, pf),
                            }));
                            match spec_scan_items(text@, scanner@) {
                                SpecItems::Done(rest, pf) => {
                                    assert(gitems_prev + (seq![g] + rest) =~= gitems + rest);
                                },
                                SpecItems::Fail(..) => {},
                            }
                        },
                        SpecScan::Fail(..) => {
                            assert(false);
                        },
                    }
                }
                sexpr.push(t);
            },
        }
    }
    match pending {
        Some(e) => Err(e),
        None => {
            let c2 = scanner.advance(text);
            if c2 == '}' {
                let t = Token { kind: TokenKind::SExpr(sexpr), si: sexpr_si };
                proof {
                    let g = spec_scan_group(text@, p0);
                    match g {
                        SpecScan::Tok(gt, pf) => {
                            assert(token_matches(t, gt));
                        },
                        SpecScan::Fail(..) => {
                            assert(false);
                        },
                    }
                }
                Ok(t)
            } else {
                Err(
                    Error::new(
                        "Expected '}' to end s-expression".to_owned(),
                        scanner.get_source_info(),
                    ),
                )
            }
        },
    }
}

/// Turns an ASCII byte buffer into the sequence of top-level token trees.
/// Scans to the end of the input, resuming after each malformed form;
/// returns `Err` exactly when at least one diagnostic was recorded, with
/// the diagnostics exhaustive across the whole input.
pub fn tokenize(ascii_text: &[u8]) -> (r: Result<Vec<Token>, Vec<Error>>)
    requires
        source_len_ok(ascii_text@.len() as int),
    ensures
        ({
            let (gts, ges) = spec_tokenize(ascii_text@);
            match r {
                Ok(tokens) => ges.len() == 0 && tokens_match(tokens@, gts),
                Err(errors) => ges.len() > 0 && errors_match(errors@, ges),
            }
        }),
{
    let text = ascii_text;
    let mut scanner = Scanner::new();
    let mut errors: Vec<Error> = Vec::new();
    let mut tokens: Vec<Token> = Vec::new();
    let ghost mut gtoks: Seq<SpecToken> = seq![];
    let ghost mut gerrs: Seq<SpecError> = seq![];
    skip_whitespace(text, &mut scanner);
    loop
        invariant
            scan_pos_wf(scanner@, text@.len() as int),
            source_len_ok(text@.len() as int),
            tokens_match(tokens@, gtoks),
            errors_match(errors@, gerrs),
            ({
                let (ts, es) = spec_tokenize_loop(text@, scanner@);
                spec_tokenize(text@) == (gtoks + ts, gerrs + es)
            }),
        ensures
            tokens_match(tokens@, gtoks),
            errors_match(errors@, gerrs),
            spec_tokenize(text@) == (gtoks, gerrs),
        decreases text@.len() - scanner@.index,
    {
        if scanner.is_at_end(text) {
            proof {
                assert(gtoks + seq![] =~= gtoks);
                assert(gerrs + seq![] =~= gerrs);
            }
            break ;
        }
        let ghost prev = scanner@;
        proof {
            lemma_scan_group_progress(text@, prev);
        }
        match scan_sexpr(text, &mut scanner) {
            Ok(token) => {
                proof {
                    match spec_scan_group(text@, prev) {
                        SpecScan::Tok(g, pf) => {
                            gtoks = gtoks + seq![g];
                        },
                        SpecScan::Fail(..) => {
                            assert(false);
                        },
                    }
                }
                tokens.push(token);
            },
            Err(error) => {
                proof {
                    match spec_scan_group(text@, prev) {
                        SpecScan::Fail(ge, pf) => {
                            gerrs = gerrs + seq![ge];
                        },
                        SpecScan::Tok(..) => {
                            assert(false);
                        },
                    }
                }
                errors.push(error);
            },
        }
        let ghost pt = scanner@;
        proof {
            lemma_skip_ws_mono(text@, pt, WsMode::Code);
        }
        skip_whitespace(text, &mut scanner);
        proof {
            let (ts2, es2) = spec_tokenize_loop(text@, scanner@);
            match spec_scan_group(text@, prev) {
                SpecScan::Tok(g, pf) => {
                    assert(gtoks.drop_last() + (seq![gtoks.last()] + ts2) =~= gtoks + ts2);
                    assert(gerrs + es2 =~= gerrs + es2);
                },
                SpecScan::Fail(ge, pf) => {
                    assert(gerrs.drop_last() + (seq![gerrs.last()] + es2) =~= gerrs + es2);
                },
            }
        }
    }
    if errors.len() > 0 {
        Err(errors)
    } else {
        Ok(tokens)
    }
}

} // verus!
