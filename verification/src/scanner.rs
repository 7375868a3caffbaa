//! The lexer's cursor over the input bytes. The cursor advances one byte at
//! a time; a newline increments the line counter and resets the column only
//! on the *next* advance, so a token's recorded position always reflects
//! where the token begins. That one-step-delayed increment is part of the
//! contract, since column numbers are user-visible in diagnostics.

use vstd::prelude::*;

use crate::source_info::SourceInfo;
use vstd::string::StringSliceAdditionalSpecFns;
use crate::source_info::SpecPos;

verus! {

/// The mathematical model of the cursor: position fields as unbounded
/// integers, plus the pending-newline flag.
pub ghost struct ScanPos {
    pub index: int,
    pub line: int,
    pub column: int,
    pub newline: bool,
}

/// The cursor at the start of the input.
pub open spec fn scan_start() -> ScanPos {
    ScanPos { index: 0, line: 1, column: 1, newline: false }
}

/// Cursor sanity over an input of length `len`: the index stays within the
/// input, and lines and columns are 1-based and bounded by the index, which
/// keeps the executable counters free of overflow.
pub open spec fn scan_pos_wf(p: ScanPos, len: int) -> bool {
    &&& 0 <= p.index <= len
    &&& 1 <= p.line <= p.index + 1
    &&& 1 <= p.column <= p.index + 1
}

/// The byte the cursor is looking at, as the lexer sees it: a NUL signals
/// the end of the input.
pub open spec fn scan_read(text: Seq<u8>, p: ScanPos) -> char {
    if p.index >= text.len() {
        '\0'
    } else {
        text[p.index] as char
    }
}

/// One advance of the cursor: consume one byte, applying the delayed
/// line/column update. At the end of the input the cursor does not move.
pub open spec fn scan_step(text: Seq<u8>, p: ScanPos) -> ScanPos {
    if p.index >= text.len() {
        p
    } else {
        ScanPos {
            index: p.index + 1,
            line: if p.newline {
                p.line + 1
            } else {
                p.line
            },
            column: if p.newline {
                1
            } else {
                p.column + 1
            },
            newline: text[p.index] == 10,
        }
    }
}

/// `n` advances of the cursor.
pub open spec fn scan_steps(text: Seq<u8>, p: ScanPos, n: nat) -> ScanPos
    decreases n,
{
    if n == 0 {
        p
    } else {
        scan_steps(text, scan_step(text, p), (n - 1) as nat)
    }
}

/// The position a token or diagnostic records when the cursor stands at `p`.
pub open spec fn scan_pos_si(p: ScanPos) -> SpecPos {
    SpecPos { line: p.line, column: p.column, index: p.index }
}

/// One advance never rewinds the cursor and keeps it sane.
pub proof fn lemma_scan_step_wf(text: Seq<u8>, p: ScanPos)
    requires
        scan_pos_wf(p, text.len() as int),
    ensures
        scan_pos_wf(scan_step(text, p), text.len() as int),
        p.index <= scan_step(text, p).index,
{
}

/// Iterated advances never rewind the cursor, move it at most `n` bytes,
/// and keep it sane.
pub proof fn lemma_scan_steps_wf(text: Seq<u8>, p: ScanPos, n: nat)
    requires
        scan_pos_wf(p, text.len() as int),
    ensures
        scan_pos_wf(scan_steps(text, p, n), text.len() as int),
        p.index <= scan_steps(text, p, n).index <= p.index + n,
    decreases n,
{
    if n > 0 {
        lemma_scan_steps_wf(text, scan_step(text, p), (n - 1) as nat);
    }
}

/// While the cursor is inside the input, iterated advances move it exactly
/// one byte each.
pub proof fn lemma_scan_steps_index(text: Seq<u8>, p: ScanPos, n: nat)
    requires
        p.index + n <= text.len(),
    ensures
        scan_steps(text, p, n).index == p.index + n,
    decreases n,
{
    if n > 0 {
        lemma_scan_steps_index(text, scan_step(text, p), (n - 1) as nat);
    }
}

/// Splitting a run of advances.
pub proof fn lemma_scan_steps_add(text: Seq<u8>, p: ScanPos, m: nat, n: nat)
    ensures
        scan_steps(text, scan_steps(text, p, m), n) == scan_steps(text, p, (m + n) as nat),
    decreases m,
{
    if m > 0 {
        lemma_scan_steps_add(text, scan_step(text, p), (m - 1) as nat, n);
    }
}

/// Peeling one advance off the end of a run.
pub proof fn lemma_scan_steps_snoc(text: Seq<u8>, p: ScanPos, n: nat)
    ensures
        scan_steps(text, p, n + 1) == scan_step(text, scan_steps(text, p, n)),
{
    lemma_scan_steps_add(text, p, n, 1);
    let q = scan_steps(text, p, n);
    assert(scan_steps(text, q, 1) == scan_steps(text, scan_step(text, q), 0));
}

/// The executable cursor; the input bytes are passed to each operation
/// rather than stored, so the whole state is plain integers.
pub struct Scanner {
    pub index: usize,
    pub line: i64,
    pub column: i64,
    pub newline: bool,
}

impl View for Scanner {
    type V = ScanPos;

    open spec fn view(&self) -> ScanPos {
        ScanPos {
            index: self.index as int,
            line: self.line as int,
            column: self.column as int,
            newline: self.newline,
        }
    }
}

/// Inputs must leave room for the 1-based line/column counters in an `i64`.
pub open spec fn source_len_ok(len: int) -> bool {
    len + 1 <= i64::MAX
}

impl Scanner {
    pub fn new() -> (s: Self)
        ensures
            s@ == scan_start(),
    {
        Self { index: 0, line: 1, column: 1, newline: false }
    }

    pub fn is_at_end(&self, text: &[u8]) -> (r: bool)
        ensures
            r == (self@.index >= text@.len()),
    {
        self.index >= text.len()
    }

    /// Consume and return one byte (as a char), or `'\0'` without moving at
    /// the end of the input.
    pub fn advance(&mut self, text: &[u8]) -> (c: char)
        requires
            scan_pos_wf(old(self)@, text@.len() as int),
            source_len_ok(text@.len() as int),
        ensures
            final(self)@ == scan_step(text@, old(self)@),
            c == scan_read(text@, old(self)@),
            scan_pos_wf(final(self)@, text@.len() as int),
    {
        if self.is_at_end(text) {
            return '\0';
        }
        let c = text[self.index] as char;
        if self.newline {
            self.newline = false;
            self.line = self.line + 1;
            self.column = 1;
        } else {
            self.column = self.column + 1;
        }
        if c == '\n' {
            self.newline = true;
        }
        self.index = self.index + 1;
        c
    }

    /// Consume up to `amount` bytes, stopping early only at the end of the
    /// input (where advancing is a no-op anyway).
    pub fn skip(&mut self, text: &[u8], amount: usize)
        requires
            scan_pos_wf(old(self)@, text@.len() as int),
            source_len_ok(text@.len() as int),
        ensures
            final(self)@ == scan_steps(text@, old(self)@, amount as nat),
            scan_pos_wf(final(self)@, text@.len() as int),
    {
        let mut done: usize = 0;
        while done < amount
            invariant
                done <= amount,
                scan_pos_wf(self@, text@.len() as int),
                source_len_ok(text@.len() as int),
                scan_steps(text@, old(self)@, amount as nat) == scan_steps(
                    text@,
                    self@,
                    (amount - done) as nat,
                ),
            decreases amount - done,
        {
            self.advance(text);
            done = done + 1;
        }
    }

    /// The byte under the cursor, as a char. The cursor must be inside the
    /// input.
    pub fn peek(&self, text: &[u8]) -> (c: char)
        requires
            self@.index < text@.len(),
        ensures
            c == text@[self@.index] as char,
    {
        text[self.index] as char
    }

    /// Whether the bytes at the cursor spell out the UTF-8 encoding of `s`.
    pub fn match_string(&self, text: &[u8], s: &str) -> (r: bool)
        ensures
            r == spec_match_at(text@, self@.index, s.spec_bytes()),
    {
        let bytes = s.as_bytes();
        let tlen = text.len();
        if tlen < self.index || tlen - self.index < bytes.len() {
            return false;
        }
        let mut k: usize = 0;
        while k < bytes.len()
            invariant
                0 <= k <= bytes@.len(),
                text@.len() <= usize::MAX,
                self@.index + bytes@.len() <= text@.len(),
                bytes@ == s.spec_bytes(),
                forall|j: int| 0 <= j < k ==> text@[self@.index + j] == bytes@[j],
            decreases bytes@.len() - k,
        {
            if text[self.index + k] != bytes[k] {
                return false;
            }
            k = k + 1;
        }
        true
    }

    /// Whether the byte under the cursor is `c`. The cursor must be inside
    /// the input.
    pub fn match_char(&self, text: &[u8], c: char) -> (r: bool)
        requires
            self@.index < text@.len(),
        ensures
            r == (text@[self@.index] as char == c),
    {
        self.peek(text) == c
    }

    /// The position a token scanned from here will record.
    pub fn get_source_info(&self) -> (si: SourceInfo)
        ensures
            si@ == scan_pos_si(self@),
    {
        SourceInfo::new(self.line, self.column, self.index)
    }
}

/// Whether `text` spells out the bytes of `s` starting at offset `at`.
pub open spec fn spec_match_at(text: Seq<u8>, at: int, s: Seq<u8>) -> bool {
    &&& at + s.len() <= text.len()
    &&& forall|j: int| 0 <= j < s.len() ==> text[at + j] == s[j]
}

/// Whether the two-byte prefix `b0 b1` stands at offset `at` of `text`.
pub open spec fn prefix2_at(text: Seq<u8>, at: int, b0: u8, b1: u8) -> bool {
    &&& at + 2 <= text.len()
    &&& text[at] == b0
    &&& text[at + 1] == b1
}


/// Advancing over a newline-free span adds to the column and leaves the
/// line alone.
pub proof fn lemma_scan_steps_no_newline(text: Seq<u8>, p: ScanPos, n: nat)
    requires
        !p.newline,
        p.index + n <= text.len(),
        forall|j: int| p.index <= j < p.index + n ==> #[trigger] text[j] != 10,
    ensures
        scan_steps(text, p, n) == (ScanPos {
            index: p.index + n,
            line: p.line,
            column: p.column + n,
            newline: false,
        }),
    decreases n,
{
    if n == 0 {
        assert(scan_steps(text, p, n) == p);
    } else {
        lemma_scan_steps_no_newline(text, scan_step(text, p), (n - 1) as nat);
    }
}

} // verus!
