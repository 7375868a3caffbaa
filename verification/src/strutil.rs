//! Conversion between ASCII byte spans and owned strings, for identifier
//! lexemes and rendered diagnostics.

use vstd::prelude::*;

verus! {

/// Relies on `String::from_utf8_lossy`: on bytes below 128 the conversion
/// is lossless and maps each byte to the character with the same code.
#[verifier::external_body]
pub fn ascii_to_string(bytes: &[u8]) -> (r: String)
    requires
        forall|i: int| 0 <= i < bytes@.len() ==> bytes@[i] < 128,
    ensures
        r@.len() == bytes@.len(),
        forall|i: int| 0 <= i < bytes@.len() ==> r@[i] == bytes@[i] as char,
{
    String::from_utf8_lossy(bytes).into_owned()
}


/// The decimal digits of `n`, most significant first.
pub open spec fn dec_digits(n: nat) -> Seq<char>
    decreases n,
{
    if n < 10 {
        seq![((48 + n) as u8) as char]
    } else {
        dec_digits(n / 10).push(((48 + n % 10) as u8) as char)
    }
}

/// The decimal rendering of an integer, with a leading minus sign when
/// negative.
pub open spec fn dec_int(v: int) -> Seq<char> {
    if v < 0 {
        seq!['-'] + dec_digits((-v) as nat)
    } else {
        dec_digits(v as nat)
    }
}

/// The characters of a byte buffer read back to front.
pub open spec fn rev_chars(bs: Seq<u8>) -> Seq<char> {
    Seq::new(bs.len(), |i: int| bs[bs.len() - 1 - i] as char)
}

/// Renders an integer in decimal.
pub fn format_i64(n: i64) -> (r: String)
    ensures
        r@ == dec_int(n as int),
{
    let neg = n < 0;
    let mut m: u64 = if n < 0 {
        (-(n as i128)) as u64
    } else {
        n as u64
    };
    let ghost m0 = m as nat;
    proof {
        assert(m0 == if n < 0 {
            (-(n as int)) as nat
        } else {
            n as nat
        });
    }
    let mut rev: Vec<u8> = Vec::new();
    loop
        invariant_except_break
            rev@.len() > 0 ==> m > 0,
        invariant
            m <= m0,
            rev@.len() == 0 ==> m == m0,
            rev@.len() > 0 ==> dec_digits(m0) =~= (if m > 0 {
                dec_digits(m as nat)
            } else {
                Seq::<char>::empty()
            }) + rev_chars(rev@),
            forall|i: int| 0 <= i < rev@.len() ==> 48 <= #[trigger] rev@[i] <= 57,
        ensures
            m == 0,
            rev@.len() > 0,
            dec_digits(m0) =~= rev_chars(rev@),
            forall|i: int| 0 <= i < rev@.len() ==> 48 <= #[trigger] rev@[i] <= 57,
        decreases m, (if rev@.len() == 0 {
            1int
        } else {
            0int
        }),
    {
        let ghost rev_prev = rev@;
        let ghost m_prev = m as nat;
        let d = (m % 10) as u8 + 48;
        rev.push(d);
        m = m / 10;
        proof {
            assert(rev_chars(rev@) =~= seq![d as char] + rev_chars(rev_prev));
            if m_prev >= 10 {
                assert(dec_digits(m_prev) == dec_digits(m_prev / 10).push(
                    ((48 + m_prev % 10) as u8) as char,
                ));
                assert(dec_digits(m_prev) + rev_chars(rev_prev) =~= dec_digits(m_prev / 10) + (
                seq![d as char] + rev_chars(rev_prev)));
            } else {
                assert(dec_digits(m_prev) =~= seq![d as char]);
                assert(dec_digits(m_prev) + rev_chars(rev_prev) =~= Seq::<char>::empty() + (
                seq![d as char] + rev_chars(rev_prev)));
            }
            if rev_prev.len() == 0 {
                assert(dec_digits(m0) =~= (if m > 0 {
                    dec_digits(m as nat)
                } else {
                    Seq::<char>::empty()
                }) + rev_chars(rev@));
            }
        }
        if m == 0 {
            break ;
        }
    }
    let mut out: Vec<u8> = Vec::new();
    if neg {
        out.push(45);
    }
    let ghost sign: Seq<u8> = if neg {
        seq![45u8]
    } else {
        seq![]
    };
    let mut i = rev.len();
    while i > 0
        invariant
            0 <= i <= rev@.len(),
            out@.len() == sign.len() + rev@.len() - i,
            forall|k: int| 0 <= k < sign.len() ==> #[trigger] out@[k] == sign[k],
            forall|k: int|
                sign.len() <= k < out@.len() ==> #[trigger] out@[k] == rev@[rev@.len() - 1 - (k
                    - sign.len())],
            forall|k: int| 0 <= k < rev@.len() ==> 48 <= #[trigger] rev@[k] <= 57,
        decreases i,
    {
        out.push(rev[i - 1]);
        i = i - 1;
    }
    let r = ascii_to_string(out.as_slice());
    proof {
        assert(r@ =~= dec_int(n as int));
    }
    r
}

} // verus!
