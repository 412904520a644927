//! Conversions between byte sequences and strings.

use vstd::prelude::*;

verus! {

/// Relies on `String::from_utf8_lossy`: on valid UTF-8 input it returns a
/// string with exactly the input bytes; on invalid input it substitutes
/// replacement characters and never fails.
#[verifier::external_body]
pub fn bytes_to_string(b: &[u8]) -> (r: String)
    ensures
        vstd::utf8::valid_utf8(b@) ==> vstd::utf8::encode_utf8(r@) == b@,
{
    String::from_utf8_lossy(b).into_owned()
}

/// The decimal digits of `n`, most significant first.
pub open spec fn spec_decimal(n: int) -> Seq<u8>
    decreases n,
    when n >= 0
{
    if n <= 9 {
        seq![(0x30 + n) as u8]
    } else {
        spec_decimal(n / 10) + seq![(0x30 + n % 10) as u8]
    }
}

/// Render `n` as decimal ASCII digits.
pub fn u32_to_decimal(n: u32) -> (r: Vec<u8>)
    ensures
        r@ == spec_decimal(n as int),
{
    let mut digits: Vec<u8> = Vec::new();
    let mut m: u32 = n;
    if m == 0 {
        digits.push(0x30);
        return digits;
    }
    let mut rev: Vec<u8> = Vec::new();
    while m > 0
        invariant
            n > 0,
            m <= n,
            m > 0 ==> spec_decimal(n as int) =~= spec_decimal(m as int) + rev@.reverse(),
            m == 0 ==> spec_decimal(n as int) =~= rev@.reverse(),
        decreases m,
    {
        proof {
            if m > 9 {
                assert(spec_decimal(m as int) =~= spec_decimal(m as int / 10) + seq![
                    (0x30 + m as int % 10) as u8,
                ]);
            }
            assert((rev@ + seq![(0x30 + m as int % 10) as u8]).reverse() =~= seq![
                (0x30 + m as int % 10) as u8,
            ] + rev@.reverse());
        }
        rev.push(0x30 + (m % 10) as u8);
        m = m / 10;
    }
    let mut i: usize = rev.len();
    while i > 0
        invariant
            i <= rev@.len(),
            digits@ =~= rev@.reverse().take(rev@.len() - i),
        decreases i,
    {
        i = i - 1;
        proof {
            assert(rev@.reverse()[rev@.len() - i - 1] == rev@[i as int]);
            assert(rev@.reverse().take(rev@.len() - i) =~= rev@.reverse().take(
                rev@.len() - i - 1,
            ).push(rev@[i as int]));
        }
        digits.push(rev[i]);
    }
    proof {
        assert(rev@.reverse().take(rev@.len() as int) =~= rev@.reverse());
    }
    digits
}

/// Decimal digits are ASCII: every byte of `spec_decimal(n)` is a digit.
pub proof fn lemma_decimal_ascii(n: int)
    requires
        n >= 0,
    ensures
        forall|i: int|
            0 <= i < spec_decimal(n).len() ==> 0x30 <= #[trigger] spec_decimal(n)[i] <= 0x39,
    decreases n,
{
    if n > 9 {
        lemma_decimal_ascii(n / 10);
        assert forall|i: int|
            0 <= i < spec_decimal(n).len() implies 0x30 <= #[trigger] spec_decimal(n)[i]
            <= 0x39 by {
            if i < spec_decimal(n / 10).len() {
                assert(spec_decimal(n)[i] == spec_decimal(n / 10)[i]);
            }
        }
    }
}

/// A byte sequence whose bytes are all below 0x80 is valid UTF-8: each
/// byte is a one-byte scalar.
pub proof fn lemma_ascii_valid_utf8(b: Seq<u8>)
    requires
        forall|i: int| 0 <= i < b.len() ==> #[trigger] b[i] < 0x80,
    ensures
        vstd::utf8::valid_utf8(b),
    decreases b.len(),
{
    if b.len() != 0 {
        let b0 = b[0];
        assert(b0 < 0x80);
        assert(b0 & 0x7F == b0 && (b0 & 0x7F) < 0xd800) by (bit_vector)
            requires
                b0 < 0x80,
        ;
        assert(vstd::utf8::is_leading_byte_width_1(b0));
        assert(vstd::utf8::valid_first_scalar(b));
        assert(vstd::utf8::length_of_first_scalar(b) == 1);
        let rest = vstd::utf8::pop_first_scalar(b);
        assert(rest =~= b.subrange(1, b.len() as int));
        assert forall|i: int| 0 <= i < rest.len() implies #[trigger] rest[i] < 0x80 by {
            assert(rest[i] == b[i + 1]);
        }
        lemma_ascii_valid_utf8(rest);
    }
}

} // verus!
