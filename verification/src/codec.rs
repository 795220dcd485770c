use vstd::prelude::*;

use crate::digest::Digest;

verus! {

/// Powers of sixteen, used to read the hexadecimal digits of an index.
pub open spec fn pow16(e: int) -> int
    decreases e,
{
    if e <= 0 {
        1
    } else {
        16 * pow16(e - 1)
    }
}

/// The ASCII byte of one lowercase hexadecimal digit.
pub open spec fn hex_char(v: int) -> u8 {
    if v < 10 {
        (48 + v) as u8
    } else {
        (87 + v) as u8
    }
}

/// Hexadecimal digit `k` (big-endian, `0 <= k < 16`) of an index.
pub open spec fn serial_digit(num: u64, k: int) -> int {
    (num as int / pow16(15 - k)) % 16
}

/// The fixed-width serial-number encoding of an index: sixteen lowercase
/// hexadecimal characters, left-padded with '0', followed by one line feed.
pub open spec fn serial_of(num: u64) -> Seq<u8> {
    Seq::new(17, |k: int| if k == 16 { 10u8 } else { hex_char(serial_digit(num, k)) })
}

proof fn lemma_pow16_pos(e: int)
    ensures
        pow16(e) >= 1,
    decreases e,
{
    if e > 0 {
        lemma_pow16_pos(e - 1);
    }
}

/// Once the remaining value is zero, all digits further to the left are zero.
proof fn lemma_high_digits_zero(num: u64, i: int)
    requires
        0 <= i < 16,
        num as int / pow16(15 - i) == 0,
    ensures
        forall|k: int| 0 <= k <= i ==> serial_digit(num, k) == 0,
{
    assert forall|k: int| 0 <= k <= i implies serial_digit(num, k) == 0 by {
        lemma_pow16_pos(15 - i);
        lemma_pow16_pos(i - k);
        lemma_pow16_pos(15 - k);
        assert(pow16(15 - k) == pow16(15 - i) * pow16(i - k)) by {
            lemma_pow16_mul(15 - i, i - k);
        }
        vstd::arithmetic::div_mod::lemma_div_denominator(
            num as int,
            pow16(15 - i),
            pow16(i - k),
        );
        vstd::arithmetic::div_mod::lemma_basic_div(0, pow16(i - k));
    }
}

proof fn lemma_pow16_mul(a: int, b: int)
    requires
        a >= 0,
        b >= 0,
    ensures
        pow16(a + b) == pow16(a) * pow16(b),
    decreases b,
{
    if b > 0 {
        lemma_pow16_mul(a, b - 1);
        assert(pow16(a + b) == 16 * pow16(a + b - 1));
        assert(pow16(a) * pow16(b) == pow16(a) * (16 * pow16(b - 1)));
        assert(pow16(a) * (16 * pow16(b - 1)) == 16 * (pow16(a) * pow16(b - 1)))
            by (nonlinear_arith);
    }
}

/// Renders an index as its fixed-width serial number: sixteen lowercase hex
/// characters left-padded with '0', then a line feed, 17 bytes in all.
pub fn int_to_serial_number(num: u64) -> (r: [u8; 17])
    ensures
        r@ == serial_of(num),
{
    let mut serial: [u8; 17] = [48u8; 17];
    serial[16] = 10u8;

    let mut n: u64 = num;
    let mut i: usize = 16;
    while i > 0 && n != 0
        invariant
            0 <= i <= 16,
            n as int == num as int / pow16(16 - i),
            serial@.len() == 17,
            serial@[16] == 10u8,
            forall|k: int| i <= k < 16 ==> serial@[k] == hex_char(serial_digit(num, k)),
            forall|k: int| 0 <= k < i ==> serial@[k] == 48u8,
        decreases i,
    {
        i = i - 1;
        let d: u64 = n % 16;
        proof {
            lemma_pow16_pos(15 - i);
            assert(d == serial_digit(num, i as int));
        }
        serial[i] = if d < 10 {
            48 + d as u8
        } else {
            87 + d as u8
        };
        n = n / 16;
        proof {
            vstd::arithmetic::div_mod::lemma_div_denominator(num as int, pow16(15 - i), 16);
            assert(pow16(15 - i) * 16 == pow16(16 - i)) by {
                lemma_pow16_mul(15 - i, 1);
            }
        }
    }
    proof {
        if i > 0 {
            lemma_high_digits_zero(num, i - 1);
            assert forall|k: int| 0 <= k < i implies serial@[k] == hex_char(
                serial_digit(num, k),
            ) by {
                assert(serial_digit(num, k) == 0);
            }
        }
        assert(serial@ =~= serial_of(num));
    }
    serial
}

/// The digest of an arbitrary byte string, named but never written out: it
/// stands for what the hash function returns on those bytes.
pub uninterp spec fn md5_of(data: Seq<u8>) -> Seq<u8>;

/// Relies on md5::compute: the digest is a pure function of the input bytes
/// and is exactly 16 bytes long.
#[verifier::external_body]
pub(crate) fn compute_md5(data: &[u8; 17]) -> (r: Digest)
    ensures
        r@ == md5_of(data@),
{
    Digest(md5::compute(data).0)
}

/// The digest that the system associates with an index.
pub open spec fn digest_of(i: u64) -> Seq<u8> {
    md5_of(serial_of(i))
}

/// The digests of every index in an inclusive range, in index order.
pub open spec fn range_digests(start: u64, end: u64) -> Seq<Seq<u8>> {
    Seq::new((end - start + 1) as nat, |k: int| digest_of((start + k) as u64))
}

/// Computes the digest of one index: encode it, then hash the encoding.
pub fn digest_of_index(i: u64) -> (d: Digest)
    ensures
        d@ == digest_of(i),
{
    let serial = int_to_serial_number(i);
    compute_md5(&serial)
}

/// The serial-number encoding is 17 bytes: sixteen lowercase hexadecimal
/// characters carrying the index's digits big-endian, then one line feed.
pub proof fn lemma_serial_shape(num: u64)
    ensures
        serial_of(num).len() == 17,
        serial_of(num)[16] == 10u8,
        forall|k: int|
            0 <= k < 16 ==> {
                let b = #[trigger] serial_of(num)[k];
                (48 <= b <= 57 || 97 <= b <= 102) && b == hex_char(serial_digit(num, k))
            },
{
    assert forall|k: int| 0 <= k < 16 implies {
        let b = #[trigger] serial_of(num)[k];
        (48 <= b <= 57 || 97 <= b <= 102) && b == hex_char(serial_digit(num, k))
    } by {
        lemma_pow16_pos(15 - k);
        assert(0 <= serial_digit(num, k) < 16) by {
            vstd::arithmetic::div_mod::lemma_mod_bound(
                num as int / pow16(15 - k),
                16,
            );
        }
    }
}

} // verus!
