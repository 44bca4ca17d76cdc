use vstd::prelude::*;
use rand::RngCore;
use crate::revision::wall_clock_ms;

verus! {

// Time-ordered UUIDs (version 7): 48 bits of Unix milliseconds, the version
// nibble 7, ten bytes of randomness around the RFC 4122 variant bits.

/// The bytes of the version 7 UUID for Unix time `millis` and the ten bytes
/// of randomness `r`, as `uuid::Builder::from_unix_timestamp_millis` lays
/// them out.
pub open spec fn v7_bytes(millis: u64, r: Seq<u8>) -> Seq<u8> {
    seq![
        (millis >> 40u64) as u8, (millis >> 32u64) as u8, (millis >> 24u64) as u8,
        (millis >> 16u64) as u8, (millis >> 8u64) as u8, millis as u8,
        0x70u8 | (r[0] & 0x0fu8), r[1], 0x80u8 | (r[2] & 0x3fu8),
        r[3], r[4], r[5], r[6], r[7], r[8], r[9],
    ]
}

/// Sixteen bytes that carry the version 7 and the RFC 4122 variant.
pub open spec fn is_v7(b: Seq<u8>) -> bool {
    &&& b.len() == 16
    &&& b[6] >> 4u8 == 7u8
    &&& b[8] >> 6u8 == 2u8
}

/// A lower-case hexadecimal digit.
pub open spec fn hex_digit(n: u8) -> char {
    if n < 10 { (48 + n) as char } else { (87 + n) as char }
}

/// Each byte as two lower-case hexadecimal digits.
pub open spec fn hex_of(bs: Seq<u8>) -> Seq<char>
    decreases bs.len(),
{
    if bs.len() == 0 {
        Seq::empty()
    } else {
        hex_of(bs.drop_last()) + seq![hex_digit(bs.last() / 16), hex_digit(bs.last() % 16)]
    }
}

/// The hyphenated text of sixteen bytes: 8-4-4-4-12 hexadecimal digits.
pub open spec fn hyphenated(b: Seq<u8>) -> Seq<char> {
    hex_of(b.subrange(0, 4)) + seq!['-'] + hex_of(b.subrange(4, 6)) + seq!['-'] + hex_of(b.subrange(6, 8))
        + seq!['-'] + hex_of(b.subrange(8, 10)) + seq!['-'] + hex_of(b.subrange(10, 16))
}

proof fn lemma_hex_len(bs: Seq<u8>)
    ensures
        hex_of(bs).len() == 2 * bs.len(),
    decreases bs.len(),
{
    if bs.len() > 0 {
        lemma_hex_len(bs.drop_last());
    }
}

/// Wraps `rand::rngs::OsRng::try_fill_bytes` (rand_core 0.6, through
/// `getrandom`): ten bytes from the operating system's random source, or
/// `None` when that source fails. Which bytes is chance; only the count is
/// stated.
#[verifier::external_body]
fn os_random_10() -> (r: Option<Vec<u8>>)
    ensures
        r matches Some(v) ==> v@.len() == 10,
{
    let mut b = [0u8; 10];
    match rand::rngs::OsRng.try_fill_bytes(&mut b) {
        Ok(()) => Some(b.to_vec()),
        Err(_) => None,
    }
}

/// Wraps `uuid::Builder::from_unix_timestamp_millis(..).into_uuid()` with
/// its bytes (`as_bytes`) and its text (`Display`, lower-case hyphenated):
/// the bytes are `v7_bytes(millis, r)`, as the builder's encoding sets them.
#[verifier::external_body]
fn v7_from_parts(millis: u64, r: &Vec<u8>) -> (u: (Vec<u8>, String))
    requires
        r@.len() == 10,
    ensures
        u.0@ == v7_bytes(millis, r@),
        u.1@ == hyphenated(u.0@),
{
    let a: [u8; 10] = [r[0], r[1], r[2], r[3], r[4], r[5], r[6], r[7], r[8], r[9]];
    let u = uuid::Builder::from_unix_timestamp_millis(millis, &a).into_uuid();
    (u.as_bytes().to_vec(), u.to_string())
}

/// A fresh time-ordered UUID, as its 16 bytes and its hyphenated text, from
/// the system clock (0 before the epoch) and the operating system's random
/// source; should that source fail, the random part is all zero bits.
pub fn uuid_v7() -> (r: (Vec<u8>, String))
    ensures
        is_v7(r.0@),
        r.1@ == hyphenated(r.0@),
        r.1@.len() == 36,
{
    let millis = wall_clock_ms();
    let rand = match os_random_10() {
        Some(b) => b,
        None => {
            let mut z: Vec<u8> = Vec::new();
            while z.len() < 10
                invariant
                    z@.len() <= 10,
                decreases 10 - z@.len(),
            {
                z.push(0u8);
            }
            z
        },
    };
    let u = v7_from_parts(millis, &rand);
    proof {
        let x = rand@[0];
        let y = rand@[2];
        assert((0x70u8 | (x & 0x0fu8)) >> 4u8 == 7u8) by (bit_vector);
        assert((0x80u8 | (y & 0x3fu8)) >> 6u8 == 2u8) by (bit_vector);
        let b = u.0@;
        lemma_hex_len(b.subrange(0, 4));
        lemma_hex_len(b.subrange(4, 6));
        lemma_hex_len(b.subrange(6, 8));
        lemma_hex_len(b.subrange(8, 10));
        lemma_hex_len(b.subrange(10, 16));
    }
    u
}

} // verus!
