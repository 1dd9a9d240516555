//! Encode and decode byte strings in an arbitrary radix given by a
//! caller-supplied symbol alphabet: base58, base62, or any custom
//! alphabet, ASCII or not. The radix is rarely a power of two, so the
//! conversion runs through an arbitrary-precision integer that is
//! divided or multiplied by the base one digit at a time.
use vstd::prelude::*;
use vstd::arithmetic::power::{lemma_pow_multiplies, lemma_pow_strictly_increases, pow};

pub mod alphabet;
mod bigint;
pub mod bigintstatic;
mod decoder;
mod encoder;
pub mod model;
pub mod num;

pub use alphabet::Alphabet;
pub use bigintstatic::{BigUintErr, BigUintStatic};

use bigint::BigUint;
use model::{ascii_chars_of, decode_bytes, encode_text, text_digits, text_ok};
use num::{
    byte_ints, chunk_radix, digits_of, lemma_digits_of_len, lemma_digits_of_props,
    lemma_place_val_pow, lemma_pow_base_le, place_val,
};

verus! {

/// The input of a decode could not be turned into bytes: a symbol
/// outside the alphabet, or, on the fixed-capacity path, a backing
/// capacity or an output buffer that does not fit the value.
#[derive(Debug)]
pub struct DecodeError;

/// Encode an input buffer using the given alphabet.
pub fn encode<A: Alphabet>(alphabet: A, input: &[u8]) -> (r: String)
    requires
        alphabet.wf(),
    ensures
        r@ == encode_text(alphabet.symbols(), input@),
{
    alphabet.encode(input)
}

/// Decode an input string using the given alphabet; fails exactly when
/// some character of the input is not a symbol of the alphabet.
pub fn decode<A: Alphabet>(alphabet: A, input: &str) -> (r: Result<Vec<u8>, DecodeError>)
    requires
        alphabet.wf(),
    ensures
        r is Ok <==> text_ok(alphabet.symbols(), input@),
        r is Ok ==> r.unwrap()@ == decode_bytes(alphabet.symbols(), input@),
{
    alphabet.decode(input)
}

/// Encode into a caller buffer of exactly the encoded length, with no
/// allocation, using a `BACKING`-chunk integer.
pub fn encode_mut<A: Alphabet, const BACKING: usize>(
    alphabet: A,
    output: &mut [u8],
    input: &[u8],
) -> (r: Result<(), ()>)
    requires
        alphabet.wf(),
        alphabet.wf_fixed(),
        BACKING <= usize::MAX / 32,
    ensures
        r is Ok <==> input@.len() <= 4 * (BACKING as int) && old(output)@.len() == encode_text(
            alphabet.symbols(),
            input@,
        ).len(),
        r is Ok ==> ascii_chars_of(final(output)@) == encode_text(alphabet.symbols(), input@),
        r is Err ==> final(output)@ == old(output)@,
{
    alphabet.encode_mut::<BACKING>(output, input)
}

/// Decode into a caller buffer of exactly the decoded length, with no
/// allocation, using a `BACKING`-chunk integer.
pub fn decode_mut<A: Alphabet, const BACKING: usize>(
    alphabet: A,
    output: &mut [u8],
    input: &str,
) -> (r: Result<(), DecodeError>)
    requires
        alphabet.wf(),
        alphabet.wf_fixed(),
        BACKING <= usize::MAX / 32,
    ensures
        r is Ok <==> text_ok(alphabet.symbols(), input@) && place_val(
            text_digits(alphabet.symbols(), input@),
            alphabet.symbols().len() as int,
        ) < pow(chunk_radix(), BACKING as nat) && old(output)@.len() == decode_bytes(
            alphabet.symbols(),
            input@,
        ).len(),
        r is Ok ==> final(output)@ == decode_bytes(alphabet.symbols(), input@),
        r is Err ==> final(output)@ == old(output)@,
{
    alphabet.decode_mut::<BACKING>(output, input)
}

/// The number of radix-`base` digits that any `input_byte_size`-byte
/// input can need: the digit count of 256^input_byte_size. An upper
/// bound for inputs with no leading zero byte; an input of mostly zero
/// bytes can encode to more symbols than this.
pub fn gen_encoded_size(base: usize, input_byte_size: usize) -> (r: usize)
    requires
        2 <= base <= u32::MAX,
        input_byte_size <= (usize::MAX - 1) / 8,
    ensures
        r as int == digits_of(pow(256, input_byte_size as nat), base as int).len(),
{
    let ghost b = base as int;
    let ghost n = input_byte_size as int;
    let base32 = base as u32;
    let mut bytes: Vec<u8> = vec![0u8; input_byte_size];
    bytes.insert(0, 1u8);
    let mut big = BigUint::from_bytes_be(bytes.as_slice());
    let ghost v0 = big.value();
    proof {
        assert(bytes@ =~= seq![1u8] + Seq::new(input_byte_size as nat, |i: int| 0u8));
        assert(byte_ints(bytes@)[0] == 1);
        assert(forall|i: int| 1 <= i < byte_ints(bytes@).len() ==> #[trigger] byte_ints(
            bytes@,
        )[i] == 0);
        lemma_place_val_pow(byte_ints(bytes@), 256, n);
        assert(v0 == pow(256, input_byte_size as nat));
        vstd::arithmetic::power::lemma_pow_positive(256, input_byte_size as nat);
        lemma_digits_of_props(v0, b);
        // 256^n = 2^(8n) < 2^(8n+1) <= base^(8n+1), so at most 8n+1 digits
        reveal(pow);
        assert(pow(2, 0) == 1);
        assert(pow(2, 1) == 2);
        assert(pow(2, 2) == 4);
        assert(pow(2, 3) == 8);
        assert(pow(2, 4) == 16);
        assert(pow(2, 5) == 32);
        assert(pow(2, 6) == 64);
        assert(pow(2, 7) == 128);
        assert(pow(2, 8) == 256);
        lemma_pow_multiplies(2, 8, input_byte_size as nat);
        assert(v0 == pow(2, (8 * n) as nat));
        lemma_pow_strictly_increases(2, (8 * n) as nat, (8 * n + 1) as nat);
        lemma_pow_base_le(2, b, (8 * n + 1) as nat);
        lemma_digits_of_len(v0, b, (8 * n + 1) as nat);
    }
    let mut d: usize = 0;
    while !big.is_zero()
        invariant
            2 <= base <= u32::MAX,
            b == base as int,
            base32 == base as u32,
            big.value() >= 0,
            d as int + digits_of(big.value(), b).len() == digits_of(v0, b).len(),
            digits_of(v0, b).len() <= 8 * n + 1,
            n <= (usize::MAX - 1) / 8,
        decreases digits_of(big.value(), b).len(),
    {
        let ghost pv = big.value();
        proof {
            lemma_digits_of_props(pv, b);
        }
        let _rem = big.div_mod(base32);
        proof {
            big.lemma_value_bound();
            assert(digits_of(pv, b) == digits_of(pv / b, b).push(pv % b));
            assert(digits_of(big.value(), b) =~= digits_of(pv, b).drop_last());
        }
        d += 1;
    }
    proof {
        lemma_digits_of_props(big.value(), b);
    }
    d
}

/// One fewer than the byte count of base^input_symbol_count: the
/// number of bytes that any input of that many symbols is sure to fit
/// in, disregarding leading zero symbols.
pub fn gen_decoded_size(base: usize, input_byte_size: usize) -> (r: usize)
    requires
        2 <= base <= u32::MAX,
        input_byte_size <= (usize::MAX - 1) / 4,
    ensures
        r as int == digits_of(pow(base as int, input_byte_size as nat), 256).len() - 1,
{
    let ghost b = base as int;
    let ghost m = input_byte_size as int;
    let base32 = base as u32;
    let one: Vec<u8> = vec![1u8];
    let mut big = BigUint::from_bytes_be(one.as_slice());
    proof {
        assert(byte_ints(one@) =~= seq![1int]);
        assert(byte_ints(one@).drop_last() =~= Seq::<int>::empty());
        assert(place_val(byte_ints(one@), 256) == place_val(Seq::<int>::empty(), 256) * 256 + 1);
        assert(big.value() == 0 * 256 + 1);
        reveal(pow);
        assert(pow(b, 0) == 1);
    }
    let mut i: usize = 0;
    while i < input_byte_size
        invariant
            0 <= i <= input_byte_size,
            2 <= base <= u32::MAX,
            b == base as int,
            base32 == base as u32,
            m == input_byte_size as int,
            big.value() == pow(b, i as nat),
            big.chunks@.len() <= i + 1,
            input_byte_size <= (usize::MAX - 1) / 4,
        decreases input_byte_size - i,
    {
        big.mul_add(base32, 0);
        proof {
            reveal(pow);
            assert(pow(b, (i + 1) as nat) == b * pow(b, i as nat));
            assert(pow(b, i as nat) * b == b * pow(b, i as nat)) by (nonlinear_arith) {}
        }
        i += 1;
    }
    let ghost v0 = big.value();
    proof {
        vstd::arithmetic::power::lemma_pow_positive(b, m as nat);
        lemma_digits_of_props(v0, 256);
        // base^m <= (2^32)^m = 256^(4m) < 256^(4m+1), so at most 4m+1 bytes
        lemma_pow_base_le(b, chunk_radix(), m as nat);
        num::lemma_chunk_radix_pow(m as nat);
        lemma_pow_strictly_increases(256, (4 * m) as nat, (4 * m + 1) as nat);
        lemma_digits_of_len(v0, 256, (4 * m + 1) as nat);
    }
    let mut d: usize = 0;
    while !big.is_zero()
        invariant
            big.value() >= 0,
            d as int + digits_of(big.value(), 256).len() == digits_of(v0, 256).len(),
            digits_of(v0, 256).len() <= 4 * m + 1,
            m <= (usize::MAX - 1) / 4,
        decreases digits_of(big.value(), 256).len(),
    {
        let ghost pv = big.value();
        proof {
            lemma_digits_of_props(pv, 256);
        }
        let _rem = big.div_mod(256);
        proof {
            big.lemma_value_bound();
            assert(digits_of(pv, 256) == digits_of(pv / 256, 256).push(pv % 256));
            assert(digits_of(big.value(), 256) =~= digits_of(pv, 256).drop_last());
        }
        d += 1;
    }
    proof {
        lemma_digits_of_props(big.value(), 256);
        assert(d >= 1);
    }
    d - 1
}

/// The chunk capacity that holds any value a buffer of
/// `gen_encoded_size(base, input_byte_size)` symbols can decode to:
/// one chunk per four symbols, rounded up.
pub fn gen_backing_size(base: usize, input_byte_size: usize) -> (r: usize)
    requires
        2 <= base <= u32::MAX,
        input_byte_size <= (usize::MAX - 1) / 8,
    ensures
        ({
            let e = digits_of(pow(256, input_byte_size as nat), base as int).len() as int;
            r as int == e / 4 + if e % 4 > 0 {
                1int
            } else {
                0int
            }
        }),
{
    let max_bytes = gen_encoded_size(base, input_byte_size);
    max_bytes / 4 + if max_bytes % 4 > 0 {
        1
    } else {
        0
    }
}

} // verus!
