//! The encoding direction: load the input bytes into a big integer and
//! peel off radix-`base` digits by repeated division, then render the
//! digits as symbols behind the zero-symbol run for the leading zero
//! bytes.
use vstd::prelude::*;
use vstd::arithmetic::power::pow;
use crate::bigint::BigUint;
use crate::bigintstatic::BigUintStatic;
use crate::model::{ascii_chars_of, byte_alpha_ok, encode_text, lemma_byte_alpha_chars, sym_of};
use crate::num::{
    byte_ints, bytes_val, digits_of, lead_run, lemma_bytes_below, lemma_digits_of_len,
    lemma_digits_of_props, lemma_lead_run_bytes_is, lemma_place_val_bound,
};

verus! {

/// Relies on std's String::push: it appends the given character.
#[verifier::external_body]
pub(crate) fn push_char(s: &mut String, c: char)
    ensures
        final(s)@ == old(s)@.push(c),
{
    s.push(c);
}

/// Count how many zero bytes the input starts with.
pub(crate) fn count_zero_bytes(input: &[u8]) -> (r: usize)
    ensures
        r as int == lead_run(input@, 0u8),
{
    let n = input.len();
    let mut i: usize = 0;
    while i < n
        invariant
            0 <= i <= n,
            n == input@.len(),
            forall|q: int| 0 <= q < i ==> #[trigger] input@[q] == 0u8,
        decreases n - i,
    {
        if input[i] != 0 {
            proof {
                lemma_lead_run_bytes_is(input@, 0u8, i as int);
            }
            return i;
        }
        i += 1;
    }
    proof {
        lemma_lead_run_bytes_is(input@, 0u8, n as int);
    }
    n
}

/// The radix-`base` digits of the input's value, most significant
/// first, with no leading zero digit.
pub(crate) fn encode_digits(base: u32, input: &[u8]) -> (r: Vec<u32>)
    requires
        base >= 2,
    ensures
        r@.map_values(|d: u32| d as int) == digits_of(bytes_val(input@), base as int),
{
    let ghost b = base as int;
    let mut big = BigUint::from_bytes_be(input);
    let ghost v0 = big.value();
    proof {
        lemma_bytes_below(input@);
        lemma_place_val_bound(byte_ints(input@), 256);
        lemma_digits_of_props(v0, b);
    }
    let mut ds: Vec<u32> = Vec::new();
    while !big.is_zero()
        invariant
            base >= 2,
            b == base as int,
            big.value() >= 0,
            digits_of(big.value(), b) + ds@.map_values(|d: u32| d as int) == digits_of(v0, b),
        decreases digits_of(big.value(), b).len(),
    {
        let ghost cv = big.value();
        proof {
            lemma_digits_of_props(cv, b);
        }
        let rem = big.div_mod(base);
        let ghost pre = ds@;
        ds.insert(0, rem);
        proof {
            big.lemma_value_bound();
            assert(digits_of(cv, b) == digits_of(cv / b, b).push(cv % b));
            assert(ds@.map_values(|d: u32| d as int) =~= seq![rem as int] + pre.map_values(
                |d: u32| d as int,
            ));
            assert(digits_of(big.value(), b) + ds@.map_values(|d: u32| d as int) =~= digits_of(
                cv,
                b,
            ) + pre.map_values(|d: u32| d as int));
        }
    }
    proof {
        lemma_digits_of_props(big.value(), b);
        assert(ds@.map_values(|d: u32| d as int) =~= digits_of(v0, b));
    }
    ds
}

/// Render the encoded text for a byte alphabet as a `String`.
pub(crate) fn encode_ascii(alphabet: &[u8], input: &[u8]) -> (r: String)
    requires
        byte_alpha_ok(alphabet@),
    ensures
        r@ == encode_text(ascii_chars_of(alphabet@), input@),
{
    let ghost sym = ascii_chars_of(alphabet@);
    let ghost b = alphabet@.len() as int;
    let ghost v0 = bytes_val(input@);
    proof {
        lemma_byte_alpha_chars(alphabet@);
        lemma_bytes_below(input@);
        lemma_place_val_bound(byte_ints(input@), 256);
        lemma_digits_of_props(v0, b);
    }
    let base = alphabet.len() as u32;
    let lz = count_zero_bytes(input);
    let ds = encode_digits(base, input);
    let ghost dsi = digits_of(v0, b);
    let mut out = String::new();
    let mut i: usize = 0;
    while i < lz
        invariant
            0 <= i <= lz,
            lz as int == lead_run(input@, 0u8),
            byte_alpha_ok(alphabet@),
            sym == ascii_chars_of(alphabet@),
            out@ == Seq::new(i as nat, |q: int| sym[0]),
        decreases lz - i,
    {
        push_char(&mut out, alphabet[0] as char);
        proof {
            assert(out@ =~= Seq::new((i + 1) as nat, |q: int| sym[0]));
        }
        i += 1;
    }
    let n = ds.len();
    let mut j: usize = 0;
    while j < n
        invariant
            0 <= j <= n,
            n == ds@.len(),
            lz as int == lead_run(input@, 0u8),
            byte_alpha_ok(alphabet@),
            sym == ascii_chars_of(alphabet@),
            ds@.map_values(|d: u32| d as int) == dsi,
            crate::num::digits_below(dsi, b),
            b == alphabet@.len() as int,
            out@ == Seq::new(lz as nat, |q: int| sym[0]) + sym_of(sym, dsi.take(j as int)),
        decreases n - j,
    {
        let d = ds[j];
        proof {
            assert(dsi[j as int] == d as int);
            assert(0 <= (d as int) < b);
        }
        push_char(&mut out, alphabet[d as usize] as char);
        proof {
            assert(sym_of(sym, dsi.take(j + 1)) =~= sym_of(sym, dsi.take(j as int)).push(
                sym[d as int],
            ));
            assert(out@ =~= Seq::new(lz as nat, |q: int| sym[0]) + sym_of(sym, dsi.take(j + 1)));
        }
        j += 1;
    }
    proof {
        assert(dsi.take(n as int) =~= dsi);
        assert(out@ =~= encode_text(sym, input@));
    }
    out
}

/// Render the encoded text for a character alphabet as a `String`.
pub(crate) fn encode_uni(alphabet: &Vec<char>, input: &[u8]) -> (r: String)
    requires
        crate::model::alpha_ok(alphabet@),
        alphabet@.len() <= u32::MAX,
    ensures
        r@ == encode_text(alphabet@, input@),
{
    let ghost sym = alphabet@;
    let ghost b = alphabet@.len() as int;
    let ghost v0 = bytes_val(input@);
    proof {
        lemma_bytes_below(input@);
        lemma_place_val_bound(byte_ints(input@), 256);
        lemma_digits_of_props(v0, b);
    }
    let base = alphabet.len() as u32;
    let lz = count_zero_bytes(input);
    let ds = encode_digits(base, input);
    let ghost dsi = digits_of(v0, b);
    let mut out = String::new();
    let mut i: usize = 0;
    while i < lz
        invariant
            0 <= i <= lz,
            alphabet@ == sym,
            sym.len() >= 2,
            out@ == Seq::new(i as nat, |q: int| sym[0]),
        decreases lz - i,
    {
        push_char(&mut out, alphabet[0]);
        proof {
            assert(out@ =~= Seq::new((i + 1) as nat, |q: int| sym[0]));
        }
        i += 1;
    }
    let n = ds.len();
    let mut j: usize = 0;
    while j < n
        invariant
            0 <= j <= n,
            n == ds@.len(),
            lz as int == lead_run(input@, 0u8),
            alphabet@ == sym,
            sym.len() >= 2,
            ds@.map_values(|d: u32| d as int) == dsi,
            crate::num::digits_below(dsi, b),
            b == sym.len() as int,
            out@ == Seq::new(lz as nat, |q: int| sym[0]) + sym_of(sym, dsi.take(j as int)),
        decreases n - j,
    {
        let d = ds[j];
        proof {
            assert(dsi[j as int] == d as int);
            assert(0 <= (d as int) < b);
        }
        push_char(&mut out, alphabet[d as usize]);
        proof {
            assert(sym_of(sym, dsi.take(j + 1)) =~= sym_of(sym, dsi.take(j as int)).push(
                sym[d as int],
            ));
            assert(out@ =~= Seq::new(lz as nat, |q: int| sym[0]) + sym_of(sym, dsi.take(j + 1)));
        }
        j += 1;
    }
    proof {
        assert(dsi.take(n as int) =~= dsi);
        assert(out@ =~= encode_text(sym, input@));
    }
    out
}


/// Write the encoded text for a byte alphabet into a caller buffer of
/// exactly the right size, with no allocation. The buffer must hold
/// one byte per symbol; a mis-sized buffer or an input needing more
/// than `BACKING` chunks fails and leaves the buffer untouched.
pub(crate) fn encode_into<const BACKING: usize>(
    alphabet: &[u8],
    output: &mut [u8],
    input: &[u8],
) -> (r: Result<(), ()>)
    requires
        byte_alpha_ok(alphabet@),
        BACKING <= usize::MAX / 32,
    ensures
        r is Ok <==> input@.len() <= 4 * (BACKING as int) && old(output)@.len() == encode_text(
            ascii_chars_of(alphabet@),
            input@,
        ).len(),
        r is Ok ==> ascii_chars_of(final(output)@) == encode_text(ascii_chars_of(alphabet@), input@),
        r is Err ==> final(output)@ == old(output)@,
{
    let ghost sym = ascii_chars_of(alphabet@);
    let ghost b = alphabet@.len() as int;
    let ghost v0 = bytes_val(input@);
    proof {
        lemma_byte_alpha_chars(alphabet@);
        lemma_bytes_below(input@);
        lemma_place_val_bound(byte_ints(input@), 256);
        lemma_digits_of_props(v0, b);
    }
    let base = alphabet.len() as u32;
    let big = match BigUintStatic::<BACKING>::from_bytes_be(input) {
        Ok(big) => big,
        Err(_) => {
            return Err(());
        },
    };
    let ghost dsi = digits_of(v0, b);
    proof {
        big.lemma_value_bound();
        crate::num::lemma_radix_pow2(BACKING as nat);
        crate::num::lemma_pow_base_le(2, b, (32 * BACKING) as nat);
        lemma_digits_of_len(v0, b, (32 * BACKING) as nat);
        assert(dsi.len() <= 32 * (BACKING as int));
    }
    // count the digits
    let mut probe = big;
    let mut d: usize = 0;
    while !probe.is_zero()
        invariant
            base >= 2,
            b == base as int,
            probe.value() >= 0,
            d as int + digits_of(probe.value(), b).len() == dsi.len(),
            dsi.len() <= 32 * (BACKING as int),
            BACKING <= usize::MAX / 32,
        decreases digits_of(probe.value(), b).len(),
    {
        let ghost pv = probe.value();
        proof {
            lemma_digits_of_props(pv, b);
        }
        let _rem = probe.div_mod(base);
        proof {
            probe.lemma_value_bound();
            assert(digits_of(pv, b) == digits_of(pv / b, b).push(pv % b));
            assert(digits_of(probe.value(), b) =~= digits_of(pv, b).drop_last());
        }
        d += 1;
    }
    proof {
        lemma_digits_of_props(probe.value(), b);
        assert(d as int == dsi.len());
    }
    let lz = count_zero_bytes(input);
    if output.len() < lz || output.len() - lz != d {
        return Err(());
    }
    // the zero-symbol run
    let mut i: usize = 0;
    while i < lz
        invariant
            0 <= i <= lz,
            lz + d == output@.len(),
            output@.len() == old(output)@.len(),
            byte_alpha_ok(alphabet@),
            forall|q: int| 0 <= q < i ==> #[trigger] output@[q] == alphabet@[0],
            forall|q: int| i <= q < output@.len() ==> #[trigger] output@[q] == old(output)@[q],
        decreases lz - i,
    {
        output[i] = alphabet[0];
        i += 1;
    }
    // the digits, least significant last
    let mut cur = big;
    let mut k: usize = d;
    while k > 0
        invariant
            0 <= k <= d,
            lz + d == output@.len(),
            output@.len() == old(output)@.len(),
            base >= 2,
            b == base as int,
            byte_alpha_ok(alphabet@),
            b == alphabet@.len() as int,
            d as int == dsi.len(),
            crate::num::digits_below(dsi, b),
            cur.value() >= 0,
            output@.len() <= usize::MAX,
            digits_of(cur.value(), b) == dsi.take(k as int),
            forall|q: int| 0 <= q < lz ==> #[trigger] output@[q] == alphabet@[0],
            forall|t: int| k <= t < d ==> #[trigger] output@[lz + t] == alphabet@[dsi[t]],
        decreases k,
    {
        k -= 1;
        let ghost cv = cur.value();
        proof {
            assert(digits_of(cv, b).len() == k + 1);
            lemma_digits_of_props(cv, b);
            if cv == 0 {
                assert(false);
            }
        }
        let rem = cur.div_mod(base);
        proof {
            cur.lemma_value_bound();
            assert(digits_of(cv, b) == digits_of(cv / b, b).push(cv % b));
            assert(digits_of(cur.value(), b) =~= dsi.take(k as int));
            assert(rem as int == dsi[k as int]);
        }
        output[lz + k] = alphabet[rem as usize];
    }
    proof {
        assert forall|q: int| 0 <= q < output@.len() implies #[trigger] ascii_chars_of(
            output@,
        )[q] == encode_text(sym, input@)[q] by {
            if q < lz {
                assert(output@[q] == alphabet@[0]);
            } else {
                let t = q - lz;
                assert(output@[lz + t] == alphabet@[dsi[t]]);
            }
        }
        assert(ascii_chars_of(output@) =~= encode_text(sym, input@));
    }
    Ok(())
}

} // verus!
