//! The decoding direction: look each symbol up as a digit, fold the
//! digits into a big integer by Horner's method, and put the zero-byte
//! run for the leading zero symbols back in front of the exported
//! bytes. Two lookup strategies share the arithmetic: a 256-entry
//! table for byte alphabets and a linear scan for character alphabets.
use vstd::prelude::*;
use vstd::arithmetic::power::pow;
use crate::bigint::BigUint;
use crate::bigintstatic::BigUintStatic;
use crate::model::{
    alpha_ok, ascii_chars_of, byte_alpha_ok, digit_of, lemma_byte_alpha_chars,
    lemma_digit_of_contained, lemma_digit_of_index, text_digits, text_ok,
};
use crate::num::{
    byte_ints, chunk_radix, digits_below, digits_of, lead_run, lemma_digits_of_props,
    lemma_lead_run_is, lemma_min_bytes, lemma_place_val_bound, lemma_place_val_take_le, min_bytes,
    place_val,
};
use crate::DecodeError;

verus! {

/// The sentinel in the reverse-lookup table for a byte with no digit.
pub(crate) const INVALID_INDEX: u8 = 0xFF;

/// Byte-alphabet lookup: digits are found by indexing a 256-entry
/// table built once per call.
pub(crate) struct U8Decoder<'b> {
    pub(crate) alphabet: &'b [u8],
    pub(crate) lookup: Vec<u8>,
}

impl<'b> U8Decoder<'b> {
    /// The table sends each alphabet byte to its digit and every other
    /// byte to the sentinel.
    pub(crate) open spec fn wf(self) -> bool {
        &&& byte_alpha_ok(self.alphabet@)
        &&& self.lookup@.len() == 256
        &&& forall|d: int|
            0 <= d < self.alphabet@.len() ==> self.lookup@[#[trigger] self.alphabet@[d] as int]
                == d as u8
        &&& forall|c: int|
            0 <= c < 256 && !self.alphabet@.contains(c as u8) ==> #[trigger] self.lookup@[c]
                == INVALID_INDEX
    }

    pub(crate) fn new(alphabet: &'b [u8]) -> (r: Self)
        requires
            byte_alpha_ok(alphabet@),
        ensures
            r.wf(),
            r.alphabet@ == alphabet@,
    {
        let mut lookup: Vec<u8> = vec![INVALID_INDEX; 256];
        let n = alphabet.len();
        let mut i: usize = 0;
        while i < n
            invariant
                0 <= i <= n,
                n == alphabet@.len(),
                byte_alpha_ok(alphabet@),
                lookup@.len() == 256,
                forall|d: int|
                    0 <= d < i ==> lookup@[#[trigger] alphabet@[d] as int] == d as u8,
                forall|c: int|
                    0 <= c < 256 && !alphabet@.take(i as int).contains(c as u8)
                        ==> #[trigger] lookup@[c] == INVALID_INDEX,
            decreases n - i,
        {
            let sym = alphabet[i];
            lookup[sym as usize] = i as u8;
            proof {
                assert forall|d: int|
                    0 <= d < i + 1 implies lookup@[#[trigger] alphabet@[d] as int]
                    == d as u8 by {
                    if d < i {
                        assert(alphabet@[d] != alphabet@[i as int]);
                    }
                }
                assert forall|c: int|
                    0 <= c < 256 && !alphabet@.take(i + 1).contains(c as u8)
                        implies #[trigger] lookup@[c] == INVALID_INDEX by {
                    assert(!alphabet@.take(i as int).contains(c as u8)) by {
                        if alphabet@.take(i as int).contains(c as u8) {
                            let w = choose|w: int|
                                0 <= w < i && alphabet@.take(i as int)[w] == c as u8;
                            assert(alphabet@.take(i + 1)[w] == c as u8);
                        }
                    }
                    assert(c != alphabet@[i as int] as int) by {
                        if c == alphabet@[i as int] as int {
                            assert(alphabet@.take(i + 1)[i as int] == c as u8);
                        }
                    }
                }
            }
            i += 1;
        }
        proof {
            assert(alphabet@.take(n as int) =~= alphabet@);
        }
        U8Decoder { alphabet, lookup }
    }

    /// The digit a character stands for, or `None` for one outside the
    /// alphabet.
    pub(crate) fn carry(&self, c: char) -> (r: Option<u32>)
        requires
            self.wf(),
        ensures
            r is Some <==> ascii_chars_of(self.alphabet@).contains(c),
            r is Some ==> r.unwrap() as int == digit_of(ascii_chars_of(self.alphabet@), c),
    {
        let ghost sym = ascii_chars_of(self.alphabet@);
        proof {
            lemma_byte_alpha_chars(self.alphabet@);
        }
        if (c as u32) < 128 {
            let byte = c as u8;
            proof {
                assert(byte as u32 == c as u32);
            }
            let index = self.lookup[byte as usize];
            if index == INVALID_INDEX {
                proof {
                    assert(!self.alphabet@.contains(byte)) by {
                        if self.alphabet@.contains(byte) {
                            let d = choose|d: int|
                                0 <= d < self.alphabet@.len() && self.alphabet@[d] == byte;
                            assert(self.lookup@[byte as int] == d as u8);
                            assert(d as u8 != INVALID_INDEX);
                        }
                    }
                    assert(!sym.contains(c)) by {
                        if sym.contains(c) {
                            let d = choose|d: int| 0 <= d < sym.len() && sym[d] == c;
                            assert(self.alphabet@[d] as char == c);
                            assert((self.alphabet@[d] as char) as u32 == self.alphabet@[d] as u32);
                            assert(self.alphabet@[d] == byte);
                        }
                    }
                }
                None
            } else {
                proof {
                    assert(self.alphabet@.contains(byte)) by {
                        if !self.alphabet@.contains(byte) {
                            assert(self.lookup@[byte as int] == INVALID_INDEX);
                        }
                    }
                    let d = choose|d: int|
                        0 <= d < self.alphabet@.len() && self.alphabet@[d] == byte;
                    assert(self.lookup@[byte as int] == d as u8);
                    assert(sym[d] == byte as char);
                    assert((byte as char) as u32 == byte as u32);
                    assert(sym[d] == c);
                    lemma_digit_of_index(sym, d);
                }
                Some(index as u32)
            }
        } else {
            proof {
                assert(!sym.contains(c)) by {
                    if sym.contains(c) {
                        let d = choose|d: int| 0 <= d < sym.len() && sym[d] == c;
                        assert(self.alphabet@[d] < 128);
                        assert((self.alphabet@[d] as char) as u32 == self.alphabet@[d] as u32);
                    }
                }
            }
            None
        }
    }
}

/// Character-alphabet lookup: digits are found by a linear scan.
pub(crate) struct CharDecoder<'b>(pub(crate) &'b [char]);

impl<'b> CharDecoder<'b> {
    pub(crate) open spec fn wf(self) -> bool {
        &&& alpha_ok(self.0@)
        &&& self.0@.len() <= u32::MAX
    }

    /// The digit a character stands for, or `None` for one outside the
    /// alphabet.
    pub(crate) fn carry(&self, c: char) -> (r: Option<u32>)
        requires
            self.wf(),
        ensures
            r is Some <==> self.0@.contains(c),
            r is Some ==> r.unwrap() as int == digit_of(self.0@, c),
    {
        let n = self.0.len();
        let mut i: usize = 0;
        while i < n
            invariant
                0 <= i <= n,
                n == self.0@.len(),
                self.wf(),
                forall|q: int| 0 <= q < i ==> #[trigger] self.0@[q] != c,
            decreases n - i,
        {
            if self.0[i] == c {
                proof {
                    lemma_digit_of_index(self.0@, i as int);
                }
                return Some(i as u32);
            }
            i += 1;
        }
        proof {
            assert(!self.0@.contains(c)) by {
                if self.0@.contains(c) {
                    let d = choose|d: int| 0 <= d < self.0@.len() && self.0@[d] == c;
                    assert(self.0@[d] != c);
                }
            }
        }
        None
    }
}

/// Which reverse-lookup strategy a scan uses.
pub(crate) enum Lookup<'a, 'b> {
    Table(&'a U8Decoder<'b>),
    Scan(&'a CharDecoder<'b>),
}

impl<'a, 'b> Lookup<'a, 'b> {
    /// The symbols the strategy looks digits up in.
    pub(crate) open spec fn symbols(self) -> Seq<char> {
        match self {
            Lookup::Table(dec) => ascii_chars_of(dec.alphabet@),
            Lookup::Scan(dec) => dec.0@,
        }
    }

    pub(crate) open spec fn wf(self) -> bool {
        match self {
            Lookup::Table(dec) => dec.wf(),
            Lookup::Scan(dec) => dec.wf(),
        }
    }

    fn carry(&self, c: char) -> (r: Option<u32>)
        requires
            self.wf(),
        ensures
            r is Some <==> self.symbols().contains(c),
            r is Some ==> r.unwrap() as int == digit_of(self.symbols(), c),
    {
        match self {
            Lookup::Table(dec) => dec.carry(c),
            Lookup::Scan(dec) => dec.carry(c),
        }
    }
}

/// Walk the text once: look every character up as a digit and count
/// the opening run of the zero symbol. Fails at the first character
/// outside the alphabet.
pub(crate) fn scan_text(lookup: &Lookup<'_, '_>, input: &str) -> (r: Result<
    (Vec<u32>, usize),
    DecodeError,
>)
    requires
        lookup.wf(),
        alpha_ok(lookup.symbols()),
    ensures
        r is Ok <==> text_ok(lookup.symbols(), input@),
        r is Ok ==> r.unwrap().0@.map_values(|d: u32| d as int) == text_digits(
            lookup.symbols(),
            input@,
        ) && r.unwrap().1 as int == lead_run(input@, lookup.symbols()[0]),
{
    let ghost sym = lookup.symbols();
    let n = input.unicode_len();
    let mut ds: Vec<u32> = Vec::new();
    let mut leaders: usize = 0;
    let mut still_leading = true;
    let mut i: usize = 0;
    proof {
        lemma_digit_of_index(sym, 0);
    }
    while i < n
        invariant
            0 <= i <= n,
            n == input@.len(),
            lookup.wf(),
            sym == lookup.symbols(),
            alpha_ok(sym),
            ds@.len() == i,
            ds@.map_values(|d: u32| d as int) == text_digits(sym, input@.take(i as int)),
            forall|q: int| 0 <= q < i ==> sym.contains(#[trigger] input@[q]),
            0 <= leaders <= i,
            still_leading <==> leaders == i,
            forall|q: int| 0 <= q < leaders ==> #[trigger] input@[q] == sym[0],
            !still_leading ==> input@[leaders as int] != sym[0],
        decreases n - i,
    {
        let c = input.get_char(i);
        let d: u32 = match lookup.carry(c) {
            Some(d) => d,
            None => {
                return Err(DecodeError);
            },
        };
        let ghost pre = ds@;
        ds.push(d);
        proof {
            assert(text_digits(sym, input@.take(i + 1)) =~= text_digits(
                sym,
                input@.take(i as int),
            ).push(digit_of(sym, c)));
            assert(ds@.map_values(|q: u32| q as int) =~= pre.map_values(|q: u32| q as int).push(
                d as int,
            ));
        }
        if still_leading {
            if d == 0 {
                proof {
                    lemma_digit_of_contained(sym, c);
                    assert(sym[0] == c);
                }
                leaders += 1;
            } else {
                proof {
                    assert(input@[i as int] != sym[0]) by {
                        if input@[i as int] == sym[0] {
                            lemma_digit_of_index(sym, 0);
                        }
                    }
                }
                still_leading = false;
            }
        }
        i += 1;
    }
    proof {
        assert(input@.take(n as int) =~= input@);
        lemma_lead_run_is(input@, sym[0], leaders as int);
    }
    Ok((ds, leaders))
}

/// Assemble the decoded bytes from the digits and the zero-symbol run:
/// the allocating path.
pub(crate) fn bytes_from_digits(base: u32, digits: &Vec<u32>, leaders: usize) -> (r: Vec<u8>)
    requires
        base >= 2,
        forall|i: int| 0 <= i < digits@.len() ==> (#[trigger] digits@[i] as int) < base,
    ensures
        r@ == Seq::new(leaders as nat, |i: int| 0u8) + min_bytes(
            place_val(digits@.map_values(|d: u32| d as int), base as int),
        ),
{
    let ghost b = base as int;
    let ghost tds = digits@.map_values(|d: u32| d as int);
    let n = digits.len();
    let mut big = BigUint::with_capacity(n / 4 + 1);
    let mut i: usize = 0;
    while i < n
        invariant
            0 <= i <= n,
            n == digits@.len(),
            base >= 2,
            b == base as int,
            tds == digits@.map_values(|d: u32| d as int),
            forall|q: int| 0 <= q < digits@.len() ==> (#[trigger] digits@[q] as int) < base,
            big.value() == place_val(tds.take(i as int), b),
            big.chunks@.len() <= i,
        decreases n - i,
    {
        let d = digits[i];
        big.mul_add(base, d);
        proof {
            assert(tds.take(i + 1).drop_last() =~= tds.take(i as int));
            assert(tds.take(i + 1).last() == d as int);
        }
        i += 1;
    }
    proof {
        assert(tds.take(n as int) =~= tds);
    }
    let tail = big.into_bytes_be();
    let mut out: Vec<u8> = vec![0u8; leaders];
    let mut rest = tail;
    out.append(&mut rest);
    proof {
        assert(out@ =~= Seq::new(leaders as nat, |i: int| 0u8) + min_bytes(place_val(tds, b)));
    }
    out
}

/// Assemble the decoded bytes into a caller buffer of exactly the
/// right size, with no allocation: the fixed-capacity path. Fails,
/// leaving the buffer untouched, when the value needs more than
/// `BACKING` chunks or the buffer is not exactly the decoded length.
pub(crate) fn bytes_into_buffer<const BACKING: usize>(
    base: u32,
    digits: &Vec<u32>,
    leaders: usize,
    output: &mut [u8],
) -> (r: Result<(), DecodeError>)
    requires
        base >= 2,
        BACKING <= usize::MAX / 32,
        forall|i: int| 0 <= i < digits@.len() ==> (#[trigger] digits@[i] as int) < base,
    ensures
        r is Ok <==> place_val(digits@.map_values(|d: u32| d as int), base as int) < pow(
            chunk_radix(),
            BACKING as nat,
        ) && old(output)@.len() == leaders + min_bytes(
            place_val(digits@.map_values(|d: u32| d as int), base as int),
        ).len(),
        r is Ok ==> final(output)@ == Seq::new(leaders as nat, |i: int| 0u8) + min_bytes(
            place_val(digits@.map_values(|d: u32| d as int), base as int),
        ),
        r is Err ==> final(output)@ == old(output)@,
{
    let ghost b = base as int;
    let ghost tds = digits@.map_values(|d: u32| d as int);
    let ghost radix = chunk_radix();
    proof {
        assert(digits_below(tds, b));
    }
    let n = digits.len();
    let mut big = BigUintStatic::<BACKING>::default();
    let mut i: usize = 0;
    while i < n
        invariant
            0 <= i <= n,
            n == digits@.len(),
            base >= 2,
            b == base as int,
            radix == chunk_radix(),
            tds == digits@.map_values(|d: u32| d as int),
            digits_below(tds, b),
            big.value() == place_val(tds.take(i as int), b),
        decreases n - i,
    {
        let d = digits[i];
        proof {
            assert(tds.take(i + 1).drop_last() =~= tds.take(i as int));
            assert(tds.take(i + 1).last() == d as int);
            assert(digits_below(tds.take(i + 1), b));
        }
        match big.mul_add(base, d) {
            Ok(()) => {},
            Err(_) => {
                proof {
                    lemma_place_val_take_le(tds, b, i + 1);
                }
                return Err(DecodeError);
            },
        }
        i += 1;
    }
    proof {
        assert(tds.take(n as int) =~= tds);
        big.lemma_value_bound();
    }
    let ghost v = place_val(tds, b);
    proof {
        lemma_digits_of_props(v, b);
        lemma_min_bytes(v);
        crate::num::lemma_radix_pow2(BACKING as nat);
        crate::num::lemma_chunk_radix_pow(BACKING as nat);
        crate::num::lemma_digits_of_len(v, 256, (4 * BACKING) as nat);
    }
    // count the decoded byte length
    let mut probe = big;
    let mut d: usize = 0;
    while !probe.is_zero()
        invariant
            probe.value() >= 0,
            d as int + digits_of(probe.value(), 256).len() == digits_of(v, 256).len(),
            digits_of(v, 256).len() <= 4 * (BACKING as int),
            BACKING <= usize::MAX / 32,
        decreases digits_of(probe.value(), 256).len(),
    {
        let ghost pv = probe.value();
        proof {
            lemma_digits_of_props(pv, 256);
        }
        let _rem = probe.div_mod(256);
        proof {
            probe.lemma_value_bound();
            assert(digits_of(pv, 256) == digits_of(pv / 256, 256).push(pv % 256));
            assert(digits_of(probe.value(), 256) =~= digits_of(pv, 256).drop_last());
        }
        d += 1;
    }
    proof {
        lemma_digits_of_props(probe.value(), 256);
        assert(d as int == min_bytes(v).len());
    }
    if output.len() < leaders || output.len() - leaders != d {
        return Err(DecodeError);
    }
    // the zero-byte run
    let mut q: usize = 0;
    while q < leaders
        invariant
            0 <= q <= leaders,
            leaders + d == output@.len(),
            output@.len() == old(output)@.len(),
            forall|t: int| 0 <= t < q ==> #[trigger] output@[t] == 0u8,
        decreases leaders - q,
    {
        output[q] = 0;
        q += 1;
    }
    // the value bytes, least significant last
    let mut cur = big;
    let mut k: usize = d;
    while k > 0
        invariant
            0 <= k <= d,
            leaders + d == output@.len(),
            output@.len() == old(output)@.len(),
            output@.len() <= usize::MAX,
            d as int == min_bytes(v).len(),
            cur.value() >= 0,
            digits_of(cur.value(), 256) == digits_of(v, 256).take(k as int),
            forall|t: int| 0 <= t < leaders ==> #[trigger] output@[t] == 0u8,
            forall|t: int| k <= t < d ==> #[trigger] output@[leaders + t] == min_bytes(v)[t],
        decreases k,
    {
        k -= 1;
        let ghost cv = cur.value();
        proof {
            assert(digits_of(cv, 256).len() == k + 1);
            lemma_digits_of_props(cv, 256);
            if cv == 0 {
                assert(false);
            }
        }
        let rem = cur.div_mod(256);
        proof {
            cur.lemma_value_bound();
            assert(digits_of(cv, 256) == digits_of(cv / 256, 256).push(cv % 256));
            assert(digits_of(cur.value(), 256) =~= digits_of(v, 256).take(k as int));
            assert(rem as int == digits_of(v, 256)[k as int]);
            assert(min_bytes(v)[k as int] == (digits_of(v, 256)[k as int]) as u8);
        }
        output[leaders + k] = rem as u8;
    }
    proof {
        assert forall|t: int| 0 <= t < output@.len() implies #[trigger] output@[t] == (Seq::new(
            leaders as nat,
            |i: int| 0u8,
        ) + min_bytes(v))[t] by {
            if t >= leaders {
                let w = t - leaders;
                assert(output@[leaders + w] == min_bytes(v)[w]);
            }
        }
        assert(output@ =~= Seq::new(leaders as nat, |i: int| 0u8) + min_bytes(v));
    }
    Ok(())
}

} // verus!
