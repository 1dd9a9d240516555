//! A fixed-capacity big unsigned integer over an array of `u32` chunks,
//! most significant chunk first. It supports exactly what radix
//! conversion needs: division by a small integer with remainder,
//! multiplication by a small integer with an addend folded in, a zero
//! test, and big-endian byte marshaling in both directions.
use vstd::prelude::*;
use vstd::arithmetic::div_mod::{lemma_fundamental_div_mod, lemma_mod_division_less_than_divisor};
use vstd::arithmetic::power::{lemma_pow_adds, lemma_pow1, pow};
use crate::num::{
    bytes_val, byte_ints, chunk_ints, chunk_radix, chunks_val, digits_of, lemma_bytes_below,
    lemma_chunk_radix_pow, lemma_chunks_below, lemma_digits_of_len, lemma_digits_of_props,
    lemma_div_step, lemma_min_bytes, lemma_place_val_bound, lemma_place_val_drop_first,
    lemma_place_val_nonzero, lemma_place_val_zeros, min_bytes, place_val,
};

verus! {

/// The capacity of the backing array, or a byte count it cannot hold.
#[derive(Clone, Copy, Debug, PartialEq, Eq, Structural)]
pub enum BigUintErr {
    BackingArrayTooSmall,
    OutputSliceTooSmall,
}

/// A non-negative integer held in `N` chunks of 32 bits, most
/// significant chunk first. The represented value is the base-2^32
/// reading of the whole array; there is no separate length, so the
/// value is always below `pow(2^32, N)`.
#[derive(Clone, Copy, Debug)]
pub struct BigUintStatic<const N: usize> {
    pub chunks: [u32; N],
}

impl<const N: usize> Default for BigUintStatic<N> {
    fn default() -> (r: Self)
        ensures
            r.value() == 0,
    {
        let chunks = vstd::array::array_fill_for_copy_types::<u32, N>(0u32);
        proof {
            lemma_place_val_zeros(chunk_ints(chunks@), chunk_radix());
        }
        BigUintStatic { chunks }
    }
}

impl<const N: usize> BigUintStatic<N> {
    /// The integer this array of chunks stands for.
    pub open spec fn value(self) -> int {
        chunks_val(self.chunks@)
    }

    /// The value always fits in `N` chunks.
    pub proof fn lemma_value_bound(self)
        ensures
            0 <= self.value() < pow(chunk_radix(), N as nat),
    {
        lemma_chunks_below(self.chunks@);
        lemma_place_val_bound(chunk_ints(self.chunks@), chunk_radix());
    }

    /// Divide self by `divider` in place and return the remainder.
    pub fn div_mod(&mut self, divider: u32) -> (rem: u32)
        requires
            divider >= 1,
        ensures
            final(self).value() == old(self).value() / divider as int,
            rem as int == old(self).value() % divider as int,
            rem < divider,
    {
        let ghost all = old(self).chunks@;
        let ghost d = divider as int;
        let ghost radix = chunk_radix();
        proof {
            lemma_chunks_below(all);
        }
        let mut carry: u64 = 0;
        let mut i: usize = 0;
        while i < N
            invariant
                0 <= i <= N,
                divider >= 1,
                (carry as int) < d,
                d == divider as int,
                radix == chunk_radix(),
                self.chunks@.len() == N,
                all.len() == N,
                self.chunks@.skip(i as int) == all.skip(i as int),
                chunks_val(self.chunks@.take(i as int)) == chunks_val(all.take(i as int)) / d,
                carry as int == chunks_val(all.take(i as int)) % d,
            decreases N - i,
        {
            let x: u32 = self.chunks[i];
            let c: u64 = (carry << 32) | (x as u64);
            proof {
                assert(x == all[i as int]) by {
                    assert(self.chunks@.skip(i as int)[0] == all.skip(i as int)[0]);
                }
                assert(c == carry * 0x1_0000_0000u64 + (x as u64)) by (bit_vector)
                    requires
                        c == (carry << 32u64) | (x as u64),
                        carry < 0x1_0000_0000u64,
                ;
                assert(c as int == (carry as int) * radix + x as int);
                let hq = chunks_val(all.take(i as int)) / d;
                let hr = chunks_val(all.take(i as int)) % d;
                lemma_chunks_below(all.take(i as int));
                lemma_place_val_bound(chunk_ints(all.take(i as int)), radix);
                lemma_fundamental_div_mod(chunks_val(all.take(i as int)), d);
                lemma_mod_division_less_than_divisor(chunks_val(all.take(i as int)), d);
                assert(hq >= 0) by (nonlinear_arith)
                    requires
                        chunks_val(all.take(i as int)) >= 0,
                        d >= 1,
                        chunks_val(all.take(i as int)) == d * hq + hr,
                        0 <= hr < d,
                {}
                lemma_div_step(hq, hr, x as int, radix, d);
                assert(chunk_ints(all.take(i + 1)).drop_last() =~= chunk_ints(all.take(i as int)));
                assert(chunk_ints(all.take(i + 1)).last() == x as int);
                assert(chunks_val(all.take(i + 1)) == chunks_val(all.take(i as int)) * radix + x);
                assert(chunks_val(all.take(i + 1)) == (hq * d + hr) * radix + x)
                    by (nonlinear_arith)
                    requires
                        chunks_val(all.take(i + 1)) == chunks_val(all.take(i as int)) * radix
                            + x as int,
                        chunks_val(all.take(i as int)) == d * hq + hr,
                {}
            }
            let q: u64 = c / (divider as u64);
            let r: u64 = c % (divider as u64);
            proof {
                assert(q as int == c as int / d && r as int == c as int % d) by (nonlinear_arith)
                    requires
                        q == c / (divider as u64),
                        r == c % (divider as u64),
                        d == divider as int,
                        divider >= 1,
                {}
                assert(q < 0x1_0000_0000u64);
            }
            let ghost before = self.chunks@;
            self.chunks[i] = q as u32;
            carry = r;
            i += 1;
            proof {
                assert forall|m: int| 0 <= m < self.chunks@.skip(i as int).len() implies
                    self.chunks@.skip(i as int)[m] == all.skip(i as int)[m] by {
                    assert(self.chunks@[i + m] == before[i + m]);
                    assert(before.skip(i - 1)[m + 1] == all.skip(i - 1)[m + 1]);
                }
                assert(self.chunks@.skip(i as int) =~= all.skip(i as int));
                assert(chunk_ints(self.chunks@.take(i as int)).drop_last() =~= chunk_ints(
                    before.take(i - 1),
                ));
                assert(chunk_ints(self.chunks@.take(i as int)).last() == q as int);
                assert(chunks_val(self.chunks@.take(i as int)) == chunks_val(before.take(i - 1))
                    * radix + q as int);
            }
        }
        proof {
            assert(all.take(N as int) =~= all);
            assert(self.chunks@.take(N as int) =~= self.chunks@);
        }
        carry as u32
    }


    /// Multiply self by `multiplicator` and fold `addition` into the
    /// least significant chunk, in one pass. This reverses `div_mod`:
    /// multiplying by the old divider and adding back the remainder
    /// restores the original value. Fails when the result needs more
    /// than `N` chunks; self then holds the low `N` chunks of it.
    pub fn mul_add(&mut self, multiplicator: u32, addition: u32) -> (res: Result<(), BigUintErr>)
        ensures
            res is Ok <==> old(self).value() * (multiplicator as int) + (addition as int)
                < pow(chunk_radix(), N as nat),
            res is Ok ==> final(self).value() == old(self).value() * multiplicator as int
                + addition as int,
            res is Err ==> res == Err::<(), BigUintErr>(BigUintErr::BackingArrayTooSmall),
    {
        let ghost all = old(self).chunks@;
        let ghost m = multiplicator as int;
        let ghost a = addition as int;
        let ghost radix = chunk_radix();
        proof {
            lemma_chunks_below(all);
            reveal(pow);
            assert(pow(radix, 0) == 1);
        }
        let mut carry: u64 = addition as u64;
        let mut j: usize = N;
        while j > 0
            invariant
                0 <= j <= N,
                carry < 0x1_0000_0000u64,
                m == multiplicator as int,
                a == addition as int,
                radix == chunk_radix(),
                self.chunks@.len() == N,
                all.len() == N,
                self.chunks@.take(j as int) == all.take(j as int),
                chunks_val(all.skip(j as int)) * m + a == chunks_val(self.chunks@.skip(j as int))
                    + carry * pow(radix, (N - j) as nat),
            decreases j,
        {
            j -= 1;
            let x: u32 = self.chunks[j];
            proof {
                assert(x == all[j as int]) by {
                    assert(self.chunks@.take(j + 1)[j as int] == all.take(j + 1)[j as int]);
                }
                assert((x as int) * m + carry < 0x1_0000_0000_0000_0000) by (nonlinear_arith)
                    requires
                        0 <= (x as int) < 0x1_0000_0000,
                        0 <= m < 0x1_0000_0000,
                        0 <= carry < 0x1_0000_0000u64,
                {}
            }
            let c: u64 = (x as u64) * (multiplicator as u64) + carry;
            let ghost before = self.chunks@;
            let ghost carry0 = carry as int;
            let lo: u32 = c as u32;
            self.chunks[j] = lo;
            carry = c >> 32;
            proof {
                assert(c == (c >> 32u64) * 0x1_0000_0000u64 + ((c as u32) as u64)
                    && (c >> 32u64) < 0x1_0000_0000u64) by (bit_vector);
                assert(c as int == (carry as int) * radix + lo as int);
                // the old suffix, one chunk longer
                let os1 = chunk_ints(all.skip(j as int));
                let os0 = chunk_ints(all.skip(j + 1));
                let e = (N - j - 1) as nat;
                crate::num::lemma_place_val_drop_first(os1, radix);
                assert(os1.drop_first() =~= os0);
                assert(os1[0] == x as int);
                assert(place_val(os1, radix) == (x as int) * pow(radix, e) + place_val(os0, radix));
                // the new suffix, one chunk longer
                let ns1 = chunk_ints(self.chunks@.skip(j as int));
                let ns0 = chunk_ints(before.skip(j + 1));
                crate::num::lemma_place_val_drop_first(ns1, radix);
                assert(ns1.drop_first() =~= ns0);
                assert(ns1[0] == lo as int);
                assert(place_val(ns1, radix) == (lo as int) * pow(radix, e) + place_val(ns0, radix));
                lemma_pow_adds(radix, e, 1);
                lemma_pow1(radix);
                assert(pow(radix, e + 1) == pow(radix, e) * radix);
                assert(place_val(os1, radix) * m + a == place_val(ns1, radix) + (carry as int)
                    * pow(radix, e + 1)) by (nonlinear_arith)
                    requires
                        place_val(os0, radix) * m + a == place_val(ns0, radix) + carry0 * pow(
                            radix,
                            e,
                        ),
                        place_val(os1, radix) == (x as int) * pow(radix, e) + place_val(os0, radix),
                        place_val(ns1, radix) == (lo as int) * pow(radix, e) + place_val(
                            ns0,
                            radix,
                        ),
                        (x as int) * m + carry0 == (carry as int) * radix + lo as int,
                        pow(radix, e + 1) == pow(radix, e) * radix,
                {}
                assert(e + 1 == (N - j) as nat);
                assert(self.chunks@.take(j as int) =~= all.take(j as int));
            }
        }
        proof {
            assert(all.skip(0) =~= all);
            assert(self.chunks@.skip(0) =~= self.chunks@);
            lemma_chunks_below(self.chunks@);
            lemma_place_val_bound(chunk_ints(self.chunks@), radix);
            if carry == 0 {
                assert(old(self).value() * m + a == self.value());
            } else {
                assert((carry as int) * pow(radix, N as nat) >= pow(radix, N as nat))
                    by (nonlinear_arith)
                    requires
                        carry >= 1,
                        pow(radix, N as nat) > 0,
                {}
                assert(old(self).value() * m + a >= pow(radix, N as nat)) by {
                    crate::num::lemma_chunk_radix_pow(N as nat);
                    vstd::arithmetic::power::lemma_pow_positive(radix, N as nat);
                }
            }
        }
        if carry > 0 {
            Err(BigUintErr::BackingArrayTooSmall)
        } else {
            Ok(())
        }
    }


    /// How many chunks a byte string of length `n` needs.
    pub open spec fn chunks_needed(n: int) -> int {
        n / 4 + if n % 4 > 0 { 1int } else { 0int }
    }

    /// Pack a big-endian byte string into chunks, most significant
    /// first; the most significant chunk is zero-padded when the byte
    /// count is not a multiple of four. Fails with the byte count and
    /// the chunk count it would need when that count exceeds `N`.
    pub fn from_bytes_be(bytes: &[u8]) -> (r: Result<Self, (usize, usize)>)
        ensures
            r is Ok <==> bytes@.len() <= 4 * (N as int),
            r is Ok ==> r.unwrap().value() == bytes_val(bytes@),
            r is Err ==> r == Err::<Self, (usize, usize)>(
                (bytes@.len() as usize, Self::chunks_needed(bytes@.len() as int) as usize),
            ),
    {
        let len = bytes.len();
        let needed = len / 4 + if len % 4 > 0 { 1 } else { 0 };
        if needed > N {
            proof {
                assert(bytes@.len() > 4 * (N as int));
            }
            return Err((len, needed));
        }
        proof {
            assert(bytes@.len() <= 4 * (N as int));
        }
        let ghost radix = chunk_radix();
        let mut big = Self::default();
        let mut i: usize = 0;
        while i < len
            invariant
                0 <= i <= len,
                len == bytes@.len(),
                bytes@.len() <= 4 * (N as int),
                radix == chunk_radix(),
                big.value() == bytes_val(bytes@.take(i as int)),
            decreases len - i,
        {
            let b: u8 = bytes[i];
            proof {
                lemma_bytes_below(bytes@.take(i as int));
                lemma_place_val_bound(byte_ints(bytes@.take(i as int)), 256);
                vstd::arithmetic::power::lemma_pow_increases(256, (i + 1) as nat, (4 * N) as nat);
                lemma_chunk_radix_pow(N as nat);
                reveal(pow);
                assert(pow(256, (i + 1) as nat) == 256 * pow(256, i as nat));
                assert(big.value() * 256 + (b as int) < 256 * pow(256, i as nat))
                    by (nonlinear_arith)
                    requires
                        big.value() < pow(256, i as nat),
                        0 <= (b as int) < 256,
                        big.value() >= 0,
                {}
                assert(big.value() * 256 + (b as int) < pow(radix, N as nat));
            }
            let ghost vpre = big.value();
            match big.mul_add(256, b as u32) {
                Ok(()) => {},
                Err(_) => {
                    // unreachable: the value of an `i + 1`-byte prefix fits
                    return Err((len, needed));
                },
            }
            proof {
                assert(byte_ints(bytes@.take(i + 1)).drop_last() =~= byte_ints(
                    bytes@.take(i as int),
                ));
                assert(byte_ints(bytes@.take(i + 1)).last() == b as int);
                assert(big.value() == bytes_val(bytes@.take(i + 1)));
            }
            i += 1;
        }
        proof {
            assert(bytes@.take(len as int) =~= bytes@);
        }
        Ok(big)
    }

    /// Write the value as its minimal big-endian byte string into the
    /// front of `output`, leaving the rest of the buffer as it was.
    /// Fails with the buffer length and the needed length when the
    /// buffer is shorter than the minimal representation; the buffer is
    /// then untouched. Zero writes nothing.
    pub fn into_bytes_be(self, output: &mut [u8]) -> (r: Result<(), (usize, usize)>)
        requires
            N <= usize::MAX / 4,
        ensures
            r is Ok <==> min_bytes(self.value()).len() <= old(output)@.len(),
            r is Ok ==> final(output)@ == min_bytes(self.value()) + old(output)@.skip(
                min_bytes(self.value()).len() as int,
            ),
            r is Err ==> final(output)@ == old(output)@ && r == Err::<(), (usize, usize)>(
                (old(output)@.len() as usize, min_bytes(self.value()).len() as usize),
            ),
    {
        let ghost v0 = self.value();
        proof {
            self.lemma_value_bound();
            lemma_chunk_radix_pow(N as nat);
            lemma_digits_of_len(v0, 256, (4 * N) as nat);
            lemma_digits_of_props(v0, 256);
            lemma_min_bytes(v0);
        }
        let mut probe = self;
        let mut d: usize = 0;
        while !probe.is_zero()
            invariant
                N <= usize::MAX / 4,
                probe.value() >= 0,
                d as int + digits_of(probe.value(), 256).len() == digits_of(v0, 256).len(),
                digits_of(v0, 256).len() <= 4 * (N as int),
            decreases digits_of(probe.value(), 256).len(),
        {
            let ghost pv = probe.value();
            proof {
                if pv == 0 {
                    assert(false);
                }
                lemma_digits_of_props(pv, 256);
            }
            let _rem = probe.div_mod(256);
            proof {
                probe.lemma_value_bound();
                assert(digits_of(pv, 256) == digits_of(pv / 256, 256).push(pv % 256));
                assert(digits_of(probe.value(), 256) =~= digits_of(pv, 256).drop_last());
            }
            d += 1;
        }
        proof {
            lemma_digits_of_props(probe.value(), 256);
            assert(d as int == digits_of(v0, 256).len());
        }
        if output.len() < d {
            return Err((output.len(), d));
        }
        let mut cur = self;
        let mut k: usize = d;
        while k > 0
            invariant
                0 <= k <= d,
                d as int == digits_of(v0, 256).len(),
                d <= output@.len(),
                output@.len() == old(output)@.len(),
                cur.value() >= 0,
                digits_of(cur.value(), 256) == digits_of(v0, 256).take(k as int),
                forall|t: int| k <= t < d ==> #[trigger] output@[t] == min_bytes(v0)[t],
                forall|t: int|
                    0 <= t < output@.len() && !(k <= t < d) ==> #[trigger] output@[t] == old(
                        output,
                    )@[t],
            decreases k,
        {
            k -= 1;
            let ghost cv = cur.value();
            proof {
                assert(digits_of(cv, 256).len() == k + 1);
                if cv == 0 {
                    lemma_digits_of_props(cv, 256);
                    assert(false);
                }
                lemma_digits_of_props(cv, 256);
            }
            let rem = cur.div_mod(256);
            proof {
                cur.lemma_value_bound();
                assert(digits_of(cv, 256) == digits_of(cv / 256, 256).push(cv % 256));
                assert(digits_of(cur.value(), 256) =~= digits_of(v0, 256).take(k as int));
                assert(rem as int == digits_of(v0, 256)[k as int]);
                assert(min_bytes(v0)[k as int] == (digits_of(v0, 256)[k as int]) as u8);
            }
            output[k] = rem as u8;
        }
        proof {
            assert(final(output)@ =~= min_bytes(v0) + old(output)@.skip(
                min_bytes(v0).len() as int,
            ));
        }
        Ok(())
    }

    /// True exactly when the value is zero.
    pub fn is_zero(&self) -> (r: bool)
        ensures
            r == (self.value() == 0),
    {
        let mut i: usize = 0;
        while i < N
            invariant
                0 <= i <= N,
                self.chunks@.len() == N,
                forall|q: int| 0 <= q < i ==> #[trigger] self.chunks@[q] == 0,
            decreases N - i,
        {
            if self.chunks[i] != 0 {
                proof {
                    lemma_chunks_below(self.chunks@);
                    lemma_place_val_nonzero(chunk_ints(self.chunks@), chunk_radix(), i as int);
                }
                return false;
            }
            i += 1;
        }
        proof {
            assert forall|q: int| 0 <= q < chunk_ints(self.chunks@).len() implies #[trigger]
                chunk_ints(self.chunks@)[q] == 0 by {
                assert(self.chunks@[q] == 0);
            }
            lemma_place_val_zeros(chunk_ints(self.chunks@), chunk_radix());
        }
        true
    }
}

} // verus!
