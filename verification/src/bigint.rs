//! The growable twin of the fixed-capacity engine: the same chunk
//! representation and the same four operations over a vector, growing
//! by one chunk instead of failing when a multiplication carries out of
//! the most significant chunk.
use vstd::prelude::*;
use vstd::arithmetic::div_mod::{lemma_fundamental_div_mod, lemma_mod_division_less_than_divisor};
use vstd::arithmetic::power::{lemma_pow_adds, lemma_pow1, pow};
use crate::num::{
    bytes_val, byte_ints, chunk_ints, chunk_radix, chunks_val, digits_of, lemma_chunks_below,
    lemma_digits_of_props, lemma_div_step, lemma_min_bytes, lemma_place_val_bound,
    lemma_place_val_drop_first, lemma_place_val_nonzero, lemma_place_val_zeros, min_bytes,
    place_val,
};

verus! {

/// A non-negative integer held in 32-bit chunks, most significant
/// chunk first, with growable storage.
pub(crate) struct BigUint {
    pub(crate) chunks: Vec<u32>,
}

impl BigUint {
    /// The integer this vector of chunks stands for.
    pub(crate) open spec fn value(self) -> int {
        chunks_val(self.chunks@)
    }

    pub(crate) proof fn lemma_value_bound(self)
        ensures
            0 <= self.value() < pow(chunk_radix(), self.chunks@.len() as nat),
    {
        lemma_chunks_below(self.chunks@);
        lemma_place_val_bound(chunk_ints(self.chunks@), chunk_radix());
    }

    /// A fresh zero with room reserved for `cap` chunks.
    pub(crate) fn with_capacity(cap: usize) -> (r: Self)
        ensures
            r.value() == 0,
            r.chunks@.len() == 0,
    {
        BigUint { chunks: Vec::with_capacity(cap) }
    }

    /// Divide self by `divider` in place and return the remainder.
    pub(crate) fn div_mod(&mut self, divider: u32) -> (rem: u32)
        requires
            divider >= 1,
        ensures
            final(self).value() == old(self).value() / divider as int,
            rem as int == old(self).value() % divider as int,
            rem < divider,
            final(self).chunks@.len() == old(self).chunks@.len(),
    {
        let ghost all = old(self).chunks@;
        let ghost d = divider as int;
        let ghost radix = chunk_radix();
        let n = self.chunks.len();
        proof {
            lemma_chunks_below(all);
        }
        let mut carry: u64 = 0;
        let mut i: usize = 0;
        while i < n
            invariant
                0 <= i <= n,
                divider >= 1,
                (carry as int) < d,
                d == divider as int,
                radix == chunk_radix(),
                self.chunks@.len() == n,
                all.len() == n,
                self.chunks@.skip(i as int) == all.skip(i as int),
                chunks_val(self.chunks@.take(i as int)) == chunks_val(all.take(i as int)) / d,
                carry as int == chunks_val(all.take(i as int)) % d,
            decreases n - i,
        {
            let x: u32 = self.chunks[i];
            let c: u64 = (carry << 32) | (x as u64);
            proof {
                assert(x == all[i as int]) by {
                    assert(self.chunks@.skip(i as int)[0] == all.skip(i as int)[0]);
                }
                assert(c == carry * 0x1_0000_0000u64 + (x as u64)) by (bit_vector)
                    requires
                        c == (carry << 32u64) | (x as u64),
                        carry < 0x1_0000_0000u64,
                ;
                assert(c as int == (carry as int) * radix + x as int);
                let hq = chunks_val(all.take(i as int)) / d;
                let hr = chunks_val(all.take(i as int)) % d;
                lemma_chunks_below(all.take(i as int));
                lemma_place_val_bound(chunk_ints(all.take(i as int)), radix);
                lemma_fundamental_div_mod(chunks_val(all.take(i as int)), d);
                lemma_mod_division_less_than_divisor(chunks_val(all.take(i as int)), d);
                assert(hq >= 0) by (nonlinear_arith)
                    requires
                        chunks_val(all.take(i as int)) >= 0,
                        d >= 1,
                        chunks_val(all.take(i as int)) == d * hq + hr,
                        0 <= hr < d,
                {}
                lemma_div_step(hq, hr, x as int, radix, d);
                assert(chunk_ints(all.take(i + 1)).drop_last() =~= chunk_ints(all.take(i as int)));
                assert(chunk_ints(all.take(i + 1)).last() == x as int);
                assert(chunks_val(all.take(i + 1)) == chunks_val(all.take(i as int)) * radix + x);
                assert(chunks_val(all.take(i + 1)) == (hq * d + hr) * radix + x)
                    by (nonlinear_arith)
                    requires
                        chunks_val(all.take(i + 1)) == chunks_val(all.take(i as int)) * radix
                            + x as int,
                        chunks_val(all.take(i as int)) == d * hq + hr,
                {}
            }
            let q: u64 = c / (divider as u64);
            let r: u64 = c % (divider as u64);
            proof {
                assert(q as int == c as int / d && r as int == c as int % d) by (nonlinear_arith)
                    requires
                        q == c / (divider as u64),
                        r == c % (divider as u64),
                        d == divider as int,
                        divider >= 1,
                {}
                assert(q < 0x1_0000_0000u64);
            }
            let ghost before = self.chunks@;
            self.chunks[i] = q as u32;
            carry = r;
            i += 1;
            proof {
                assert forall|m: int| 0 <= m < self.chunks@.skip(i as int).len() implies
                    self.chunks@.skip(i as int)[m] == all.skip(i as int)[m] by {
                    assert(self.chunks@[i + m] == before[i + m]);
                    assert(before.skip(i - 1)[m + 1] == all.skip(i - 1)[m + 1]);
                }
                assert(self.chunks@.skip(i as int) =~= all.skip(i as int));
                assert(chunk_ints(self.chunks@.take(i as int)).drop_last() =~= chunk_ints(
                    before.take(i - 1),
                ));
                assert(chunk_ints(self.chunks@.take(i as int)).last() == q as int);
                assert(chunks_val(self.chunks@.take(i as int)) == chunks_val(before.take(i - 1))
                    * radix + q as int);
            }
        }
        proof {
            assert(all.take(n as int) =~= all);
            assert(self.chunks@.take(n as int) =~= self.chunks@);
        }
        carry as u32
    }

    /// Multiply self by `multiplicator` and fold `addition` into the
    /// least significant chunk; grow by one chunk when the result
    /// carries past the most significant one.
    pub(crate) fn mul_add(&mut self, multiplicator: u32, addition: u32)
        requires
            old(self).chunks@.len() < usize::MAX,
        ensures
            final(self).value() == old(self).value() * multiplicator as int + addition as int,
            final(self).chunks@.len() <= old(self).chunks@.len() + 1,
    {
        let ghost all = old(self).chunks@;
        let ghost m = multiplicator as int;
        let ghost a = addition as int;
        let ghost radix = chunk_radix();
        let n = self.chunks.len();
        proof {
            lemma_chunks_below(all);
            reveal(pow);
            assert(pow(radix, 0) == 1);
        }
        let mut carry: u64 = addition as u64;
        let mut j: usize = n;
        while j > 0
            invariant
                0 <= j <= n,
                carry < 0x1_0000_0000u64,
                m == multiplicator as int,
                a == addition as int,
                radix == chunk_radix(),
                self.chunks@.len() == n,
                all.len() == n,
                self.chunks@.take(j as int) == all.take(j as int),
                chunks_val(all.skip(j as int)) * m + a == chunks_val(self.chunks@.skip(j as int))
                    + carry * pow(radix, (n - j) as nat),
            decreases j,
        {
            j -= 1;
            let x: u32 = self.chunks[j];
            proof {
                assert(x == all[j as int]) by {
                    assert(self.chunks@.take(j + 1)[j as int] == all.take(j + 1)[j as int]);
                }
                assert((x as int) * m + carry < 0x1_0000_0000_0000_0000) by (nonlinear_arith)
                    requires
                        0 <= (x as int) < 0x1_0000_0000,
                        0 <= m < 0x1_0000_0000,
                        0 <= carry < 0x1_0000_0000u64,
                {}
            }
            let c: u64 = (x as u64) * (multiplicator as u64) + carry;
            let ghost before = self.chunks@;
            let ghost carry0 = carry as int;
            let lo: u32 = c as u32;
            self.chunks[j] = lo;
            carry = c >> 32;
            proof {
                assert(c == (c >> 32u64) * 0x1_0000_0000u64 + ((c as u32) as u64)
                    && (c >> 32u64) < 0x1_0000_0000u64) by (bit_vector);
                assert(c as int == (carry as int) * radix + lo as int);
                let os1 = chunk_ints(all.skip(j as int));
                let os0 = chunk_ints(all.skip(j + 1));
                let e = (n - j - 1) as nat;
                lemma_place_val_drop_first(os1, radix);
                assert(os1.drop_first() =~= os0);
                assert(os1[0] == x as int);
                assert(place_val(os1, radix) == (x as int) * pow(radix, e) + place_val(os0, radix));
                let ns1 = chunk_ints(self.chunks@.skip(j as int));
                let ns0 = chunk_ints(before.skip(j + 1));
                lemma_place_val_drop_first(ns1, radix);
                assert(ns1.drop_first() =~= ns0);
                assert(ns1[0] == lo as int);
                assert(place_val(ns1, radix) == (lo as int) * pow(radix, e) + place_val(ns0, radix));
                lemma_pow_adds(radix, e, 1);
                lemma_pow1(radix);
                assert(pow(radix, e + 1) == pow(radix, e) * radix);
                assert(place_val(os1, radix) * m + a == place_val(ns1, radix) + (carry as int)
                    * pow(radix, e + 1)) by (nonlinear_arith)
                    requires
                        place_val(os0, radix) * m + a == place_val(ns0, radix) + carry0 * pow(
                            radix,
                            e,
                        ),
                        place_val(os1, radix) == (x as int) * pow(radix, e) + place_val(os0, radix),
                        place_val(ns1, radix) == (lo as int) * pow(radix, e) + place_val(
                            ns0,
                            radix,
                        ),
                        (x as int) * m + carry0 == (carry as int) * radix + lo as int,
                        pow(radix, e + 1) == pow(radix, e) * radix,
                {}
                assert(e + 1 == (n - j) as nat);
                assert(self.chunks@.take(j as int) =~= all.take(j as int));
            }
        }
        proof {
            assert(all.skip(0) =~= all);
            assert(self.chunks@.skip(0) =~= self.chunks@);
        }
        if carry > 0 {
            let ghost low = self.chunks@;
            self.chunks.insert(0, carry as u32);
            proof {
                let s1 = chunk_ints(self.chunks@);
                lemma_place_val_drop_first(s1, radix);
                assert(s1.drop_first() =~= chunk_ints(low));
                assert(s1[0] == carry as int);
                assert(place_val(s1, radix) == (carry as int) * pow(radix, n as nat) + place_val(
                    chunk_ints(low),
                    radix,
                ));
            }
        }
    }

    /// True exactly when the value is zero.
    pub(crate) fn is_zero(&self) -> (r: bool)
        ensures
            r == (self.value() == 0),
    {
        let n = self.chunks.len();
        let mut i: usize = 0;
        while i < n
            invariant
                0 <= i <= n,
                self.chunks@.len() == n,
                forall|q: int| 0 <= q < i ==> #[trigger] self.chunks@[q] == 0,
            decreases n - i,
        {
            if self.chunks[i] != 0 {
                proof {
                    lemma_chunks_below(self.chunks@);
                    lemma_place_val_nonzero(chunk_ints(self.chunks@), chunk_radix(), i as int);
                }
                return false;
            }
            i += 1;
        }
        proof {
            assert forall|q: int| 0 <= q < chunk_ints(self.chunks@).len() implies #[trigger]
                chunk_ints(self.chunks@)[q] == 0 by {
                assert(self.chunks@[q] == 0);
            }
            lemma_place_val_zeros(chunk_ints(self.chunks@), chunk_radix());
        }
        true
    }

    /// Pack a big-endian byte string into a fresh big integer.
    pub(crate) fn from_bytes_be(bytes: &[u8]) -> (r: Self)
        ensures
            r.value() == bytes_val(bytes@),
            r.chunks@.len() <= bytes@.len(),
    {
        let len = bytes.len();
        let mut big = Self::with_capacity(len / 4 + 1);
        let mut i: usize = 0;
        while i < len
            invariant
                0 <= i <= len,
                len == bytes@.len(),
                big.value() == bytes_val(bytes@.take(i as int)),
                big.chunks@.len() <= i,
            decreases len - i,
        {
            let b: u8 = bytes[i];
            big.mul_add(256, b as u32);
            proof {
                assert(byte_ints(bytes@.take(i + 1)).drop_last() =~= byte_ints(
                    bytes@.take(i as int),
                ));
                assert(byte_ints(bytes@.take(i + 1)).last() == b as int);
                assert(big.value() == bytes_val(bytes@.take(i + 1)));
            }
            i += 1;
        }
        proof {
            assert(bytes@.take(len as int) =~= bytes@);
        }
        big
    }

    /// The value as its minimal big-endian byte string: no leading zero
    /// byte, and empty for zero.
    pub(crate) fn into_bytes_be(self) -> (r: Vec<u8>)
        ensures
            r@ == min_bytes(self.value()),
    {
        let ghost v0 = self.value();
        proof {
            self.lemma_value_bound();
            lemma_digits_of_props(v0, 256);
            lemma_min_bytes(v0);
        }
        let mut cur = self;
        let mut out: Vec<u8> = Vec::new();
        while !cur.is_zero()
            invariant
                cur.value() >= 0,
                digits_of(cur.value(), 256) + byte_ints(out@) == digits_of(v0, 256),
            decreases digits_of(cur.value(), 256).len(),
        {
            let ghost cv = cur.value();
            proof {
                lemma_digits_of_props(cv, 256);
            }
            let rem = cur.div_mod(256);
            let ghost outpre = out@;
            out.insert(0, rem as u8);
            proof {
                cur.lemma_value_bound();
                assert(digits_of(cv, 256) == digits_of(cv / 256, 256).push(cv % 256));
                assert(byte_ints(out@) =~= seq![rem as int] + byte_ints(outpre));
                assert(digits_of(cur.value(), 256) + byte_ints(out@) =~= digits_of(cv, 256)
                    + byte_ints(outpre));
            }
        }
        proof {
            lemma_digits_of_props(cur.value(), 256);
            assert(byte_ints(out@) == digits_of(v0, 256));
            assert(out@ =~= min_bytes(v0));
        }
        out
    }
}

} // verus!
