//! The mathematical model of positional notation: the value of a digit
//! sequence, the minimal digit expansion of a value, and leading runs.
//! Everything here is ghost; the executable engine is proved against it.
use vstd::prelude::*;
use vstd::arithmetic::div_mod::{
    lemma_fundamental_div_mod, lemma_fundamental_div_mod_converse, lemma_mod_division_less_than_divisor,
};
use vstd::arithmetic::power::{lemma_pow_adds, lemma_pow_positive, lemma_pow_multiplies, lemma_pow1, pow};

verus! {

/// The value of a digit sequence `ds` (most significant digit first)
/// read in radix `b`: a Horner fold from the left.
pub open spec fn place_val(ds: Seq<int>, b: int) -> int
    decreases ds.len(),
{
    if ds.len() == 0 {
        0
    } else {
        place_val(ds.drop_last(), b) * b + ds.last()
    }
}

/// The minimal (no leading zero digit) radix-`b` expansion of `v`,
/// most significant digit first. Zero expands to the empty sequence.
pub open spec fn digits_of(v: int, b: int) -> Seq<int>
    decreases v,
    via digits_of_decreases
{
    if v <= 0 || b < 2 {
        Seq::empty()
    } else {
        digits_of(v / b, b).push(v % b)
    }
}

#[via_fn]
proof fn digits_of_decreases(v: int, b: int) {
    if !(v <= 0 || b < 2) {
        lemma_fundamental_div_mod(v, b);
        lemma_mod_division_less_than_divisor(v, b);
        assert(0 <= v / b < v) by (nonlinear_arith)
            requires
                v >= 1,
                b >= 2,
                v == b * (v / b) + v % b,
                0 <= v % b < b,
        {}
    }
}

/// How many copies of `x` the sequence `s` starts with.
pub open spec fn lead_run<T>(s: Seq<T>, x: T) -> int
    decreases s.len(),
{
    if s.len() == 0 || s[0] != x {
        0
    } else {
        1 + lead_run(s.drop_first(), x)
    }
}

/// A byte sequence as abstract digits.
pub open spec fn byte_ints(s: Seq<u8>) -> Seq<int> {
    s.map_values(|x: u8| x as int)
}

/// A chunk sequence as abstract digits.
pub open spec fn chunk_ints(s: Seq<u32>) -> Seq<int> {
    s.map_values(|x: u32| x as int)
}

/// The big-endian base-256 value of a byte sequence.
pub open spec fn bytes_val(s: Seq<u8>) -> int {
    place_val(byte_ints(s), 256)
}

/// The radix of one 32-bit chunk.
pub open spec fn chunk_radix() -> int {
    0x1_0000_0000
}

/// The value of a chunk sequence, most significant chunk first.
pub open spec fn chunks_val(s: Seq<u32>) -> int {
    place_val(chunk_ints(s), chunk_radix())
}

/// Every entry of `ds` lies in `[0, b)`.
pub open spec fn digits_below(ds: Seq<int>, b: int) -> bool {
    forall|i: int| 0 <= i < ds.len() ==> 0 <= #[trigger] ds[i] < b
}

pub proof fn lemma_place_val_bound(ds: Seq<int>, b: int)
    requires
        b >= 1,
        digits_below(ds, b),
    ensures
        0 <= place_val(ds, b) < pow(b, ds.len() as nat),
    decreases ds.len(),
{
    reveal(pow);
    if ds.len() == 0 {
        assert(pow(b, 0) == 1);
    } else {
        let pre = ds.drop_last();
        assert(digits_below(pre, b));
        lemma_place_val_bound(pre, b);
        let p = pow(b, pre.len() as nat);
        lemma_pow_adds(b, pre.len() as nat, 1);
        lemma_pow1(b);
        assert(pow(b, 1) == b);
        assert(pow(b, ds.len() as nat) == p * b);
        assert(place_val(pre, b) * b + ds.last() < p * b) by (nonlinear_arith)
            requires
                place_val(pre, b) <= p - 1,
                0 <= ds.last() < b,
                p >= 1,
                b >= 1,
        {}
        assert(place_val(pre, b) * b + ds.last() >= 0) by (nonlinear_arith)
            requires
                place_val(pre, b) >= 0,
                ds.last() >= 0,
                b >= 1,
        {}
    }
}

pub proof fn lemma_place_val_zeros(ds: Seq<int>, b: int)
    requires
        forall|i: int| 0 <= i < ds.len() ==> #[trigger] ds[i] == 0,
    ensures
        place_val(ds, b) == 0,
    decreases ds.len(),
{
    if ds.len() > 0 {
        lemma_place_val_zeros(ds.drop_last(), b);
    }
}

pub proof fn lemma_place_val_pos(ds: Seq<int>, b: int)
    requires
        b >= 1,
        digits_below(ds, b),
        ds.len() > 0,
        ds[0] >= 1,
    ensures
        place_val(ds, b) >= 1,
    decreases ds.len(),
{
    if ds.len() == 1 {
        assert(place_val(ds.drop_last(), b) == 0) by {
            lemma_place_val_zeros(ds.drop_last(), b);
        }
    } else {
        let pre = ds.drop_last();
        lemma_place_val_pos(pre, b);
        assert(place_val(pre, b) * b >= b) by (nonlinear_arith)
            requires
                place_val(pre, b) >= 1,
                b >= 1,
        {}
    }
}

/// Leading zero digits do not change the value.
pub proof fn lemma_place_val_skip_zeros(ds: Seq<int>, b: int, k: int)
    requires
        0 <= k <= ds.len(),
        forall|i: int| 0 <= i < k ==> #[trigger] ds[i] == 0,
    ensures
        place_val(ds, b) == place_val(ds.skip(k), b),
    decreases ds.len(),
{
    if ds.len() == k {
        lemma_place_val_zeros(ds, b);
        assert(ds.skip(k) =~= Seq::empty());
    } else {
        let pre = ds.drop_last();
        lemma_place_val_skip_zeros(pre, b, k);
        assert(ds.skip(k).drop_last() =~= pre.skip(k));
        assert(ds.skip(k).last() == ds.last());
    }
}

/// Splitting off the most significant digit.
pub proof fn lemma_place_val_drop_first(ds: Seq<int>, b: int)
    requires
        ds.len() > 0,
    ensures
        place_val(ds, b) == ds[0] * pow(b, (ds.len() - 1) as nat) + place_val(ds.drop_first(), b),
    decreases ds.len(),
{
    reveal(pow);
    if ds.len() == 1 {
        assert(ds.drop_last() =~= Seq::empty());
        assert(ds.drop_first() =~= Seq::empty());
        assert(pow(b, 0) == 1);
        assert(place_val(ds, b) == place_val(ds.drop_last(), b) * b + ds.last());
        assert(place_val(ds, b) == 0 * b + ds[0]);
        assert(ds[0] * pow(b, 0) == ds[0]);
    } else {
        let pre = ds.drop_last();
        lemma_place_val_drop_first(pre, b);
        assert(ds.drop_first().drop_last() =~= pre.drop_first());
        assert(ds.drop_first().last() == ds.last());
        let e = (pre.len() - 1) as nat;
        lemma_pow_adds(b, e, 1);
        lemma_pow1(b);
        assert(pow(b, 1) == b);
        assert(pow(b, e + 1) == pow(b, e) * b);
        assert(e + 1 == (ds.len() - 1) as nat);
        assert(place_val(ds, b) == place_val(pre, b) * b + ds.last());
        assert(place_val(pre, b) == ds[0] * pow(b, e) + place_val(pre.drop_first(), b));
        assert(place_val(ds.drop_first(), b) == place_val(pre.drop_first(), b) * b + ds.last());
        assert((ds[0] * pow(b, e) + place_val(pre.drop_first(), b)) * b
            == ds[0] * (pow(b, e) * b) + place_val(pre.drop_first(), b) * b) by (nonlinear_arith)
        {}
        assert(ds[0] * (pow(b, e) * b) == ds[0] * pow(b, e + 1)) by (nonlinear_arith)
            requires
                pow(b, e + 1) == pow(b, e) * b,
        {}
    }
}

/// The minimal expansion is a faithful expansion: its digits are in range,
/// it has no leading zero digit, and it evaluates back to the value.
pub proof fn lemma_digits_of_props(v: int, b: int)
    requires
        v >= 0,
        b >= 2,
    ensures
        place_val(digits_of(v, b), b) == v,
        digits_below(digits_of(v, b), b),
        v > 0 ==> digits_of(v, b).len() > 0 && digits_of(v, b)[0] >= 1,
        v == 0 ==> digits_of(v, b).len() == 0,
    decreases v,
{
    if v > 0 {
        lemma_fundamental_div_mod(v, b);
        lemma_mod_division_less_than_divisor(v, b);
        assert(0 <= v / b < v) by (nonlinear_arith)
            requires
                v >= 1,
                b >= 2,
                v == b * (v / b) + v % b,
                0 <= v % b < b,
        {}
        lemma_digits_of_props(v / b, b);
        let ds = digits_of(v, b);
        let pre = digits_of(v / b, b);
        assert(ds == pre.push(v % b));
        assert(ds.drop_last() =~= pre);
        assert(ds.last() == v % b);
        assert(place_val(ds, b) == place_val(pre, b) * b + (v % b));
        assert(place_val(pre, b) == v / b);
        assert((v / b) * b + (v % b) == v) by (nonlinear_arith)
            requires
                v == b * (v / b) + v % b,
        {}
        if v / b == 0 {
            assert(ds[0] == v % b);
            assert(v % b >= 1) by {
                assert(v == b * 0 + v % b);
            }
        } else {
            assert(ds[0] == pre[0]);
        }
    }
}

/// Expansion is the inverse of evaluation: a digit sequence in range with
/// no leading zero digit is recovered from its value.
pub proof fn lemma_digits_of_place_val(ds: Seq<int>, b: int)
    requires
        b >= 2,
        digits_below(ds, b),
        ds.len() == 0 || ds[0] >= 1,
    ensures
        digits_of(place_val(ds, b), b) == ds,
    decreases ds.len(),
{
    if ds.len() == 0 {
        assert(digits_of(0, b) =~= Seq::<int>::empty());
    } else {
        let pre = ds.drop_last();
        let w = place_val(pre, b);
        let v = place_val(ds, b);
        assert(v == w * b + ds.last());
        lemma_place_val_bound(pre, b);
        if ds.len() == 1 {
            lemma_place_val_zeros(pre, b);
            assert(w == 0);
            assert(v == 0 * b + ds.last());
            assert(v == ds.last());
            assert(v >= 1);
            lemma_fundamental_div_mod_converse(v, b, 0, v);
            assert(digits_of(v, b) == digits_of(0, b).push(v));
            assert(digits_of(v, b) =~= ds);
        } else {
            assert(pre[0] == ds[0]);
            assert(digits_below(pre, b));
            lemma_digits_of_place_val(pre, b);
            lemma_place_val_pos(pre, b);
            lemma_fundamental_div_mod_converse(v, b, w, ds.last());
            assert(v >= 1) by (nonlinear_arith)
                requires
                    w >= 1,
                    b >= 2,
                    ds.last() >= 0,
                    v == w * b + ds.last(),
            {}
            assert(digits_of(v, b) == digits_of(w, b).push(v % b));
            assert(digits_of(v, b) =~= ds);
        }
    }
}

/// The long-division step: pushing one more digit onto a dividend.
pub proof fn lemma_div_step(hq: int, hr: int, x: int, b: int, d: int)
    requires
        d >= 1,
        hq >= 0,
        0 <= hr < d,
        0 <= x < b,
        b >= 1,
    ensures
        ((hq * d + hr) * b + x) / d == hq * b + (hr * b + x) / d,
        ((hq * d + hr) * b + x) % d == (hr * b + x) % d,
        0 <= (hr * b + x) / d < b,
{
    let big = (hq * d + hr) * b + x;
    let r = hr * b + x;
    assert(r >= 0) by (nonlinear_arith)
        requires
            hr >= 0,
            b >= 1,
            x >= 0,
            r == hr * b + x,
    {}
    lemma_fundamental_div_mod(r, d);
    lemma_mod_division_less_than_divisor(r, d);
    assert(big == (hq * b + r / d) * d + (r % d)) by (nonlinear_arith)
        requires
            r == d * (r / d) + r % d,
            big == (hq * d + hr) * b + x,
            r == hr * b + x,
    {}
    lemma_fundamental_div_mod_converse(big, d, hq * b + r / d, r % d);
    assert(r < d * b) by (nonlinear_arith)
        requires
            hr <= d - 1,
            x < b,
            b >= 1,
            d >= 1,
            r == hr * b + x,
    {}
    assert(r / d < b) by (nonlinear_arith)
        requires
            r >= 0,
            d >= 1,
            r < d * b,
            r == d * (r / d) + r % d,
            0 <= r % d,
    {}
    assert(r / d >= 0) by (nonlinear_arith)
        requires
            r >= 0,
            d >= 1,
            r == d * (r / d) + r % d,
            r % d < d,
    {}
}

/// The value of a one followed by `n` zero digits is `pow(b, n)`.
pub proof fn lemma_place_val_pow(ds: Seq<int>, b: int, n: int)
    requires
        n >= 0,
        ds.len() == n + 1,
        ds[0] == 1,
        forall|i: int| 1 <= i < ds.len() ==> #[trigger] ds[i] == 0,
    ensures
        place_val(ds, b) == pow(b, n as nat),
    decreases n,
{
    reveal(pow);
    if n == 0 {
        assert(ds.drop_last() =~= Seq::empty());
        assert(pow(b, 0) == 1);
        assert(place_val(ds, b) == place_val(ds.drop_last(), b) * b + ds.last());
        assert(place_val(ds.drop_last(), b) == 0);
        assert(ds.last() == ds[0]);
    } else {
        let pre = ds.drop_last();
        assert(pre[0] == ds[0]);
        assert(forall|i: int| 1 <= i < pre.len() ==> #[trigger] pre[i] == ds[i]);
        lemma_place_val_pow(pre, b, n - 1);
        lemma_pow_adds(b, (n - 1) as nat, 1);
        lemma_pow1(b);
        assert(pow(b, 1) == b);
        assert((n - 1) as nat + 1 == n as nat);
        assert(ds.last() == 0);
        assert(place_val(ds, b) == place_val(pre, b) * b + 0);
    }
}

/// The characterization of `lead_run`: it is the unique cut between the
/// leading copies of `x` and the first other element.
pub proof fn lemma_lead_run_is(s: Seq<char>, x: char, k: int)
    requires
        0 <= k <= s.len(),
        forall|i: int| 0 <= i < k ==> #[trigger] s[i] == x,
        k < s.len() ==> s[k] != x,
    ensures
        lead_run(s, x) == k,
    decreases s.len(),
{
    if k == 0 {
        if s.len() > 0 {
            assert(s[0] != x);
        }
    } else {
        assert(s[0] == x);
        let t = s.drop_first();
        assert(forall|i: int| 0 <= i < k - 1 ==> #[trigger] t[i] == s[i + 1]);
        lemma_lead_run_is(t, x, k - 1);
    }
}

/// What `lead_run` says about the sequence.
pub proof fn lemma_lead_run_props(s: Seq<char>, x: char)
    ensures
        0 <= lead_run(s, x) <= s.len(),
        forall|i: int| 0 <= i < lead_run(s, x) ==> #[trigger] s[i] == x,
        lead_run(s, x) < s.len() ==> s[lead_run(s, x)] != x,
    decreases s.len(),
{
    if s.len() > 0 && s[0] == x {
        let t = s.drop_first();
        lemma_lead_run_props(t, x);
        assert(forall|i: int| 1 <= i < lead_run(s, x) ==> #[trigger] s[i] == t[i - 1]);
    }
}

/// The same two facts for a byte sequence.
pub proof fn lemma_lead_run_bytes_is(s: Seq<u8>, x: u8, k: int)
    requires
        0 <= k <= s.len(),
        forall|i: int| 0 <= i < k ==> #[trigger] s[i] == x,
        k < s.len() ==> s[k] != x,
    ensures
        lead_run(s, x) == k,
    decreases s.len(),
{
    if k == 0 {
        if s.len() > 0 {
            assert(s[0] != x);
        }
    } else {
        assert(s[0] == x);
        let t = s.drop_first();
        assert(forall|i: int| 0 <= i < k - 1 ==> #[trigger] t[i] == s[i + 1]);
        lemma_lead_run_bytes_is(t, x, k - 1);
    }
}

pub proof fn lemma_lead_run_bytes_props(s: Seq<u8>, x: u8)
    ensures
        0 <= lead_run(s, x) <= s.len(),
        forall|i: int| 0 <= i < lead_run(s, x) ==> #[trigger] s[i] == x,
        lead_run(s, x) < s.len() ==> s[lead_run(s, x)] != x,
    decreases s.len(),
{
    if s.len() > 0 && s[0] == x {
        let t = s.drop_first();
        lemma_lead_run_bytes_props(t, x);
        assert(forall|i: int| 1 <= i < lead_run(s, x) ==> #[trigger] s[i] == t[i - 1]);
    }
}

/// Four base-256 digits make one base-2^32 chunk: the chunk radix is
/// pow(256, 4), so a value below pow(2^32, n) is below pow(256, 4n).
pub proof fn lemma_chunk_radix_pow(n: nat)
    ensures
        pow(chunk_radix(), n) == pow(256, 4 * n),
{
    reveal(pow);
    assert(pow(256, 0) == 1);
    assert(pow(256, 1) == 256);
    assert(pow(256, 2) == 0x1_0000);
    assert(pow(256, 3) == 0x100_0000);
    assert(pow(256, 4) == chunk_radix());
    lemma_pow_multiplies(256, 4, n);
}


/// The minimal big-endian byte representation of a non-negative value.
pub open spec fn min_bytes(v: int) -> Seq<u8> {
    digits_of(v, 256).map_values(|d: int| d as u8)
}

pub proof fn lemma_min_bytes(v: int)
    requires
        v >= 0,
    ensures
        byte_ints(min_bytes(v)) == digits_of(v, 256),
        min_bytes(v).len() == digits_of(v, 256).len(),
        bytes_val(min_bytes(v)) == v,
        v > 0 ==> min_bytes(v).len() > 0 && min_bytes(v)[0] != 0,
        v == 0 ==> min_bytes(v).len() == 0,
{
    lemma_digits_of_props(v, 256);
    assert(byte_ints(min_bytes(v)) =~= digits_of(v, 256));
}

/// A sequence of `u32` read as digits is below the chunk radix.
pub proof fn lemma_chunks_below(s: Seq<u32>)
    ensures
        digits_below(chunk_ints(s), chunk_radix()),
        chunk_ints(s).len() == s.len(),
{
    assert forall|i: int| 0 <= i < chunk_ints(s).len() implies 0 <= #[trigger] chunk_ints(s)[i]
        < chunk_radix() by {
        assert(chunk_ints(s)[i] == s[i] as int);
    }
}

/// A sequence of bytes read as digits is below 256.
pub proof fn lemma_bytes_below(s: Seq<u8>)
    ensures
        digits_below(byte_ints(s), 256),
        byte_ints(s).len() == s.len(),
{
    assert forall|i: int| 0 <= i < byte_ints(s).len() implies 0 <= #[trigger] byte_ints(s)[i]
        < 256 by {
        assert(byte_ints(s)[i] == s[i] as int);
    }
}

/// A digit sequence with any nonzero entry has a positive value.
pub proof fn lemma_place_val_nonzero(ds: Seq<int>, b: int, k: int)
    requires
        b >= 1,
        digits_below(ds, b),
        0 <= k < ds.len(),
        ds[k] >= 1,
    ensures
        place_val(ds, b) >= 1,
    decreases ds.len(),
{
    let pre = ds.drop_last();
    lemma_place_val_bound(pre, b);
    if k == ds.len() - 1 {
        assert(place_val(ds, b) == place_val(pre, b) * b + ds.last());
        assert(place_val(pre, b) * b >= 0) by (nonlinear_arith)
            requires
                place_val(pre, b) >= 0,
                b >= 1,
        {}
    } else {
        lemma_place_val_nonzero(pre, b, k);
        assert(place_val(pre, b) * b >= b) by (nonlinear_arith)
            requires
                place_val(pre, b) >= 1,
                b >= 1,
        {}
    }
}

/// A value below `pow(b, e)` needs at most `e` digits.
pub proof fn lemma_digits_of_len(v: int, b: int, e: nat)
    requires
        b >= 2,
        0 <= v,
        v < pow(b, e),
    ensures
        digits_of(v, b).len() <= e,
    decreases v,
{
    reveal(pow);
    if v > 0 {
        lemma_pow_positive(b, e);
        assert(e > 0) by {
            if e == 0 {
                assert(pow(b, 0) == 1);
            }
        }
        lemma_fundamental_div_mod(v, b);
        lemma_mod_division_less_than_divisor(v, b);
        assert(0 <= v / b < v) by (nonlinear_arith)
            requires
                v >= 1,
                b >= 2,
                v == b * (v / b) + v % b,
                0 <= v % b < b,
        {}
        assert(pow(b, e) == b * pow(b, (e - 1) as nat));
        assert(v / b < pow(b, (e - 1) as nat)) by (nonlinear_arith)
            requires
                v == b * (v / b) + v % b,
                0 <= v % b < b,
                v < b * pow(b, (e - 1) as nat),
                b >= 2,
        {}
        lemma_digits_of_len(v / b, b, (e - 1) as nat);
    }
}



/// The chunk radix as a power of two.
pub proof fn lemma_radix_pow2(n: nat)
    ensures
        pow(chunk_radix(), n) == pow(2, 32 * n),
{
    lemma_chunk_radix_pow(n);
    reveal(pow);
    assert(pow(2, 0) == 1);
    assert(pow(2, 1) == 2);
    assert(pow(2, 2) == 4);
    assert(pow(2, 3) == 8);
    assert(pow(2, 4) == 16);
    assert(pow(2, 5) == 32);
    assert(pow(2, 6) == 64);
    assert(pow(2, 7) == 128);
    assert(pow(2, 8) == 256);
    lemma_pow_multiplies(2, 8, 4 * n);
    assert(8 * (4 * n) == 32 * n);
}

/// A prefix of a digit sequence is worth no more than the whole.
pub proof fn lemma_place_val_take_le(ds: Seq<int>, b: int, j: int)
    requires
        b >= 1,
        digits_below(ds, b),
        0 <= j <= ds.len(),
    ensures
        place_val(ds.take(j), b) <= place_val(ds, b),
    decreases ds.len(),
{
    if j == ds.len() {
        assert(ds.take(j) =~= ds);
    } else {
        let pre = ds.drop_last();
        assert(digits_below(pre, b));
        lemma_place_val_take_le(pre, b, j);
        assert(ds.take(j) =~= pre.take(j));
        lemma_place_val_bound(pre, b);
        assert(place_val(pre, b) * b + ds.last() >= place_val(pre, b)) by (nonlinear_arith)
            requires
                place_val(pre, b) >= 0,
                b >= 1,
                ds.last() >= 0,
        {}
    }
}

/// A larger radix never shrinks a power.
pub proof fn lemma_pow_base_le(a: int, b: int, e: nat)
    requires
        1 <= a <= b,
    ensures
        pow(a, e) <= pow(b, e),
    decreases e,
{
    reveal(pow);
    if e > 0 {
        lemma_pow_base_le(a, b, (e - 1) as nat);
        lemma_pow_positive(a, (e - 1) as nat);
        lemma_pow_positive(b, (e - 1) as nat);
        assert(a * pow(a, (e - 1) as nat) <= b * pow(b, (e - 1) as nat)) by (nonlinear_arith)
            requires
                1 <= a <= b,
                0 < pow(a, (e - 1) as nat) <= pow(b, (e - 1) as nat),
        {}
    }
}

} // verus!
