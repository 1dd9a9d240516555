//! The ghost model of the codec: what an alphabet is, what text an
//! input encodes to, what bytes a text decodes to, and the round-trip
//! laws tying the two directions together.
use vstd::prelude::*;
use vstd::string::StringSliceAdditionalSpecFns;
use crate::num::{
    byte_ints, bytes_val, digits_below, digits_of, lead_run, lemma_bytes_below,
    lemma_digits_of_place_val, lemma_digits_of_props, lemma_lead_run_bytes_is,
    lemma_lead_run_bytes_props, lemma_lead_run_is, lemma_lead_run_props, lemma_min_bytes,
    lemma_place_val_bound, lemma_place_val_skip_zeros, min_bytes, place_val,
};

verus! {

/// No symbol occurs twice.
pub open spec fn distinct_symbols(s: Seq<char>) -> bool {
    forall|i: int, j: int| 0 <= i < j < s.len() ==> s[i] != s[j]
}

/// A usable alphabet: at least two symbols, none repeated.
pub open spec fn alpha_ok(symbols: Seq<char>) -> bool {
    &&& symbols.len() >= 2
    &&& distinct_symbols(symbols)
}

/// The digit a symbol stands for: its index in the alphabet.
pub open spec fn digit_of(symbols: Seq<char>, c: char) -> int {
    symbols.index_of(c)
}

/// Every character of the text is an alphabet symbol.
pub open spec fn text_ok(symbols: Seq<char>, text: Seq<char>) -> bool {
    forall|i: int| 0 <= i < text.len() ==> symbols.contains(#[trigger] text[i])
}

/// The digit sequence a text stands for.
pub open spec fn text_digits(symbols: Seq<char>, text: Seq<char>) -> Seq<int> {
    text.map_values(|c: char| digit_of(symbols, c))
}

/// Digits rendered as symbols.
pub open spec fn sym_of(symbols: Seq<char>, ds: Seq<int>) -> Seq<char> {
    ds.map_values(|d: int| symbols[d])
}

/// What encoding produces: one zero symbol for each leading zero byte,
/// then the minimal radix-`base` expansion of the input's value.
pub open spec fn encode_text(symbols: Seq<char>, input: Seq<u8>) -> Seq<char> {
    Seq::new(lead_run(input, 0u8) as nat, |i: int| symbols[0]) + sym_of(
        symbols,
        digits_of(bytes_val(input), symbols.len() as int),
    )
}

/// What decoding produces: one zero byte for each leading zero symbol,
/// then the minimal big-endian bytes of the text's value.
pub open spec fn decode_bytes(symbols: Seq<char>, text: Seq<char>) -> Seq<u8> {
    Seq::new(lead_run(text, symbols[0]) as nat, |i: int| 0u8) + min_bytes(
        place_val(text_digits(symbols, text), symbols.len() as int),
    )
}


/// ASCII bytes read as characters.
pub open spec fn ascii_chars_of(s: Seq<u8>) -> Seq<char> {
    s.map_values(|b: u8| b as char)
}

/// A usable byte alphabet: at least two symbols, all ASCII, none
/// repeated, and few enough that a digit index fits one byte below the
/// table sentinel.
pub open spec fn byte_alpha_ok(a: Seq<u8>) -> bool {
    &&& 2 <= a.len() <= 255
    &&& forall|i: int| 0 <= i < a.len() ==> #[trigger] a[i] < 128
    &&& forall|i: int, j: int| 0 <= i < j < a.len() ==> a[i] != a[j]
}

/// A usable byte alphabet is a usable alphabet when read as characters.
pub proof fn lemma_byte_alpha_chars(a: Seq<u8>)
    requires
        byte_alpha_ok(a),
    ensures
        alpha_ok(ascii_chars_of(a)),
        ascii_chars_of(a).len() == a.len(),
        forall|d: int| 0 <= d < a.len() ==> #[trigger] ascii_chars_of(a)[d] == a[d] as char,
{
    let s = ascii_chars_of(a);
    assert forall|i: int, j: int| 0 <= i < j < s.len() implies s[i] != s[j] by {
        assert(a[i] != a[j]);
        assert((a[i] as char) as u32 == a[i] as u32);
        assert((a[j] as char) as u32 == a[j] as u32);
    }
}


/// An ASCII string of at most 255 distinct characters is a usable byte
/// alphabet, and its bytes read back as the same characters.
pub proof fn lemma_str_ascii_alpha(s: &str)
    requires
        vstd::string::is_ascii(s),
        alpha_ok(s@),
        s@.len() <= 255,
    ensures
        byte_alpha_ok(s.spec_bytes()),
        ascii_chars_of(s.spec_bytes()) == s@,
{
    vstd::string::is_ascii_spec_bytes(s);
    vstd::utf8::is_ascii_chars_nat_bound(s@);
    let bs = s.spec_bytes();
    assert(bs.len() == s@.len());
    assert forall|i: int| 0 <= i < bs.len() implies #[trigger] bs[i] < 128 by {
        assert((s@[i] as nat) < 128);
        assert(bs[i] == s@[i] as u8);
    }
    assert forall|i: int, j: int| 0 <= i < j < bs.len() implies bs[i] != bs[j] by {
        if bs[i] == bs[j] {
            assert(s@[i] as u8 == s@[j] as u8);
            assert(s@[i] as u32 == s@[j] as u32) by {
                assert((s@[i] as nat) < 128);
                assert((s@[j] as nat) < 128);
            }
            vstd::utf8::char_u32_cast(s@[i], s@[i] as u32);
            vstd::utf8::char_u32_cast(s@[j], s@[j] as u32);
        }
    }
    assert forall|i: int| 0 <= i < bs.len() implies #[trigger] ascii_chars_of(bs)[i] == s@[i] by {
        assert(bs[i] == s@[i] as u8);
        assert((s@[i] as nat) < 128);
        assert((bs[i] as char) as u32 == bs[i] as u32);
        assert(s@[i] as u32 == bs[i] as u32);
        vstd::utf8::char_u32_cast(s@[i], s@[i] as u32);
        vstd::utf8::char_u32_cast(bs[i] as char, bs[i] as u32);
    }
    assert(ascii_chars_of(bs) =~= s@);
}


/// There are only 128 ASCII characters, so a duplicate-free ASCII
/// alphabet always fits the byte lookup table.
pub proof fn lemma_ascii_alpha_small(s: Seq<char>)
    requires
        vstd::utf8::is_ascii_chars(s),
        distinct_symbols(s),
    ensures
        s.len() <= 128,
{
    let ints = s.map_values(|c: char| c as int);
    vstd::utf8::is_ascii_chars_nat_bound(s);
    assert(ints.no_duplicates()) by {
        assert forall|i: int, j: int|
            0 <= i < ints.len() && 0 <= j < ints.len() && i != j implies ints[i] != ints[j] by {
            if ints[i] == ints[j] {
                assert(s[i] as u32 == s[j] as u32);
                vstd::utf8::char_u32_cast(s[i], s[i] as u32);
                vstd::utf8::char_u32_cast(s[j], s[j] as u32);
                if i < j {
                    assert(s[i] != s[j]);
                } else {
                    assert(s[j] != s[i]);
                }
            }
        }
    }
    ints.unique_seq_to_set();
    assert(ints.to_set().subset_of(vstd::set_lib::set_int_range(0, 128))) by {
        assert forall|x: int|
            ints.to_set().contains(x) implies vstd::set_lib::set_int_range(0, 128).contains(
            x,
        ) by {
            let i = choose|i: int| 0 <= i < ints.len() && ints[i] == x;
            assert((s[i] as nat) < 128);
        }
    }
    vstd::set_lib::lemma_int_range(0, 128);
    vstd::set_lib::lemma_len_subset(ints.to_set(), vstd::set_lib::set_int_range(0, 128));
}

/// In a duplicate-free alphabet, the digit of the `d`-th symbol is `d`.
pub proof fn lemma_digit_of_index(symbols: Seq<char>, d: int)
    requires
        distinct_symbols(symbols),
        0 <= d < symbols.len(),
    ensures
        digit_of(symbols, symbols[d]) == d,
        symbols.contains(symbols[d]),
{
    let c = symbols[d];
    assert(symbols.contains(c));
    let i = symbols.index_of(c);
    assert(symbols[i] == c);
    if i < d {
        assert(symbols[i] != symbols[d]);
    }
    if d < i {
        assert(symbols[d] != symbols[i]);
    }
}

/// The digit of any contained character is a genuine index.
pub proof fn lemma_digit_of_contained(symbols: Seq<char>, c: char)
    requires
        symbols.contains(c),
    ensures
        0 <= digit_of(symbols, c) < symbols.len(),
        symbols[digit_of(symbols, c)] == c,
{
    let i = symbols.index_of(c);
    assert(symbols[i] == c);
}

/// The digits of a valid text are all below the base.
pub proof fn lemma_text_digits_below(symbols: Seq<char>, text: Seq<char>)
    requires
        text_ok(symbols, text),
    ensures
        digits_below(text_digits(symbols, text), symbols.len() as int),
        text_digits(symbols, text).len() == text.len(),
{
    let tds = text_digits(symbols, text);
    assert forall|i: int| 0 <= i < tds.len() implies 0 <= #[trigger] tds[i]
        < symbols.len() as int by {
        assert(symbols.contains(text[i]));
        lemma_digit_of_contained(symbols, text[i]);
    }
}

/// Encoding preserves leading zeros exactly: the text opens with one
/// zero symbol per leading zero byte of the input, and no more.
pub proof fn lemma_leading_zeros(symbols: Seq<char>, input: Seq<u8>)
    requires
        alpha_ok(symbols),
    ensures
        lead_run(encode_text(symbols, input), symbols[0]) == lead_run(input, 0u8),
{
    let b = symbols.len() as int;
    let k = lead_run(input, 0u8);
    let v = bytes_val(input);
    let t = encode_text(symbols, input);
    lemma_lead_run_bytes_props(input, 0u8);
    lemma_bytes_below(input);
    lemma_place_val_bound(byte_ints(input), 256);
    lemma_digits_of_props(v, b);
    let ds = digits_of(v, b);
    assert forall|i: int| 0 <= i < k implies #[trigger] t[i] == symbols[0] by {}
    if k < t.len() {
        assert(t[k] == symbols[ds[0]]);
        assert(ds[0] >= 1);
        assert(symbols[ds[0]] != symbols[0]);
    }
    lemma_lead_run_is(t, symbols[0], k);
}

/// Byte round trip: decoding an encoding gives back the input, for
/// every input and every usable alphabet.
pub proof fn lemma_round_trip_bytes(symbols: Seq<char>, input: Seq<u8>)
    requires
        alpha_ok(symbols),
    ensures
        text_ok(symbols, encode_text(symbols, input)),
        decode_bytes(symbols, encode_text(symbols, input)) == input,
{
    let b = symbols.len() as int;
    let k = lead_run(input, 0u8);
    let v = bytes_val(input);
    let t = encode_text(symbols, input);
    lemma_lead_run_bytes_props(input, 0u8);
    lemma_bytes_below(input);
    lemma_place_val_bound(byte_ints(input), 256);
    lemma_digits_of_props(v, b);
    let ds = digits_of(v, b);
    assert forall|i: int| 0 <= i < t.len() implies symbols.contains(#[trigger] t[i]) by {
        if i < k {
            lemma_digit_of_index(symbols, 0);
        } else {
            lemma_digit_of_index(symbols, ds[i - k]);
        }
    }
    lemma_leading_zeros(symbols, input);
    // the text reads back as the same digits
    let zq = Seq::new(k as nat, |i: int| 0int);
    assert forall|i: int| 0 <= i < t.len() implies #[trigger] text_digits(symbols, t)[i] == (zq
        + ds)[i] by {
        if i < k {
            lemma_digit_of_index(symbols, 0);
        } else {
            lemma_digit_of_index(symbols, ds[i - k]);
        }
    }
    assert(text_digits(symbols, t) =~= zq + ds);
    lemma_place_val_skip_zeros(zq + ds, b, k);
    assert((zq + ds).skip(k) =~= ds);
    assert(place_val(text_digits(symbols, t), b) == v);
    // the minimal bytes of the value are the input past its zero run
    let tail = input.skip(k);
    lemma_place_val_skip_zeros(byte_ints(input), 256, k);
    assert(byte_ints(input).skip(k) =~= byte_ints(tail));
    assert(v == place_val(byte_ints(tail), 256));
    lemma_bytes_below(tail);
    if k < input.len() {
        assert(byte_ints(tail)[0] == input[k] as int);
        assert(input[k] != 0);
    }
    lemma_digits_of_place_val(byte_ints(tail), 256);
    lemma_min_bytes(v);
    assert(min_bytes(v) =~= tail);
    assert(decode_bytes(symbols, t) =~= input);
}

/// Text round trip: encoding a decoding gives back the text, for every
/// text made of the alphabet's symbols.
pub proof fn lemma_round_trip_text(symbols: Seq<char>, text: Seq<char>)
    requires
        alpha_ok(symbols),
        text_ok(symbols, text),
    ensures
        encode_text(symbols, decode_bytes(symbols, text)) == text,
{
    let b = symbols.len() as int;
    let k = lead_run(text, symbols[0]);
    let tds = text_digits(symbols, text);
    let dv = place_val(tds, b);
    let bytes = decode_bytes(symbols, text);
    lemma_lead_run_props(text, symbols[0]);
    lemma_text_digits_below(symbols, text);
    // leading zero symbols carry digit zero, the first other symbol does not
    assert forall|i: int| 0 <= i < k implies #[trigger] tds[i] == 0 by {
        lemma_digit_of_index(symbols, 0);
        assert(text[i] == symbols[0]);
    }
    lemma_place_val_skip_zeros(tds, b, k);
    let rest = tds.skip(k);
    assert(dv == place_val(rest, b));
    if k < text.len() {
        lemma_digit_of_contained(symbols, text[k]);
        assert(rest[0] == tds[k]);
        assert(tds[k] >= 1) by {
            if tds[k] == 0 {
                assert(symbols[0] == text[k]);
            }
        }
    }
    assert(digits_below(rest, b));
    lemma_digits_of_place_val(rest, b);
    assert(digits_of(dv, b) == rest);
    lemma_min_bytes(dv);
    lemma_place_val_bound(rest, b);
    // the decoded bytes open with exactly `k` zero bytes
    assert forall|i: int| 0 <= i < k implies #[trigger] bytes[i] == 0u8 by {}
    if k < bytes.len() {
        assert(bytes[k] == min_bytes(dv)[0]);
        assert(dv > 0) by {
            if dv == 0 {
                lemma_digits_of_props(dv, b);
                assert(min_bytes(dv).len() == 0);
            }
        }
        assert(bytes[k] != 0u8);
    }
    lemma_lead_run_bytes_is(bytes, 0u8, k);
    // the decoded bytes carry the same value
    lemma_place_val_skip_zeros(byte_ints(bytes), 256, k);
    assert(byte_ints(bytes).skip(k) =~= byte_ints(min_bytes(dv)));
    assert(bytes_val(bytes) == dv);
    // reassemble the text
    let t2 = encode_text(symbols, bytes);
    assert forall|i: int| 0 <= i < t2.len() implies #[trigger] t2[i] == text[i] by {
        if i < k {
            assert(t2[i] == symbols[0]);
            assert(text[i] == symbols[0]);
        } else {
            assert(t2[i] == symbols[rest[i - k]]);
            assert(rest[i - k] == tds[i]);
            lemma_digit_of_contained(symbols, text[i]);
        }
    }
    assert(t2.len() == k + rest.len());
    assert(t2 =~= text);
}

/// The empty input encodes to the empty text, and back.
pub proof fn lemma_empty(symbols: Seq<char>)
    requires
        alpha_ok(symbols),
    ensures
        encode_text(symbols, Seq::empty()) == Seq::<char>::empty(),
        decode_bytes(symbols, Seq::empty()) == Seq::<u8>::empty(),
{
    lemma_digits_of_props(0, symbols.len() as int);
    lemma_min_bytes(0);
    assert(byte_ints(Seq::<u8>::empty()) =~= Seq::<int>::empty());
    assert(text_digits(symbols, Seq::empty()) =~= Seq::<int>::empty());
    assert(encode_text(symbols, Seq::empty()) =~= Seq::<char>::empty());
    assert(decode_bytes(symbols, Seq::empty()) =~= Seq::<u8>::empty());
}

/// An all-zero input of length `n` encodes to the zero symbol repeated
/// `n` times.
pub proof fn lemma_all_zeros(symbols: Seq<char>, n: nat)
    requires
        alpha_ok(symbols),
    ensures
        encode_text(symbols, Seq::new(n, |i: int| 0u8)) == Seq::new(n, |i: int| symbols[0]),
{
    let zs = Seq::new(n, |i: int| 0u8);
    crate::num::lemma_place_val_zeros(byte_ints(zs), 256);
    lemma_digits_of_props(0, symbols.len() as int);
    crate::num::lemma_lead_run_bytes_is(zs, 0u8, n as int);
    assert(encode_text(symbols, zs) =~= Seq::new(n, |i: int| symbols[0]));
}

} // verus!
