//! The alphabet abstraction: one contract, two strategies. A byte
//! slice is a fast ASCII alphabet with table lookup; a string slice is
//! a Unicode alphabet, dispatched once per call to the table when it
//! is ASCII and small enough, and to a linear scan otherwise.
use vstd::prelude::*;
use vstd::arithmetic::power::pow;
use vstd::string::StringSliceAdditionalSpecFns;
use vstd::string::StrSliceExecFns;
use crate::decoder::{bytes_from_digits, bytes_into_buffer, scan_text, CharDecoder, Lookup, U8Decoder};
use crate::encoder::{encode_ascii, encode_into, encode_uni};
use crate::model::{
    alpha_ok, ascii_chars_of, byte_alpha_ok, decode_bytes, encode_text, lemma_byte_alpha_chars,
    lemma_str_ascii_alpha, lemma_text_digits_below, text_digits, text_ok,
};
use crate::num::{chunk_radix, place_val};
use crate::DecodeError;

verus! {

/// An ordered sequence of unique symbols; its length is the radix and
/// its first symbol stands both for the digit zero and for a leading
/// zero byte.
pub trait Alphabet: Sized + Copy {
    /// The symbols, in digit order.
    spec fn symbols(self) -> Seq<char>;

    /// What this value must satisfy to act as an alphabet.
    spec fn wf(self) -> bool;

    /// What it must satisfy in addition for the fixed-capacity paths,
    /// which write symbols as single bytes.
    spec fn wf_fixed(self) -> bool;

    proof fn lemma_wf(self)
        requires
            self.wf(),
        ensures
            alpha_ok(self.symbols()),
    ;

    /// Encode `input` as text over this alphabet.
    fn encode(self, input: &[u8]) -> (r: String)
        requires
            self.wf(),
        ensures
            r@ == encode_text(self.symbols(), input@),
    ;

    /// Decode `input` back to bytes; fails exactly when some character
    /// of `input` is not a symbol of this alphabet.
    fn decode(self, input: &str) -> (r: Result<Vec<u8>, DecodeError>)
        requires
            self.wf(),
        ensures
            r is Ok <==> text_ok(self.symbols(), input@),
            r is Ok ==> r.unwrap()@ == decode_bytes(self.symbols(), input@),
    ;

    /// Encode into a caller buffer of exactly the encoded length, with
    /// no allocation, through a `BACKING`-chunk integer. Fails, leaving
    /// the buffer untouched, when the input needs more chunks or the
    /// buffer length is wrong.
    fn encode_mut<const BACKING: usize>(self, output: &mut [u8], input: &[u8]) -> (r: Result<
        (),
        (),
    >)
        requires
            self.wf(),
            self.wf_fixed(),
            BACKING <= usize::MAX / 32,
        ensures
            r is Ok <==> input@.len() <= 4 * (BACKING as int) && old(output)@.len() == encode_text(
                self.symbols(),
                input@,
            ).len(),
            r is Ok ==> ascii_chars_of(final(output)@) == encode_text(self.symbols(), input@),
            r is Err ==> final(output)@ == old(output)@,
    ;

    /// Decode into a caller buffer of exactly the decoded length, with
    /// no allocation, through a `BACKING`-chunk integer. Fails, leaving
    /// the buffer untouched, on a symbol outside the alphabet, a value
    /// needing more chunks, or a buffer length that is wrong.
    fn decode_mut<const BACKING: usize>(self, output: &mut [u8], input: &str) -> (r: Result<
        (),
        DecodeError,
    >)
        requires
            self.wf(),
            self.wf_fixed(),
            BACKING <= usize::MAX / 32,
        ensures
            r is Ok <==> text_ok(self.symbols(), input@) && place_val(
                text_digits(self.symbols(), input@),
                self.symbols().len() as int,
            ) < pow(chunk_radix(), BACKING as nat) && old(output)@.len() == decode_bytes(
                self.symbols(),
                input@,
            ).len(),
            r is Ok ==> final(output)@ == decode_bytes(self.symbols(), input@),
            r is Err ==> final(output)@ == old(output)@,
    ;
}

impl<'a> Alphabet for &'a [u8] {
    open spec fn symbols(self) -> Seq<char> {
        ascii_chars_of(self@)
    }

    open spec fn wf(self) -> bool {
        byte_alpha_ok(self@)
    }

    open spec fn wf_fixed(self) -> bool {
        true
    }

    proof fn lemma_wf(self) {
        lemma_byte_alpha_chars(self@);
    }

    fn encode(self, input: &[u8]) -> (r: String) {
        encode_ascii(self, input)
    }

    fn decode(self, input: &str) -> (r: Result<Vec<u8>, DecodeError>) {
        proof {
            lemma_byte_alpha_chars(self@);
        }
        let dec = U8Decoder::new(self);
        let (ds, leaders) = match scan_text(&Lookup::Table(&dec), input) {
            Ok(p) => p,
            Err(e) => {
                return Err(e);
            },
        };
        proof {
            lemma_text_digits_below(self.symbols(), input@);
            assert forall|i: int| 0 <= i < ds@.len() implies (#[trigger] ds@[i] as int)
                < self.symbols().len() as int by {
                assert(ds@.map_values(|d: u32| d as int)[i] == ds@[i] as int);
            }
        }
        let base = self.len() as u32;
        Ok(bytes_from_digits(base, &ds, leaders))
    }

    fn encode_mut<const BACKING: usize>(self, output: &mut [u8], input: &[u8]) -> (r: Result<
        (),
        (),
    >) {
        encode_into::<BACKING>(self, output, input)
    }

    fn decode_mut<const BACKING: usize>(self, output: &mut [u8], input: &str) -> (r: Result<
        (),
        DecodeError,
    >) {
        proof {
            lemma_byte_alpha_chars(self@);
        }
        let dec = U8Decoder::new(self);
        let (ds, leaders) = match scan_text(&Lookup::Table(&dec), input) {
            Ok(p) => p,
            Err(e) => {
                return Err(e);
            },
        };
        proof {
            lemma_text_digits_below(self.symbols(), input@);
            assert forall|i: int| 0 <= i < ds@.len() implies (#[trigger] ds@[i] as int)
                < self.symbols().len() as int by {
                assert(ds@.map_values(|d: u32| d as int)[i] == ds@[i] as int);
            }
        }
        let base = self.len() as u32;
        bytes_into_buffer::<BACKING>(base, &ds, leaders, output)
    }
}

impl<'a> Alphabet for &'a str {
    open spec fn symbols(self) -> Seq<char> {
        self@
    }

    /// At least two distinct symbols, few enough that a digit fits a
    /// `u32`.
    open spec fn wf(self) -> bool {
        &&& alpha_ok(self@)
        &&& self@.len() <= u32::MAX
    }

    /// The fixed-capacity paths write one byte per symbol, so the
    /// alphabet must be ASCII.
    open spec fn wf_fixed(self) -> bool {
        vstd::string::is_ascii(self)
    }

    proof fn lemma_wf(self) {
    }

    fn encode(self, input: &[u8]) -> (r: String) {
        if self.is_ascii() && self.len() <= 255 {
            proof {
                lemma_str_ascii_alpha(self);
            }
            encode_ascii(self.as_bytes(), input)
        } else {
            let chars = collect_chars(self);
            encode_uni(&chars, input)
        }
    }

    fn decode(self, input: &str) -> (r: Result<Vec<u8>, DecodeError>) {
        if self.is_ascii() && self.len() <= 255 {
            proof {
                lemma_str_ascii_alpha(self);
            }
            let dec = U8Decoder::new(self.as_bytes());
            match scan_text(&Lookup::Table(&dec), input) {
                Ok((ds, leaders)) => {
                    proof {
                        lemma_text_digits_below(self@, input@);
                        assert forall|i: int| 0 <= i < ds@.len() implies (#[trigger] ds@[i] as int)
                            < self@.len() as int by {
                            assert(ds@.map_values(|d: u32| d as int)[i] == ds@[i] as int);
                        }
                    }
                    let base = self.len() as u32;
                    Ok(bytes_from_digits(base, &ds, leaders))
                },
                Err(e) => Err(e),
            }
        } else {
            let chars = collect_chars(self);
            let dec = CharDecoder(chars.as_slice());
            match scan_text(&Lookup::Scan(&dec), input) {
                Ok((ds, leaders)) => {
                    proof {
                        lemma_text_digits_below(self@, input@);
                        assert forall|i: int| 0 <= i < ds@.len() implies (#[trigger] ds@[i] as int)
                            < self@.len() as int by {
                            assert(ds@.map_values(|d: u32| d as int)[i] == ds@[i] as int);
                        }
                    }
                    let base = chars.len() as u32;
                    Ok(bytes_from_digits(base, &ds, leaders))
                },
                Err(e) => Err(e),
            }
        }
    }

    fn encode_mut<const BACKING: usize>(self, output: &mut [u8], input: &[u8]) -> (r: Result<
        (),
        (),
    >) {
        proof {
            crate::model::lemma_ascii_alpha_small(self@);
            lemma_str_ascii_alpha(self);
        }
        encode_into::<BACKING>(self.as_bytes(), output, input)
    }

    fn decode_mut<const BACKING: usize>(self, output: &mut [u8], input: &str) -> (r: Result<
        (),
        DecodeError,
    >) {
        proof {
            crate::model::lemma_ascii_alpha_small(self@);
            lemma_str_ascii_alpha(self);
        }
        let dec = U8Decoder::new(self.as_bytes());
        let (ds, leaders) = match scan_text(&Lookup::Table(&dec), input) {
            Ok(p) => p,
            Err(e) => {
                return Err(e);
            },
        };
        proof {
            lemma_text_digits_below(self@, input@);
            assert forall|i: int| 0 <= i < ds@.len() implies (#[trigger] ds@[i] as int)
                < self@.len() as int by {
                assert(ds@.map_values(|d: u32| d as int)[i] == ds@[i] as int);
            }
        }
        let base = self.len() as u32;
        bytes_into_buffer::<BACKING>(base, &ds, leaders, output)
    }
}

/// The characters of a string, in order, as a vector.
fn collect_chars(s: &str) -> (r: Vec<char>)
    ensures
        r@ == s@,
{
    let n = s.unicode_len();
    let mut out: Vec<char> = Vec::new();
    let mut i: usize = 0;
    while i < n
        invariant
            0 <= i <= n,
            n == s@.len(),
            out@ == s@.take(i as int),
        decreases n - i,
    {
        out.push(s.get_char(i));
        proof {
            assert(out@ =~= s@.take(i + 1));
        }
        i += 1;
    }
    proof {
        assert(s@.take(n as int) =~= s@);
    }
    out
}

} // verus!
