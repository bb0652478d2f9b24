//! Encoding: from bytes to text over an alphabet.
//!
//! The charset of an encoder has at least 65 characters. Its first 64 are
//! the data symbols, one for each six-bit index, and its last one is the pad
//! character, which fills the final group where the payload ends early.

use crate::charset::Charset;
use crate::packing::{lemma_triple_index_bound, pack_triple, triple_index, DATA_SYMBOLS};
use vstd::prelude::*;

verus! {

/// Why a payload was not encoded.
#[derive(Debug, Clone, Copy, PartialEq, Eq, Structural)]
pub enum EncodeError {
    /// The charset holds a character at more than one position.
    CharsetError,
    /// The charset has no character beyond its 64 data symbols to pad with.
    PadError,
}

/// The encoder.
pub struct Encode;

/// The charset has a character beyond its data symbols.
pub open spec fn has_pad(charset: Seq<char>) -> bool {
    charset.len() > DATA_SYMBOLS
}

/// The pad character of a charset: its last character.
pub open spec fn pad(charset: Seq<char>) -> char {
    charset[charset.len() - 1]
}

/// The byte of `payload` at `i`, and zero past its end.
pub open spec fn byte_or_zero(payload: Seq<u8>, i: int) -> u8 {
    if 0 <= i < payload.len() {
        payload[i]
    } else {
        0
    }
}

/// Index `k` (0 to 3) of group `g` of `payload`: the group's three bytes,
/// with zero for a byte past the end, packed into four six-bit indices.
pub open spec fn group_index(payload: Seq<u8>, g: int, k: int) -> int {
    triple_index(
        byte_or_zero(payload, g * 3),
        byte_or_zero(payload, g * 3 + 1),
        byte_or_zero(payload, g * 3 + 2),
        k,
    )
}

/// Symbol `k` of group `g` carries data: it is the first of its group, or
/// the byte before it in the group is there. (Symbol `k` holds the low bits
/// of byte `k - 1` and the high bits of byte `k`.)
pub open spec fn carries_data(payload: Seq<u8>, g: int, k: int) -> bool {
    g * 3 + k <= payload.len()
}

/// The character at place `j` of the encoding of `payload`.
pub open spec fn symbol(charset: Seq<char>, payload: Seq<u8>, j: int) -> char {
    if carries_data(payload, j / 4, j % 4) {
        charset[group_index(payload, j / 4, j % 4)]
    } else {
        pad(charset)
    }
}

/// The number of groups of three that `len` bytes make, the last one
/// perhaps incomplete.
pub open spec fn groups(len: int) -> int {
    (len + 2) / 3
}

/// The encoding of `payload` over `charset`: four characters for each group
/// of three bytes.
pub open spec fn encoded(charset: Seq<char>, payload: Seq<u8>) -> Seq<char> {
    Seq::new((groups(payload.len() as int) * 4) as nat, |j: int| symbol(charset, payload, j))
}

/// An encoding has four characters for each group of its payload, and each
/// is a character of the charset: a data symbol, or the pad where nothing
/// is left to carry.
pub proof fn lemma_encoded_shape(charset: Seq<char>, payload: Seq<u8>)
    requires
        has_pad(charset),
    ensures
        encoded(charset, payload).len() == groups(payload.len() as int) * 4,
        encoded(charset, payload).len() % 4 == 0,
        forall|j: int|
            0 <= j < encoded(charset, payload).len() ==> charset.contains(
                #[trigger] encoded(charset, payload)[j],
            ),
{
    let text = encoded(charset, payload);
    assert forall|j: int| 0 <= j < text.len() implies charset.contains(#[trigger] text[j]) by {
        let g = j / 4;
        let k = j % 4;
        lemma_triple_index_bound(
            byte_or_zero(payload, g * 3),
            byte_or_zero(payload, g * 3 + 1),
            byte_or_zero(payload, g * 3 + 2),
            k,
        );
        if carries_data(payload, g, k) {
            assert(text[j] == charset[group_index(payload, g, k)]);
        } else {
            assert(text[j] == charset[charset.len() - 1]);
        }
    }
}

impl Encode {
    /// What encoding `payload` over `charset` gives.
    ///
    /// An unsafe charset is an error before anything else, and one without
    /// a pad character the next.
    pub open spec fn spec_execute(charset: Seq<char>, payload: Seq<u8>) -> Result<
        Seq<char>,
        EncodeError,
    > {
        if !Charset::is_safe(charset) {
            Err(EncodeError::CharsetError)
        } else if !has_pad(charset) {
            Err(EncodeError::PadError)
        } else {
            Ok(encoded(charset, payload))
        }
    }

    /// An outcome of the encoder agrees with what the model gives: the same
    /// error, or a string of the same characters.
    pub open spec fn agrees(
        r: Result<String, EncodeError>,
        model: Result<Seq<char>, EncodeError>,
    ) -> bool {
        match r {
            Ok(text) => model == Ok::<Seq<char>, EncodeError>(text@),
            Err(e) => model == Err::<Seq<char>, EncodeError>(e),
        }
    }

    /// Appends the character at `at` of `charset` to `out`.
    fn push_symbol(out: &mut String, charset: &str, at: usize)
        requires
            at < charset@.len() <= usize::MAX,
        ensures
            final(out)@ == old(out)@.push(charset@[at as int]),
    {
        let one = charset.substring_char(at, at + 1);
        out.append(one);
        assert(out@ =~= old(out)@.push(charset@[at as int]));
    }

    /// Encodes `payload` over `charset`: every three bytes become the four
    /// data symbols at the indices they pack to, and a final group of one or
    /// two bytes becomes two or three data symbols and the pad character
    /// twice or once.
    ///
    /// The first 64 characters of the charset are the data symbols, and its
    /// last character is the pad. Fails on an unsafe charset, and on one of
    /// fewer than 65 characters, which has no pad.
    pub fn execute(charset: &str, payload: &[u8]) -> (r: Result<String, EncodeError>)
        ensures
            Self::agrees(r, Self::spec_execute(charset@, payload@)),
            r == Err::<String, EncodeError>(EncodeError::CharsetError) <==> !Charset::is_safe(
                charset@,
            ),
            r == Err::<String, EncodeError>(EncodeError::PadError) <==> (Charset::is_safe(charset@)
                && !has_pad(charset@)),
            r is Ok ==> r->Ok_0@ == encoded(charset@, payload@),
            r is Ok ==> r->Ok_0@.len() % 4 == 0,
            r is Ok ==> forall|j: int|
                0 <= j < r->Ok_0@.len() ==> charset@.contains(#[trigger] r->Ok_0@[j]),
    {
        if !Charset::judge_charset_safe(charset) {
            return Err(EncodeError::CharsetError);
        }
        let alphabet: usize = charset.unicode_len();
        if alphabet <= DATA_SYMBOLS {
            return Err(EncodeError::PadError);
        }
        let pad_at: usize = alphabet - 1;
        let len: usize = payload.len();
        let count: usize = if len % 3 == 0 {
            len / 3
        } else {
            len / 3 + 1
        };
        let mut out = String::new();
        let mut g: usize = 0;
        while g < count
            invariant
                alphabet == charset@.len(),
                alphabet > DATA_SYMBOLS,
                pad_at == alphabet - 1,
                len == payload@.len(),
                count == groups(len as int),
                g <= count,
                out@ == encoded(charset@, payload@).take(g * 4),
            decreases count - g,
        {
            let at: usize = g * 3;
            let rest: usize = len - at;
            let b0: u8 = payload[at];
            let b1: u8 = if rest > 1 {
                payload[at + 1]
            } else {
                0
            };
            let b2: u8 = if rest > 2 {
                payload[at + 2]
            } else {
                0
            };
            let quad = pack_triple(b0, b1, b2);
            Self::push_symbol(&mut out, charset, quad[0]);
            Self::push_symbol(&mut out, charset, quad[1]);
            Self::push_symbol(&mut out, charset, if rest > 1 {
                quad[2]
            } else {
                pad_at
            });
            Self::push_symbol(&mut out, charset, if rest > 2 {
                quad[3]
            } else {
                pad_at
            });
            proof {
                let text = encoded(charset@, payload@);
                let first = g * 4;
                assert(b0 == byte_or_zero(payload@, g * 3));
                assert(b1 == byte_or_zero(payload@, g * 3 + 1));
                assert(b2 == byte_or_zero(payload@, g * 3 + 2));
                assert(text[first] == symbol(charset@, payload@, first));
                assert(text[first + 1] == symbol(charset@, payload@, first + 1));
                assert(text[first + 2] == symbol(charset@, payload@, first + 2));
                assert(text[first + 3] == symbol(charset@, payload@, first + 3));
                assert(out@ =~= text.take(first + 4));
            }
            g += 1;
        }
        proof {
            lemma_encoded_shape(charset@, payload@);
            assert(encoded(charset@, payload@).take(count * 4) =~= encoded(charset@, payload@));
        }
        Ok(out)
    }
}

} // verus!
