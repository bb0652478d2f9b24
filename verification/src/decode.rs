//! Decoding: from text over an alphabet back to the bytes, and the text,
//! that it stands for.

use crate::charset::Charset;
use crate::packing::{quad_byte, unpack_quad};
use crate::text::{text_of, text_or_empty};
use vstd::prelude::*;

verus! {

/// Why a text was not decoded.
#[derive(Debug, Clone, Copy, PartialEq, Eq, Structural)]
pub enum DecodeError {
    /// The charset holds a character at more than one position.
    CharsetError,
    /// Strict mode only: indices were left over after the last full group
    /// of four.
    Truncated,
    /// Strict mode only: a decoded byte is zero and would have been dropped.
    ZeroByte,
}

/// How much a decoder forgives.
#[derive(Debug, Clone, Copy, PartialEq, Eq, Structural)]
pub enum DecodeMode {
    /// Leftover indices and zero bytes are dropped in silence.
    Lenient,
    /// Leftover indices and zero bytes are reported as errors.
    Strict,
}

/// The decoder.
pub struct Decode;

/// The positions in `charset`, in arrival order, of those characters of
/// `text` that `charset` holds. A character that it does not hold leaves
/// no trace.
pub open spec fn indices(charset: Seq<char>, text: Seq<char>) -> Seq<int> {
    text.filter_map(|c: char| Charset::spec_position(charset, c))
}

/// The bytes that a sequence of indices unpacks to: three for every full
/// group of four indices, and none for what is left over at the end.
pub open spec fn unpack(found: Seq<int>) -> Seq<u8> {
    Seq::new(
        (found.len() / 4 * 3) as nat,
        |j: int|
            quad_byte(
                found[j / 3 * 4],
                found[j / 3 * 4 + 1],
                found[j / 3 * 4 + 2],
                found[j / 3 * 4 + 3],
                j % 3,
            ),
    )
}

/// The bytes that are kept: all but the zero bytes, wherever they stand.
pub open spec fn kept_bytes(bytes: Seq<u8>) -> Seq<u8> {
    bytes.filter(|b: u8| b != 0)
}

/// The bytes that `text` decodes to over `charset`, before any is dropped.
pub open spec fn decoded_bytes(charset: Seq<char>, text: Seq<char>) -> Seq<u8> {
    unpack(indices(charset, text))
}

/// Scanning one more character adds its position where it has one.
pub proof fn lemma_indices_push(charset: Seq<char>, text: Seq<char>, c: char)
    ensures
        indices(charset, text.push(c)) == match Charset::spec_position(charset, c) {
            Some(i) => indices(charset, text).push(i),
            None => indices(charset, text),
        },
{
    assert(text.push(c).drop_last() =~= text);
    match Charset::spec_position(charset, c) {
        Some(i) => {
            assert(indices(charset, text) + seq![i] =~= indices(charset, text).push(i));
        },
        None => {},
    }
}

/// One more index changes nothing until it completes a group of four, and
/// then adds the three bytes of that group.
pub proof fn lemma_unpack_push(found: Seq<int>, i: int)
    ensures
        unpack(found.push(i)) == if found.len() % 4 == 3 {
            let n = found.len() - 3;
            unpack(found).push(quad_byte(found[n], found[n + 1], found[n + 2], i, 0)).push(
                quad_byte(found[n], found[n + 1], found[n + 2], i, 1),
            ).push(quad_byte(found[n], found[n + 1], found[n + 2], i, 2))
        } else {
            unpack(found)
        },
{
    let more = found.push(i);
    if found.len() % 4 == 3 {
        let n = found.len() - 3;
        let b0 = quad_byte(found[n], found[n + 1], found[n + 2], i, 0);
        let b1 = quad_byte(found[n], found[n + 1], found[n + 2], i, 1);
        let b2 = quad_byte(found[n], found[n + 1], found[n + 2], i, 2);
        assert(unpack(more) =~= unpack(found).push(b0).push(b1).push(b2));
    } else {
        assert(unpack(more) =~= unpack(found));
    }
}

/// Dropping zero bytes from one more byte.
pub proof fn lemma_kept_bytes_push(bytes: Seq<u8>, b: u8)
    ensures
        kept_bytes(bytes.push(b)) == if b != 0 {
            kept_bytes(bytes).push(b)
        } else {
            kept_bytes(bytes)
        },
{
    bytes.lemma_filter_push(b, |b: u8| b != 0);
}

/// Every index that is found is a position of the charset.
pub proof fn lemma_indices_in_range(charset: Seq<char>, text: Seq<char>)
    ensures
        forall|k: int|
            0 <= k < indices(charset, text).len() ==> 0 <= #[trigger] indices(charset, text)[k]
                < charset.len(),
        indices(charset, text).len() <= text.len(),
    decreases text.len(),
{
    if text.len() > 0 {
        let c = text.last();
        lemma_indices_in_range(charset, text.drop_last());
        assert(text =~= text.drop_last().push(c));
        lemma_indices_push(charset, text.drop_last(), c);
        if charset.contains(c) {
            Charset::lemma_position_exists(charset, c);
        }
    }
}

/// Scanning two texts one after the other finds the positions of the first
/// and then those of the second.
pub proof fn lemma_indices_concat(charset: Seq<char>, a: Seq<char>, b: Seq<char>)
    ensures
        indices(charset, a + b) == indices(charset, a) + indices(charset, b),
    decreases b.len(),
{
    if b.len() == 0 {
        assert(a + b =~= a);
        assert(indices(charset, a) + indices(charset, b) =~= indices(charset, a));
    } else {
        let c = b.last();
        assert(a + b =~= (a + b.drop_last()).push(c));
        assert(b =~= b.drop_last().push(c));
        lemma_indices_concat(charset, a, b.drop_last());
        lemma_indices_push(charset, a + b.drop_last(), c);
        lemma_indices_push(charset, b.drop_last(), c);
        match Charset::spec_position(charset, c) {
            Some(i) => {
                assert((indices(charset, a) + indices(charset, b.drop_last())).push(i) =~= indices(
                    charset,
                    a,
                ) + indices(charset, b.drop_last()).push(i));
            },
            None => {},
        }
    }
}

/// Text that is made of the characters at the given positions of a safe
/// charset is found at exactly those positions.
pub proof fn lemma_indices_of_symbols(charset: Seq<char>, text: Seq<char>, at: Seq<int>)
    requires
        Charset::is_safe(charset),
        at.len() == text.len(),
        forall|j: int| 0 <= j < text.len() ==> 0 <= #[trigger] at[j] < charset.len(),
        forall|j: int| 0 <= j < text.len() ==> #[trigger] text[j] == charset[at[j]],
    ensures
        indices(charset, text) == at,
    decreases text.len(),
{
    if text.len() == 0 {
        assert(indices(charset, text) =~= at);
    } else {
        let n = text.len() - 1;
        assert(0 <= at[n] < charset.len());
        assert(text[n] == charset[at[n]]);
        let head = text.drop_last();
        let head_at = at.drop_last();
        assert forall|j: int| 0 <= j < n implies #[trigger] head[j] == charset[head_at[j]] by {
            assert(text[j] == charset[at[j]]);
        }
        assert forall|j: int| 0 <= j < n implies 0 <= #[trigger] head_at[j] < charset.len() by {
            assert(0 <= at[j] < charset.len());
        }
        lemma_indices_of_symbols(charset, head, head_at);
        Charset::lemma_safe_position(charset, at[n]);
        assert(text =~= text.drop_last().push(text[n]));
        lemma_indices_push(charset, text.drop_last(), text[n]);
        assert(at =~= at.drop_last().push(at[n]));
    }
}

/// The bytes that are kept hold no zero byte.
pub proof fn lemma_kept_bytes_nonzero(bytes: Seq<u8>)
    ensures
        forall|i: int| 0 <= i < kept_bytes(bytes).len() ==> #[trigger] kept_bytes(bytes)[i] != 0,
{
    assert forall|i: int| 0 <= i < kept_bytes(bytes).len() implies #[trigger] kept_bytes(bytes)[i]
        != 0 by {
        bytes.lemma_filter_pred(|b: u8| b != 0, i);
    }
}

/// Bytes without a zero byte are all kept.
pub proof fn lemma_kept_bytes_all(bytes: Seq<u8>)
    requires
        forall|i: int| 0 <= i < bytes.len() ==> bytes[i] != 0,
    ensures
        kept_bytes(bytes) == bytes,
    decreases bytes.len(),
{
    if bytes.len() == 0 {
        reveal(Seq::filter);
        assert(kept_bytes(bytes) =~= bytes);
    } else {
        lemma_kept_bytes_all(bytes.drop_last());
        lemma_kept_bytes_push(bytes.drop_last(), bytes.last());
        assert(bytes =~= bytes.drop_last().push(bytes.last()));
    }
}

/// A zero byte is dropped wherever it stands, and what stands around it
/// closes up.
pub proof fn lemma_zero_byte_dropped(before: Seq<u8>, after: Seq<u8>)
    ensures
        kept_bytes(before + seq![0u8] + after) == kept_bytes(before) + kept_bytes(after),
{
    let nonzero = |b: u8| b != 0;
    Seq::filter_distributes_over_add(before + seq![0u8], after, nonzero);
    Seq::filter_distributes_over_add(before, seq![0u8], nonzero);
    assert(seq![0u8].filter(nonzero) =~= Seq::<u8>::empty()) by {
        lemma_kept_bytes_push(Seq::<u8>::empty(), 0u8);
        assert(Seq::<u8>::empty().push(0u8) =~= seq![0u8]);
        lemma_kept_bytes_all(Seq::<u8>::empty());
    }
    assert(kept_bytes(before) + Seq::<u8>::empty() =~= kept_bytes(before));
}

impl Decode {
    /// What decoding `text` over `charset` gives in `mode`.
    ///
    /// An unsafe charset is an error before anything else. In strict mode
    /// leftover indices are the next error, and a zero byte among the
    /// decoded bytes the one after. Otherwise the decoded bytes, less the
    /// zero bytes, are read as text.
    pub open spec fn spec_execute_with(
        charset: Seq<char>,
        text: Seq<char>,
        mode: DecodeMode,
    ) -> Result<Seq<char>, DecodeError> {
        let found = indices(charset, text);
        if !Charset::is_safe(charset) {
            Err(DecodeError::CharsetError)
        } else if mode == DecodeMode::Strict && found.len() % 4 != 0 {
            Err(DecodeError::Truncated)
        } else if mode == DecodeMode::Strict && unpack(found).contains(0u8) {
            Err(DecodeError::ZeroByte)
        } else {
            Ok(text_of(kept_bytes(unpack(found))))
        }
    }

    /// What decoding `text` over `charset` gives.
    pub open spec fn spec_execute(charset: Seq<char>, text: Seq<char>) -> Result<
        Seq<char>,
        DecodeError,
    > {
        Self::spec_execute_with(charset, text, DecodeMode::Lenient)
    }

    /// An outcome of the decoder agrees with what the model gives: the same
    /// error, or a string of the same characters.
    pub open spec fn agrees(
        r: Result<String, DecodeError>,
        model: Result<Seq<char>, DecodeError>,
    ) -> bool {
        match r {
            Ok(text) => model == Ok::<Seq<char>, DecodeError>(text@),
            Err(e) => model == Err::<Seq<char>, DecodeError>(e),
        }
    }

    /// Scans `text` and unpacks every full group of four indices. Returns
    /// the bytes and the number of indices left over.
    pub fn unpack_text(symbols: &Vec<char>, text: &str) -> (r: (Vec<u8>, usize))
        ensures
            r.0@ == decoded_bytes(symbols@, text@),
            r.1 == indices(symbols@, text@).len() % 4,
    {
        let mut buffer: Vec<usize> = Vec::new();
        let mut decoded: Vec<u8> = Vec::new();
        let ghost mut found: Seq<int> = Seq::empty();
        for c in it: text.chars()
            invariant
                it.seq() == text@,
                found == indices(symbols@, text@.take(it.index() as int)),
                decoded@ == unpack(found),
                buffer.len() == found.len() % 4,
                forall|k: int|
                    0 <= k < buffer.len() ==> buffer[k] as int == found[found.len() - buffer.len()
                        + k],
        {
            proof {
                let n = it.index() as int;
                assert(text@.take(n + 1) =~= text@.take(n).push(c));
                lemma_indices_push(symbols@, text@.take(n), c);
            }
            if let Some(i) = Charset::position(symbols, c) {
                proof {
                    lemma_unpack_push(found, i as int);
                    found = found.push(i as int);
                }
                buffer.push(i);
            }
            if buffer.len() == 4 {
                let bytes = unpack_quad(buffer[0], buffer[1], buffer[2], buffer[3]);
                decoded.push(bytes[0]);
                decoded.push(bytes[1]);
                decoded.push(bytes[2]);
                buffer.clear();
            }
        }
        assert(text@.take(text@.len() as int) =~= text@);
        (decoded, buffer.len())
    }

    /// Copies `bytes` without its zero bytes.
    pub fn strip_zeros(bytes: &Vec<u8>) -> (kept: Vec<u8>)
        ensures
            kept@ == kept_bytes(bytes@),
            kept.len() == bytes.len() <==> !bytes@.contains(0u8),
    {
        let mut kept: Vec<u8> = Vec::new();
        let mut i: usize = 0;
        assert(kept_bytes(bytes@.take(0)) =~= Seq::<u8>::empty()) by {
            reveal(Seq::filter);
        }
        while i < bytes.len()
            invariant
                i <= bytes.len(),
                kept@ == kept_bytes(bytes@.take(i as int)),
                kept.len() <= i,
                kept.len() == i <==> forall|j: int| 0 <= j < i ==> bytes@[j] != 0,
            decreases bytes.len() - i,
        {
            proof {
                assert(bytes@.take(i + 1) =~= bytes@.take(i as int).push(bytes@[i as int]));
                lemma_kept_bytes_push(bytes@.take(i as int), bytes@[i as int]);
            }
            if bytes[i] != 0 {
                kept.push(bytes[i]);
            }
            i += 1;
        }
        assert(bytes@.take(bytes@.len() as int) =~= bytes@);
        kept
    }

    /// Decodes `decode_str` over `charset` in the given mode.
    ///
    /// In lenient mode this is `execute`. In strict mode what `execute`
    /// would drop in silence is an error instead: indices left over after
    /// the last full group of four, and a zero byte among the decoded bytes.
    pub fn execute_with(charset: &str, decode_str: &str, mode: DecodeMode) -> (r: Result<
        String,
        DecodeError,
    >)
        ensures
            Self::agrees(r, Self::spec_execute_with(charset@, decode_str@, mode)),
            r == Err::<String, DecodeError>(DecodeError::CharsetError) <==> !Charset::is_safe(
                charset@,
            ),
            r == Err::<String, DecodeError>(DecodeError::Truncated) <==> (Charset::is_safe(charset@)
                && mode == DecodeMode::Strict && indices(charset@, decode_str@).len() % 4 != 0),
            r == Err::<String, DecodeError>(DecodeError::ZeroByte) <==> (Charset::is_safe(charset@)
                && mode == DecodeMode::Strict && indices(charset@, decode_str@).len() % 4 == 0
                && decoded_bytes(charset@, decode_str@).contains(0u8)),
            r is Ok ==> r->Ok_0@ == text_of(kept_bytes(decoded_bytes(charset@, decode_str@))),
    {
        if !Charset::judge_charset_safe(charset) {
            return Err(DecodeError::CharsetError);
        }
        let strict: bool = match mode {
            DecodeMode::Strict => true,
            DecodeMode::Lenient => false,
        };
        let symbols = Charset::symbols(charset);
        let (decoded, left_over) = Self::unpack_text(&symbols, decode_str);
        if strict && left_over != 0 {
            return Err(DecodeError::Truncated);
        }
        let kept = Self::strip_zeros(&decoded);
        if strict && kept.len() != decoded.len() {
            return Err(DecodeError::ZeroByte);
        }
        Ok(text_or_empty(kept))
    }

    /// Decodes `decode_str` over `charset`: each character that the charset
    /// holds counts as its position there, every four positions unpack to
    /// three bytes, and the bytes that are not zero are read as text.
    ///
    /// Fails only on an unsafe charset. The result is a function of the two
    /// arguments alone.
    pub fn execute(charset: &str, decode_str: &str) -> (r: Result<String, DecodeError>)
        ensures
            r is Ok <==> Charset::is_safe(charset@),
            r is Err ==> r->Err_0 == DecodeError::CharsetError,
            r is Ok ==> r->Ok_0@ == text_of(kept_bytes(decoded_bytes(charset@, decode_str@))),
            Self::agrees(r, Self::spec_execute(charset@, decode_str@)),
    {
        Self::execute_with(charset, decode_str, DecodeMode::Lenient)
    }
}

/// Decoding has no hidden state: whatever two outcomes the decoder gives
/// for the same charset, text and mode are the same error, or strings of
/// the same characters.
pub proof fn lemma_decode_deterministic(
    charset: Seq<char>,
    text: Seq<char>,
    mode: DecodeMode,
    first: Result<String, DecodeError>,
    second: Result<String, DecodeError>,
)
    requires
        Decode::agrees(first, Decode::spec_execute_with(charset, text, mode)),
        Decode::agrees(second, Decode::spec_execute_with(charset, text, mode)),
    ensures
        match (first, second) {
            (Ok(a), Ok(b)) => a@ == b@,
            (Err(a), Err(b)) => a == b,
            _ => false,
        },
{
}

/// Indices left over after the last full group of four are dropped: what
/// a text decodes to is three bytes for each full group of its indices,
/// unpacked from the full groups alone.
pub proof fn lemma_trailing_group_dropped(charset: Seq<char>, text: Seq<char>)
    ensures
        decoded_bytes(charset, text).len() == indices(charset, text).len() / 4 * 3,
        decoded_bytes(charset, text) == unpack(
            indices(charset, text).take((indices(charset, text).len() / 4 * 4) as int),
        ),
{
    let found = indices(charset, text);
    assert(unpack(found) =~= unpack(found.take((found.len() / 4 * 4) as int)));
}

/// A tail that adds fewer than four indices to a text of full groups adds
/// no byte, and the lenient decoder gives the same for both texts.
pub proof fn lemma_short_tail_adds_nothing(charset: Seq<char>, text: Seq<char>, tail: Seq<char>)
    requires
        indices(charset, text).len() % 4 == 0,
        indices(charset, tail).len() < 4,
    ensures
        decoded_bytes(charset, text + tail) == decoded_bytes(charset, text),
        Decode::spec_execute(charset, text + tail) == Decode::spec_execute(charset, text),
{
    lemma_indices_concat(charset, text, tail);
    let full = indices(charset, text);
    let rest = indices(charset, tail);
    assert(unpack(full + rest) =~= unpack(full));
}

/// Characters that the charset does not hold are skipped: text of such
/// characters alone, put anywhere into a text, changes nothing of what is
/// found, and so nothing of what any mode decodes.
pub proof fn lemma_unknown_skipped(
    charset: Seq<char>,
    before: Seq<char>,
    unknown: Seq<char>,
    after: Seq<char>,
    mode: DecodeMode,
)
    requires
        forall|j: int| 0 <= j < unknown.len() ==> !charset.contains(unknown[j]),
    ensures
        indices(charset, before + unknown + after) == indices(charset, before + after),
        Decode::spec_execute_with(charset, before + unknown + after, mode)
            == Decode::spec_execute_with(charset, before + after, mode),
{
    lemma_indices_none(charset, unknown);
    lemma_indices_concat(charset, before + unknown, after);
    lemma_indices_concat(charset, before, unknown);
    lemma_indices_concat(charset, before, after);
    assert(indices(charset, before) + Seq::<int>::empty() =~= indices(charset, before));
}

/// Text of characters that the charset does not hold has no indices.
pub proof fn lemma_indices_none(charset: Seq<char>, unknown: Seq<char>)
    requires
        forall|j: int| 0 <= j < unknown.len() ==> !charset.contains(unknown[j]),
    ensures
        indices(charset, unknown) == Seq::<int>::empty(),
    decreases unknown.len(),
{
    if unknown.len() > 0 {
        lemma_indices_none(charset, unknown.drop_last());
        assert(unknown =~= unknown.drop_last().push(unknown.last()));
        lemma_indices_push(charset, unknown.drop_last(), unknown.last());
    }
}

/// Strict mode loses nothing: where it succeeds, no index was left over and
/// no byte was dropped, and lenient mode gives the same text.
pub proof fn lemma_strict_loses_nothing(charset: Seq<char>, text: Seq<char>)
    requires
        Decode::spec_execute_with(charset, text, DecodeMode::Strict) is Ok,
    ensures
        indices(charset, text).len() % 4 == 0,
        kept_bytes(decoded_bytes(charset, text)) == decoded_bytes(charset, text),
        Decode::spec_execute(charset, text) == Decode::spec_execute_with(
            charset,
            text,
            DecodeMode::Strict,
        ),
{
    let bytes = decoded_bytes(charset, text);
    assert forall|i: int| 0 <= i < bytes.len() implies bytes[i] != 0 by {
        assert(!bytes.contains(0u8));
    }
    lemma_kept_bytes_all(bytes);
}

/// The empty text decodes, over any safe charset and in either mode, to the
/// empty text.
pub proof fn lemma_decode_empty(charset: Seq<char>, mode: DecodeMode)
    requires
        Charset::is_safe(charset),
    ensures
        Decode::spec_execute_with(charset, Seq::<char>::empty(), mode) == Ok::<
            Seq<char>,
            DecodeError,
        >(Seq::<char>::empty()),
{
    let bytes = decoded_bytes(charset, Seq::<char>::empty());
    assert(bytes =~= Seq::<u8>::empty());
    lemma_kept_bytes_all(bytes);
    assert(text_of(bytes) =~= Seq::<char>::empty());
}

} // verus!
