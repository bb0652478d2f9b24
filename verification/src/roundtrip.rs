//! What holds between the encoder and the decoder.

use crate::charset::Charset;
use crate::decode::{
    decoded_bytes, indices, kept_bytes, lemma_indices_concat, lemma_indices_none,
    lemma_indices_of_symbols, lemma_kept_bytes_all, unpack, Decode, DecodeError,
};
use crate::encode::{
    byte_or_zero, carries_data, encoded, group_index, groups, has_pad, Encode, EncodeError,
};
use crate::packing::{lemma_triple_index_bound, lemma_unpack_pack, DATA_SYMBOLS};
use crate::text::{lemma_text_of_valid, text_of};
use vstd::prelude::*;
use vstd::utf8::{encode_utf8, valid_utf8};

verus! {

/// The positions that an encoding is written with, place by place: the
/// index that the place carries, or the last position of a charset of
/// `alphabet` characters where the place is padded.
pub open spec fn encoded_positions(alphabet: int, payload: Seq<u8>) -> Seq<int> {
    Seq::new(
        (groups(payload.len() as int) * 4) as nat,
        |j: int|
            if carries_data(payload, j / 4, j % 4) {
                group_index(payload, j / 4, j % 4)
            } else {
                alphabet - 1
            },
    )
}

/// Over a safe charset with a pad character, the decoder finds an encoding
/// at exactly the positions it was written with: no character of it is
/// skipped, and the pad character counts as the position it stands at.
pub proof fn lemma_indices_of_encoded(charset: Seq<char>, payload: Seq<u8>)
    requires
        Charset::is_safe(charset),
        has_pad(charset),
    ensures
        indices(charset, encoded(charset, payload)) == encoded_positions(
            charset.len() as int,
            payload,
        ),
{
    let text = encoded(charset, payload);
    let at = encoded_positions(charset.len() as int, payload);
    assert forall|j: int| 0 <= j < text.len() implies 0 <= #[trigger] at[j] < charset.len() by {
        lemma_triple_index_bound(
            byte_or_zero(payload, j / 4 * 3),
            byte_or_zero(payload, j / 4 * 3 + 1),
            byte_or_zero(payload, j / 4 * 3 + 2),
            j % 4,
        );
    }
    assert forall|j: int| 0 <= j < text.len() implies #[trigger] text[j] == charset[at[j]] by {}
    lemma_indices_of_symbols(charset, text, at);
}

/// Whatever the length of a payload, its full groups of three bytes come
/// back: over a safe charset with a pad character, the bytes that its
/// encoding decodes to begin with them. (A final group of one or two bytes
/// does not come back: its pad characters are read as positions.)
pub proof fn lemma_full_groups_come_back(charset: Seq<char>, payload: Seq<u8>)
    requires
        Charset::is_safe(charset),
        has_pad(charset),
    ensures
        decoded_bytes(charset, encoded(charset, payload)).len() == groups(payload.len() as int) * 3,
        decoded_bytes(charset, encoded(charset, payload)).take((payload.len() / 3 * 3) as int)
            == payload.take((payload.len() / 3 * 3) as int),
{
    lemma_indices_of_encoded(charset, payload);
    let at = encoded_positions(charset.len() as int, payload);
    let bytes = unpack(at);
    let full = (payload.len() / 3 * 3) as int;
    assert(bytes.len() == groups(payload.len() as int) * 3);
    assert forall|m: int| 0 <= m < full implies bytes[m] == payload[m] by {
        let g = m / 3;
        lemma_unpack_pack(payload[g * 3], payload[g * 3 + 1], payload[g * 3 + 2]);
        assert(at[g * 4] == group_index(payload, g, 0));
        assert(at[g * 4 + 1] == group_index(payload, g, 1));
        assert(at[g * 4 + 2] == group_index(payload, g, 2));
        assert(at[g * 4 + 3] == group_index(payload, g, 3));
    }
    assert(bytes.take(full) =~= payload.take(full));
}

/// A decoder that is given the data symbols alone does not know the pad
/// character, and skips it: over the first 64 characters of the encoder's
/// charset, the encoding of any payload decodes to the payload's full groups
/// of three bytes and nothing else. The final group of one or two bytes is
/// left incomplete by the skipped pad characters and dropped.
pub proof fn lemma_data_symbols_skip_pad(charset: Seq<char>, payload: Seq<u8>)
    requires
        Charset::is_safe(charset),
        has_pad(charset),
    ensures
        Charset::is_safe(charset.take(DATA_SYMBOLS as int)),
        decoded_bytes(charset.take(DATA_SYMBOLS as int), encoded(charset, payload)) == payload.take(
            (payload.len() / 3 * 3) as int,
        ),
{
    let data = charset.take(DATA_SYMBOLS as int);
    let text = encoded(charset, payload);
    let full = payload.len() as int / 3;
    let last = payload.len() as int % 3;
    let carried: int = if last == 0 {
        full * 4
    } else {
        full * 4 + last + 1
    };
    let head = text.take(carried);
    let pads = text.skip(carried);
    let at = Seq::new(carried as nat, |j: int| group_index(payload, j / 4, j % 4));
    assert forall|i: int, j: int| 0 <= i < j < data.len() implies data[i] != data[j] by {
        assert(charset[i] != charset[j]);
    }
    assert forall|j: int| 0 <= j < head.len() implies 0 <= #[trigger] at[j] < data.len() by {
        lemma_triple_index_bound(
            byte_or_zero(payload, j / 4 * 3),
            byte_or_zero(payload, j / 4 * 3 + 1),
            byte_or_zero(payload, j / 4 * 3 + 2),
            j % 4,
        );
    }
    assert forall|j: int| 0 <= j < head.len() implies #[trigger] head[j] == data[at[j]] by {
        assert(carries_data(payload, j / 4, j % 4));
        assert(head[j] == text[j]);
    }
    lemma_indices_of_symbols(data, head, at);
    assert forall|j: int| 0 <= j < pads.len() implies !data.contains(pads[j]) by {
        assert(!carries_data(payload, (carried + j) / 4, (carried + j) % 4));
        assert(pads[j] == text[carried + j]);
        assert(pads[j] == charset[charset.len() - 1]);
        if data.contains(pads[j]) {
            let i = choose|i: int| 0 <= i < data.len() && data[i] == pads[j];
            assert(charset[i] != charset[charset.len() - 1]);
        }
    }
    lemma_indices_none(data, pads);
    assert(text =~= head + pads);
    lemma_indices_concat(data, head, pads);
    assert(at + Seq::<int>::empty() =~= at);
    let bytes = unpack(at);
    assert(bytes.len() == full * 3);
    assert forall|m: int| 0 <= m < full * 3 implies bytes[m] == payload[m] by {
        let g = m / 3;
        lemma_unpack_pack(payload[g * 3], payload[g * 3 + 1], payload[g * 3 + 2]);
        assert(at[g * 4] == group_index(payload, g, 0));
        assert(at[g * 4 + 1] == group_index(payload, g, 1));
        assert(at[g * 4 + 2] == group_index(payload, g, 2));
        assert(at[g * 4 + 3] == group_index(payload, g, 3));
    }
    assert(bytes =~= payload.take((full * 3) as int));
}

/// The round trip: over a safe charset with a pad character, a payload of
/// full groups of three bytes, none of them zero, is encoded without error,
/// and decoding the encoding gives the payload back, read as text. Where the
/// payload is valid UTF-8 that text is made of exactly the payload's bytes;
/// where it is not, the text is empty.
pub proof fn lemma_round_trip(charset: Seq<char>, payload: Seq<u8>)
    requires
        Charset::is_safe(charset),
        has_pad(charset),
        payload.len() % 3 == 0,
        forall|i: int| 0 <= i < payload.len() ==> payload[i] != 0,
    ensures
        Encode::spec_execute(charset, payload) == Ok::<Seq<char>, EncodeError>(
            encoded(charset, payload),
        ),
        kept_bytes(decoded_bytes(charset, encoded(charset, payload))) == payload,
        Decode::spec_execute(charset, encoded(charset, payload)) == Ok::<Seq<char>, DecodeError>(
            text_of(payload),
        ),
        valid_utf8(payload) ==> encode_utf8(text_of(payload)) == payload,
        !valid_utf8(payload) ==> text_of(payload) == Seq::<char>::empty(),
{
    let bytes = decoded_bytes(charset, encoded(charset, payload));
    lemma_full_groups_come_back(charset, payload);
    assert(bytes =~= bytes.take(payload.len() as int));
    assert(payload =~= payload.take(payload.len() as int));
    lemma_kept_bytes_all(payload);
    if valid_utf8(payload) {
        lemma_text_of_valid(payload);
    }
}

} // verus!
