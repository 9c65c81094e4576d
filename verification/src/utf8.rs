use vstd::prelude::*;
use vstd::utf8::*;

use crate::web_socket::{Connected, WebSocketClient};

verus! {

/// The Unicode scalar values that a well-formed UTF-8 byte sequence encodes, in order.
pub open spec fn utf8_scalars(bytes: Seq<u8>) -> Seq<u32> {
    decode_utf8(bytes).map_values(|c: char| c as u32)
}

/// The bytes of `payload` from position `start` to its end.
pub open spec fn tail_from(payload: Seq<u8>, start: int) -> Seq<u8> {
    payload.subrange(start, payload.len() as int)
}

/// The value that a well-formed UTF-8 sequence starts with is a Unicode scalar, and a `char`
/// holds it unchanged.
proof fn lemma_first_scalar_round_trips_through_char(bytes: Seq<u8>)
    requires
        valid_first_scalar(bytes),
    ensures
        is_scalar(decode_first_scalar(bytes)),
        (decode_first_scalar(bytes) as char) as u32 == decode_first_scalar(bytes),
{
    let b0 = bytes[0];
    if is_leading_byte_width_1(b0) {
        assert(((b0 & 0x7F) as u32) <= 0x7f) by (bit_vector);
    } else if is_leading_byte_width_2(b0) {
        let b1 = bytes[1];
        assert((((b0 & 0x1F) as u32) << 6) | ((b1 & 0x3f) as u32) <= 0x7ff) by (bit_vector);
    } else if is_leading_byte_width_3(b0) {
        let b1 = bytes[1];
        let b2 = bytes[2];
        assert((((b0 & 0x0F) as u32) << 12) | (((b1 & 0x3f) as u32) << 6) | ((b2 & 0x3f) as u32)
            <= 0xffff) by (bit_vector);
    }
}

/// Whether the bytes from position `i` on start with a well-formed UTF-8 encoding of one scalar.
fn first_scalar_valid(payload: &[u8], i: usize) -> (r: bool)
    requires
        i < payload@.len(),
    ensures
        r == valid_first_scalar(tail_from(payload@, i as int)),
{
    let ghost tail = tail_from(payload@, i as int);
    let rem = payload.len() - i;
    let b0 = payload[i];
    assert(tail[0] == b0);
    if b0 <= 0x7f {
        assert(((b0 & 0x7F) as u32) <= 0x7f) by (bit_vector);
        true
    } else if 0xc0 <= b0 && b0 <= 0xdf {
        if rem < 2 {
            return false;
        }
        let b1 = payload[i + 1];
        assert(tail[1] == b1);
        if !(0x80 <= b1 && b1 <= 0xbf) {
            return false;
        }
        let cp = (((b0 & 0x1F) as u32) << 6) | ((b1 & 0x3f) as u32);
        assert((((b0 & 0x1F) as u32) << 6) | ((b1 & 0x3f) as u32) <= 0x7ff) by (bit_vector);
        0x80 <= cp
    } else if 0xe0 <= b0 && b0 <= 0xef {
        if rem < 3 {
            return false;
        }
        let b1 = payload[i + 1];
        let b2 = payload[i + 2];
        assert(tail[1] == b1 && tail[2] == b2);
        if !(0x80 <= b1 && b1 <= 0xbf && 0x80 <= b2 && b2 <= 0xbf) {
            return false;
        }
        let cp = (((b0 & 0x0F) as u32) << 12) | (((b1 & 0x3f) as u32) << 6) | ((b2 & 0x3f) as u32);
        0x800 <= cp && !(0xD800 <= cp && cp <= 0xDFFF)
    } else if 0xf0 <= b0 && b0 <= 0xf7 {
        if rem < 4 {
            return false;
        }
        let b1 = payload[i + 1];
        let b2 = payload[i + 2];
        let b3 = payload[i + 3];
        assert(tail[1] == b1 && tail[2] == b2 && tail[3] == b3);
        if !(0x80 <= b1 && b1 <= 0xbf && 0x80 <= b2 && b2 <= 0xbf && 0x80 <= b3 && b3 <= 0xbf) {
            return false;
        }
        let cp = (((b0 & 0x07) as u32) << 18) | (((b1 & 0x3f) as u32) << 12) | (((b2 & 0x3f) as u32)
            << 6) | ((b3 & 0x3f) as u32);
        0x10000 <= cp && cp <= 0x10ffff
    } else {
        false
    }
}

/// Whether `payload` is well-formed UTF-8.
pub fn is_valid_utf8(payload: &[u8]) -> (r: bool)
    ensures
        r == valid_utf8(payload@),
{
    let n = payload.len();
    let mut i: usize = 0;
    assert(tail_from(payload@, 0) =~= payload@);
    while i < n
        invariant
            n == payload@.len(),
            i <= n,
            valid_utf8(payload@) == valid_utf8(tail_from(payload@, i as int)),
        decreases n - i,
    {
        let ghost tail = tail_from(payload@, i as int);
        if !first_scalar_valid(payload, i) {
            return false;
        }
        let b0 = payload[i];
        let width: usize = if b0 <= 0x7f {
            1
        } else if b0 <= 0xdf {
            2
        } else if b0 <= 0xef {
            3
        } else {
            4
        };
        assert(tail[0] == b0);
        assert(width == length_of_first_scalar(tail));
        assert(pop_first_scalar(tail) =~= tail_from(payload@, i + width));
        i = i + width;
    }
    assert(tail_from(payload@, i as int).len() == 0);
    true
}

/// Whether a prefix of the bytes from a position is well-formed UTF-8 depends only on its bytes:
/// taking the first `k` bytes keeps a well-formed first scalar when it fits in them.
proof fn lemma_prefix_first_scalar(bytes: Seq<u8>, k: int)
    requires
        1 <= k <= bytes.len(),
    ensures
        valid_first_scalar(bytes.take(k)) <==> (valid_first_scalar(bytes)
            && length_of_first_scalar(bytes) <= k),
        valid_first_scalar(bytes.take(k)) ==> decode_first_scalar(bytes.take(k))
            == decode_first_scalar(bytes) && length_of_first_scalar(bytes.take(k))
            == length_of_first_scalar(bytes),
{
    let t = bytes.take(k);
    assert(t[0] == bytes[0]);
    if k >= 2 {
        assert(t[1] == bytes[1]);
    }
    if k >= 3 {
        assert(t[2] == bytes[2]);
    }
    if k >= 4 {
        assert(t[3] == bytes[3]);
    }
}

/// From a position, the shortest prefix of at most four bytes that is well-formed UTF-8 holds
/// exactly one scalar, the one that starts there; and where no well-formed scalar starts there,
/// no such prefix is well-formed.
pub proof fn lemma_shortest_valid_prefix_is_one_scalar(bytes: Seq<u8>)
    requires
        bytes.len() > 0,
    ensures
        valid_first_scalar(bytes) ==> ({
            let l = length_of_first_scalar(bytes);
            &&& 1 <= l <= 4
            &&& l <= bytes.len()
            &&& valid_utf8(bytes.take(l))
            &&& decode_utf8(bytes.take(l)) == seq![decode_first_scalar(bytes) as char]
            &&& forall|k: int| 1 <= k < l ==> !valid_utf8(#[trigger] bytes.take(k))
        }),
        !valid_first_scalar(bytes) ==> forall|k: int|
            1 <= k <= 4 && k <= bytes.len() ==> !valid_utf8(#[trigger] bytes.take(k)),
{
    assert forall|k: int| 1 <= k <= bytes.len() implies (valid_utf8(#[trigger] bytes.take(k))
        ==> valid_first_scalar(bytes) && length_of_first_scalar(bytes) <= k) by {
        lemma_prefix_first_scalar(bytes, k);
    }
    if valid_first_scalar(bytes) {
        let l = length_of_first_scalar(bytes);
        let t = bytes.take(l);
        lemma_prefix_first_scalar(bytes, l);
        assert(pop_first_scalar(t).len() == 0);
        assert(valid_utf8(pop_first_scalar(t)));
        assert(valid_utf8(t));
        assert(decode_utf8(pop_first_scalar(t)) =~= Seq::<char>::empty());
        assert(decode_utf8(t) =~= seq![decode_first_scalar(bytes) as char]);
    }
}

/// The UTF-8 bytes of a text are well-formed, and decoding them gives back the text's characters
/// as scalar values.
pub proof fn lemma_scalars_of_encoded_text(text: Seq<char>)
    ensures
        valid_utf8(encode_utf8(text)),
        utf8_scalars(encode_utf8(text)) == text.map_values(|c: char| c as u32),
{
    encode_utf8_valid_utf8(text);
    encode_utf8_decode_utf8(text);
}

impl WebSocketClient<Connected> {
    /// Decodes the one UTF-8 encoded scalar that starts at byte `i` of `payload`, giving its
    /// value and the number of bytes that encode it.
    fn check_valid_utf8(payload: &[u8], i: u32) -> (r: (u32, u8))
        requires
            i < payload@.len(),
            valid_first_scalar(tail_from(payload@, i as int)),
        ensures
            r.0 == decode_first_scalar(tail_from(payload@, i as int)),
            r.1 == length_of_first_scalar(tail_from(payload@, i as int)),
    {
        let start = i as usize;
        let ghost tail = tail_from(payload@, i as int);
        let b0 = payload[start];
        assert(tail[0] == b0);
        if b0 <= 0x7f {
            ((b0 & 0x7F) as u32, 1)
        } else if 0xc0 <= b0 && b0 <= 0xdf {
            let b1 = payload[start + 1];
            assert(tail[1] == b1);
            ((((b0 & 0x1F) as u32) << 6) | ((b1 & 0x3f) as u32), 2)
        } else if 0xe0 <= b0 && b0 <= 0xef {
            let b1 = payload[start + 1];
            let b2 = payload[start + 2];
            assert(tail[1] == b1 && tail[2] == b2);
            ((((b0 & 0x0F) as u32) << 12) | (((b1 & 0x3f) as u32) << 6) | ((b2 & 0x3f) as u32), 3)
        } else {
            let b1 = payload[start + 1];
            let b2 = payload[start + 2];
            let b3 = payload[start + 3];
            assert(tail[1] == b1 && tail[2] == b2 && tail[3] == b3);
            (
                (((b0 & 0x07) as u32) << 18) | (((b1 & 0x3f) as u32) << 12) | (((b2 & 0x3f) as u32)
                    << 6) | ((b3 & 0x3f) as u32),
                4,
            )
        }
    }

    /// Decodes a UTF-8 payload into the Unicode scalar values that it encodes.
    pub fn convert_to_valid_utf8(payload: &[u8]) -> (r: Vec<u32>)
        requires
            payload@.len() <= u32::MAX,
            valid_utf8(payload@),
        ensures
            r@ == utf8_scalars(payload@),
    {
        let payload_len = payload.len() as u32;
        let mut converted: Vec<u32> = Vec::new();
        let mut i: u32 = 0;
        assert(tail_from(payload@, 0) =~= payload@);
        while i < payload_len
            invariant
                payload_len == payload@.len(),
                i <= payload_len,
                valid_utf8(tail_from(payload@, i as int)),
                converted@ + utf8_scalars(tail_from(payload@, i as int)) == utf8_scalars(payload@),
            decreases payload_len - i,
        {
            let ghost tail = tail_from(payload@, i as int);
            let (unicode, offset) = Self::check_valid_utf8(payload, i);
            proof {
                let rest = pop_first_scalar(tail);
                lemma_first_scalar_round_trips_through_char(tail);
                assert(rest =~= tail_from(payload@, i + offset));
                assert(decode_utf8(tail) == seq![decode_first_scalar(tail) as char] + decode_utf8(rest));
                assert(utf8_scalars(tail) =~= seq![unicode] + utf8_scalars(rest));
                assert(converted@.push(unicode) + utf8_scalars(rest) =~= converted@ + utf8_scalars(tail));
            }
            converted.push(unicode);
            i = i + offset as u32;
        }
        assert(utf8_scalars(tail_from(payload@, i as int)) =~= Seq::<u32>::empty());
        assert(converted@ + Seq::<u32>::empty() =~= converted@);
        converted
    }
}

} // verus!
