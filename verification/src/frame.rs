use vstd::prelude::*;

use vstd::utf8::{encode_utf8, valid_utf8};

use crate::bindings::random_byte;
use crate::lzw::{lemma_lzw_decodable_of_scalars, lzw_decodable};
use crate::utf8::{is_valid_utf8, lemma_scalars_of_encoded_text, utf8_scalars};
use crate::web_socket::{Connected, WebSocketClient};

verus! {

/// The two bytes of `n`, most significant first.
pub open spec fn be16_bytes(n: u16) -> Seq<u8> {
    seq![(n >> 8u16) as u8, n as u8]
}

/// The eight bytes of `n`, most significant first.
pub open spec fn be64_bytes(n: u64) -> Seq<u8> {
    seq![
        (n >> 56u64) as u8,
        (n >> 48u64) as u8,
        (n >> 40u64) as u8,
        (n >> 32u64) as u8,
        (n >> 24u64) as u8,
        (n >> 16u64) as u8,
        (n >> 8u64) as u8,
        n as u8,
    ]
}

/// The number that two bytes encode, most significant first.
pub open spec fn be16_value(b: Seq<u8>) -> u16 {
    ((b[0] as u16) << 8u16) | (b[1] as u16)
}

/// The number that eight bytes encode, most significant first.
pub open spec fn be64_value(b: Seq<u8>) -> u64 {
    ((b[0] as u64) << 56u64) | ((b[1] as u64) << 48u64) | ((b[2] as u64) << 40u64) | ((b[3] as u64)
        << 32u64) | ((b[4] as u64) << 24u64) | ((b[5] as u64) << 16u64) | ((b[6] as u64) << 8u64)
        | (b[7] as u64)
}

/// The second byte of a masked frame and the extended length after it: lengths below 126 fit in
/// the second byte, lengths up to 65535 follow in two bytes (code 126), longer ones in eight
/// bytes (code 127).
pub open spec fn length_field(n: nat) -> Seq<u8> {
    if n < 126 {
        seq![0x80u8 | (n as u8)]
    } else if n <= 65535 {
        seq![0x80u8 | 126u8] + be16_bytes(n as u16)
    } else {
        seq![0x80u8 | 127u8] + be64_bytes(n as u64)
    }
}

/// Each byte of `payload` xor-ed with the byte of the four-byte `mask` at its position modulo 4.
pub open spec fn masked_payload(payload: Seq<u8>, mask: Seq<u8>) -> Seq<u8> {
    Seq::new(payload.len(), |i: int| payload[i] ^ mask[i % 4])
}

/// The final, masked frame that a client sends: opcode byte with the FIN bit, length field,
/// masking key, masked payload.
pub open spec fn client_frame(opcode: u8, payload: Seq<u8>, mask: Seq<u8>) -> Seq<u8> {
    seq![0x80u8 | opcode] + length_field(payload.len()) + mask + masked_payload(payload, mask)
}

/// The first two bytes of a frame, read apart.
#[derive(Debug, Clone, Copy, PartialEq, Eq)]
pub struct FrameHeader {
    /// The frame is the last of its message.
    pub fin: bool,
    /// What the frame carries (1: text, 8: close).
    pub opcode: u8,
    /// The payload is masked.
    pub masked: bool,
    /// The payload length, or 126 / 127 when an extended length follows.
    pub length_code: u8,
}

/// The header that the two bytes `b0`, `b1` hold.
pub open spec fn header_of(b0: u8, b1: u8) -> FrameHeader {
    FrameHeader {
        fin: b0 & 0x80u8 != 0,
        opcode: b0 & 0x0Fu8,
        masked: b1 & 0x80u8 != 0,
        length_code: b1 & 0x7Fu8,
    }
}

/// Why a message could not be read.
#[derive(Debug, PartialEq, Eq)]
pub enum ReadError {
    /// The client holds no stream.
    NoConnection,
    /// The announced payload length does not fit in a `usize`.
    PayloadTooLarge,
    /// The frame is not the last of its message.
    FragmentedFrame,
    /// The server closed the connection.
    ConnectionClosed,
    /// The frame carries neither text nor a close.
    UnsupportedOpcode(u8),
}

/// The header's fields are the bits of its two bytes: FIN is the top bit of the first byte and the
/// opcode its low four bits; the mask flag is the top bit of the second byte and the length code
/// its low seven bits. In particular a second byte below 0x80 is an unmasked frame.
pub proof fn lemma_header_bits(b0: u8, b1: u8)
    ensures
        header_of(b0, b1).fin <==> b0 >= 0x80,
        header_of(b0, b1).opcode == b0 % 16,
        header_of(b0, b1).masked <==> b1 >= 0x80,
        header_of(b0, b1).length_code == b1 % 128,
{
    assert((b0 & 0x80u8 != 0) <==> b0 >= 0x80) by (bit_vector);
    assert(b0 & 0x0Fu8 == b0 % 16) by (bit_vector);
    assert((b1 & 0x80u8 != 0) <==> b1 >= 0x80) by (bit_vector);
    assert(b1 & 0x7Fu8 == b1 % 128) by (bit_vector);
}

/// Extended lengths are big-endian numbers: two bytes give `256 * b[0] + b[1]`, eight bytes the
/// sum of each byte times 256 to the power of its distance from the end.
pub proof fn lemma_extended_length_values(b: Seq<u8>)
    ensures
        b.len() >= 2 ==> be16_value(b) as int == 256 * b[0] + b[1],
        b.len() >= 8 ==> be64_value(b) as int == 0x100000000000000 * b[0] + 0x1000000000000 * b[1]
            + 0x10000000000 * b[2] + 0x100000000 * b[3] + 0x1000000 * b[4] + 0x10000 * b[5] + 0x100
            * b[6] + b[7],
{
    if b.len() >= 2 {
        let (x0, x1) = (b[0], b[1]);
        assert(((x0 as u16) << 8u16) | (x1 as u16) == 256 * (x0 as u16) + (x1 as u16)) by (bit_vector);
    }
    if b.len() >= 8 {
        let (x0, x1, x2, x3, x4, x5, x6, x7) = (b[0], b[1], b[2], b[3], b[4], b[5], b[6], b[7]);
        assert(((x0 as u64) << 56u64) | ((x1 as u64) << 48u64) | ((x2 as u64) << 40u64) | ((x3 as u64)
            << 32u64) | ((x4 as u64) << 24u64) | ((x5 as u64) << 16u64) | ((x6 as u64) << 8u64)
            | (x7 as u64) == 0x100000000000000 * (x0 as u64) + 0x1000000000000 * (x1 as u64)
            + 0x10000000000 * (x2 as u64) + 0x100000000 * (x3 as u64) + 0x1000000 * (x4 as u64)
            + 0x10000 * (x5 as u64) + 0x100 * (x6 as u64) + (x7 as u64)) by (bit_vector);
    }
}

impl FrameHeader {
    /// Reads the first two bytes of a frame.
    pub fn parse(b0: u8, b1: u8) -> (r: FrameHeader)
        ensures
            r == header_of(b0, b1),
            r.fin <==> b0 >= 0x80,
            r.opcode == b0 % 16,
            r.masked <==> b1 >= 0x80,
            r.length_code == b1 % 128,
    {
        proof {
            lemma_header_bits(b0, b1);
        }
        FrameHeader {
            fin: (b0 & 0x80) != 0,
            opcode: b0 & 0x0F,
            masked: (b1 & 0x80) != 0,
            length_code: b1 & 0x7F,
        }
    }

    /// How many bytes of extended length follow the header.
    pub open spec fn extension_len(self) -> nat {
        if self.length_code == 126 {
            2
        } else if self.length_code == 127 {
            8
        } else {
            0
        }
    }

    /// The payload length that the header and its extended length `ext` announce.
    pub open spec fn announced_length(self, ext: Seq<u8>) -> int {
        if self.length_code == 126 {
            be16_value(ext) as int
        } else if self.length_code == 127 {
            be64_value(ext) as int
        } else {
            self.length_code as int
        }
    }

    /// How many bytes of extended length follow the header.
    pub fn extended_length_size(&self) -> (r: usize)
        ensures
            r == self.extension_len(),
    {
        if self.length_code == 126 {
            2
        } else if self.length_code == 127 {
            8
        } else {
            0
        }
    }

    /// The payload length, given the extended length bytes that followed the header; refused
    /// when it does not fit in a `usize`.
    pub fn payload_length(&self, ext: &[u8]) -> (r: Result<usize, ReadError>)
        requires
            ext@.len() == self.extension_len(),
        ensures
            match r {
                Ok(n) => n == self.announced_length(ext@),
                Err(e) => e is PayloadTooLarge && self.announced_length(ext@) > usize::MAX,
            },
            self.length_code != 126 && self.length_code != 127 ==> r == Ok::<usize, ReadError>(
                self.length_code as usize,
            ),
            self.length_code == 126 ==> (r matches Ok(n) && n == 256 * ext@[0] + ext@[1]),
            self.length_code == 127 ==> ({
                let v = 0x100000000000000 * ext@[0] + 0x1000000000000 * ext@[1] + 0x10000000000
                    * ext@[2] + 0x100000000 * ext@[3] + 0x1000000 * ext@[4] + 0x10000 * ext@[5]
                    + 0x100 * ext@[6] + ext@[7];
                &&& v <= usize::MAX ==> (r matches Ok(n) && n == v)
                &&& v > usize::MAX ==> (r matches Err(ReadError::PayloadTooLarge))
            }),
    {
        proof {
            lemma_extended_length_values(ext@);
        }
        if self.length_code == 126 {
            let v: u16 = ((ext[0] as u16) << 8u16) | (ext[1] as u16);
            Ok(v as usize)
        } else if self.length_code == 127 {
            let v: u64 = ((ext[0] as u64) << 56u64) | ((ext[1] as u64) << 48u64) | ((ext[2] as u64)
                << 40u64) | ((ext[3] as u64) << 32u64) | ((ext[4] as u64) << 24u64) | ((ext[5] as u64)
                << 16u64) | ((ext[6] as u64) << 8u64) | (ext[7] as u64);
            if v > usize::MAX as u64 {
                Err(ReadError::PayloadTooLarge)
            } else {
                Ok(v as usize)
            }
        } else {
            Ok(self.length_code as usize)
        }
    }
}

/// Reading back a frame that the client built: its header has the FIN and mask bits set and the
/// opcode; the header and extended length announce the payload's length; the masking key follows
/// them; unmasking the rest with the key gives back the payload.
pub proof fn lemma_frame_round_trip(opcode: u8, payload: Seq<u8>, mask: Seq<u8>)
    requires
        opcode < 16,
        mask.len() == 4,
        payload.len() <= u64::MAX,
    ensures
        ({
            let f = client_frame(opcode, payload, mask);
            let h = header_of(f[0], f[1]);
            let e = h.extension_len() as int;
            &&& h.fin
            &&& h.opcode == opcode
            &&& h.masked
            &&& f.len() == 6 + e + payload.len()
            &&& h.announced_length(f.subrange(2, 2 + e)) == payload.len()
            &&& f.subrange(2 + e, 6 + e) == mask
            &&& masked_payload(f.subrange(6 + e, f.len() as int), mask) == payload
        }),
{
    let f = client_frame(opcode, payload, mask);
    let n = payload.len();
    let lf = length_field(n);
    assert((0x80u8 | opcode) & 0x80u8 != 0 && (0x80u8 | opcode) & 0x0Fu8 == opcode) by (bit_vector)
        requires
            opcode < 16,
    ;
    assert(f[0] == 0x80u8 | opcode);
    assert(f[1] == lf[0]);
    let h = header_of(f[0], f[1]);
    if n < 126 {
        let b = n as u8;
        assert((0x80u8 | b) & 0x80u8 != 0 && (0x80u8 | b) & 0x7Fu8 == b) by (bit_vector)
            requires
                b < 126,
        ;
        assert(h.extension_len() == 0);
    } else if n <= 65535 {
        let v = n as u16;
        assert((0x80u8 | 126u8) & 0x80u8 != 0 && (0x80u8 | 126u8) & 0x7Fu8 == 126u8) by (bit_vector);
        assert(((((v >> 8u16) as u8) as u16) << 8u16) | (((v as u8) as u16)) == v) by (bit_vector);
        assert(f.subrange(2, 4) =~= be16_bytes(v));
    } else {
        let v = n as u64;
        assert((0x80u8 | 127u8) & 0x80u8 != 0 && (0x80u8 | 127u8) & 0x7Fu8 == 127u8) by (bit_vector);
        assert(((((v >> 56u64) as u8) as u64) << 56u64) | ((((v >> 48u64) as u8) as u64) << 48u64)
            | ((((v >> 40u64) as u8) as u64) << 40u64) | ((((v >> 32u64) as u8) as u64) << 32u64)
            | ((((v >> 24u64) as u8) as u64) << 24u64) | ((((v >> 16u64) as u8) as u64) << 16u64)
            | ((((v >> 8u64) as u8) as u64) << 8u64) | ((v as u8) as u64) == v) by (bit_vector);
        assert(f.subrange(2, 10) =~= be64_bytes(v));
    }
    let e = h.extension_len() as int;
    assert(lf.len() == 1 + e);
    assert(f.subrange(2 + e, 6 + e) =~= mask);
    let body = f.subrange(6 + e, f.len() as int);
    assert(body =~= masked_payload(payload, mask));
    assert forall|i: int| 0 <= i < n implies #[trigger] masked_payload(body, mask)[i] == payload[i] by {
        let p = payload[i];
        let m = mask[i % 4];
        assert((p ^ m) ^ m == p) by (bit_vector);
    }
    assert(masked_payload(body, mask) =~= payload);
}

/// The text frame that the client builds for `message` reads back to it: its header marks a final
/// text frame, and the unmasked payload is well-formed UTF-8 whose scalars are the message's
/// characters.
pub proof fn lemma_text_frame_reads_back(message: Seq<char>, mask: Seq<u8>)
    requires
        mask.len() == 4,
        encode_utf8(message).len() <= u64::MAX,
    ensures
        ({
            let f = client_frame(1, encode_utf8(message), mask);
            let h = header_of(f[0], f[1]);
            let body = f.subrange(6 + h.extension_len() as int, f.len() as int);
            &&& h.fin
            &&& h.opcode == 1
            &&& valid_utf8(masked_payload(body, mask))
            &&& utf8_scalars(masked_payload(body, mask)) == message.map_values(|c: char| c as u32)
        }),
{
    lemma_frame_round_trip(1, encode_utf8(message), mask);
    lemma_scalars_of_encoded_text(message);
}

/// A payload that the client can read under `header`: at most `u32::MAX` bytes of well-formed
/// UTF-8, and, for the last frame of a text message, a non-empty one whose scalar count leaves room
/// for the decoder's dictionary codes.
pub open spec fn message_readable(header: FrameHeader, payload: Seq<u8>) -> bool {
    &&& payload.len() <= u32::MAX
    &&& valid_utf8(payload)
    &&& (header.fin && header.opcode == 1 ==> lzw_decodable(utf8_scalars(payload)))
}

/// Whether the client can read `payload` under `header`.
pub fn is_message_readable(header: &FrameHeader, payload: &[u8]) -> (r: bool)
    ensures
        r == message_readable(*header, payload@),
{
    if payload.len() > u32::MAX as usize || !is_valid_utf8(payload) {
        return false;
    }
    if header.fin && header.opcode == 1 {
        let scalars = WebSocketClient::<Connected>::convert_to_valid_utf8(payload);
        proof {
            lemma_lzw_decodable_of_scalars(payload@);
        }
        scalars.len() > 0 && scalars.len() <= (u32::MAX - 255) as usize
    } else {
        true
    }
}

/// `n` random bytes.
pub fn random_bytes(n: usize) -> (r: Vec<u8>)
    ensures
        r@.len() == n,
{
    let mut r: Vec<u8> = Vec::new();
    while r.len() < n
        invariant
            r@.len() <= n,
        decreases n - r@.len(),
    {
        r.push(random_byte());
    }
    r
}

/// The final frame with `opcode` that carries `payload` masked with `mask`.
pub fn create_masked_frame(opcode: u8, payload: &[u8], mask: &[u8]) -> (r: Vec<u8>)
    requires
        mask@.len() == 4,
    ensures
        r@ == client_frame(opcode, payload@, mask@),
{
    let mut frame: Vec<u8> = Vec::new();
    frame.push(0x80 | opcode);
    let payload_len = payload.len();
    if payload_len < 126 {
        frame.push(0x80 | (payload_len as u8));
    } else if payload_len <= 65535 {
        let n = payload_len as u16;
        frame.push(0x80 | 126);
        frame.push((n >> 8u16) as u8);
        frame.push(n as u8);
    } else {
        let n = payload_len as u64;
        frame.push(0x80 | 127);
        frame.push((n >> 56u64) as u8);
        frame.push((n >> 48u64) as u8);
        frame.push((n >> 40u64) as u8);
        frame.push((n >> 32u64) as u8);
        frame.push((n >> 24u64) as u8);
        frame.push((n >> 16u64) as u8);
        frame.push((n >> 8u64) as u8);
        frame.push(n as u8);
    }
    let ghost head = seq![0x80u8 | opcode] + length_field(payload@.len());
    assert(frame@ =~= head);
    frame.push(mask[0]);
    frame.push(mask[1]);
    frame.push(mask[2]);
    frame.push(mask[3]);
    assert(frame@ =~= head + mask@);
    let ghost start = frame@;
    let mut i: usize = 0;
    while i < payload_len
        invariant
            payload_len == payload@.len(),
            mask@.len() == 4,
            i <= payload_len,
            frame@ == start + masked_payload(payload@, mask@).subrange(0, i as int),
        decreases payload_len - i,
    {
        frame.push(payload[i] ^ mask[i % 4]);
        assert(masked_payload(payload@, mask@).subrange(0, i + 1) =~= masked_payload(
            payload@,
            mask@,
        ).subrange(0, i as int).push(payload@[i as int] ^ mask@[i as int % 4]));
        i = i + 1;
    }
    assert(masked_payload(payload@, mask@).subrange(0, payload_len as int) =~= masked_payload(
        payload@,
        mask@,
    ));
    frame
}

} // verus!
