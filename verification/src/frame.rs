use vstd::prelude::*;

use crate::bytes::{be_bytes, be_value, lemma_be_value_bound, lemma_pow256_values, read_be, write_be};
use vstd::slice::slice_to_vec;
use vstd::string::StringSliceAdditionalSpecFns;

verus! {

/// The kind of a frame, read from the low four bits (the opcode) of its
/// first byte.
#[derive(Clone, Copy, Debug, PartialEq, Eq, Structural)]
pub enum Frametype {
    Continuation,
    Text,
    Binary,
    Close,
    Ping,
    Pong,
    Reserved,
    Unknown,
}

/// The frame type that a first byte announces: opcodes 0, 1, 2, 8, 9 and 10
/// have a kind of their own, every other opcode is `Reserved`.
pub open spec fn spec_frame_type(byte: u8) -> Frametype {
    let opcode = byte & 0x0f;
    if opcode == 0 {
        Frametype::Continuation
    } else if opcode == 1 {
        Frametype::Text
    } else if opcode == 2 {
        Frametype::Binary
    } else if opcode == 8 {
        Frametype::Close
    } else if opcode == 9 {
        Frametype::Ping
    } else if opcode == 10 {
        Frametype::Pong
    } else {
        Frametype::Reserved
    }
}

/// Reads the frame type from the opcode in the low four bits of `byte`.
pub fn get_frame_type(byte: u8) -> (t: Frametype)
    ensures
        t == spec_frame_type(byte),
{
    let opcode = byte & 0x0f;
    if opcode == 0 {
        Frametype::Continuation
    } else if opcode == 1 {
        Frametype::Text
    } else if opcode == 2 {
        Frametype::Binary
    } else if opcode == 8 {
        Frametype::Close
    } else if opcode == 9 {
        Frametype::Ping
    } else if opcode == 10 {
        Frametype::Pong
    } else {
        Frametype::Reserved
    }
}

/// One frame of the protocol: its flags, its kind, the payload length that
/// its header announced, its masking key and its (unmasked) payload.
#[derive(Debug)]
pub struct Frame {
    pub fin: bool,
    pub rsv1: bool,
    pub rsv2: bool,
    pub rsv3: bool,
    pub frame_type: Frametype,
    pub message_length: u64,
    pub mask: [u8; 4],
    pub data: Vec<u8>,
}

/// What a [`Frame`] holds, with its key and payload as sequences.
pub struct FrameView {
    pub fin: bool,
    pub rsv1: bool,
    pub rsv2: bool,
    pub rsv3: bool,
    pub frame_type: Frametype,
    pub message_length: u64,
    pub mask: Seq<u8>,
    pub data: Seq<u8>,
}

impl View for Frame {
    type V = FrameView;

    open spec fn view(&self) -> FrameView {
        FrameView {
            fin: self.fin,
            rsv1: self.rsv1,
            rsv2: self.rsv2,
            rsv3: self.rsv3,
            frame_type: self.frame_type,
            message_length: self.message_length,
            mask: self.mask@,
            data: self.data@,
        }
    }
}

/// The views of a sequence of frames.
pub open spec fn frames_view(frames: Seq<Frame>) -> Seq<FrameView> {
    frames.map_values(|f: Frame| f@)
}

/// Builds a frame from its parts.
pub fn create_frame(
    fin: bool,
    rsv1: bool,
    rsv2: bool,
    rsv3: bool,
    frame_type: Frametype,
    message_length: u64,
    mask: [u8; 4],
    data: Vec<u8>,
) -> (frame: Frame)
    ensures
        frame@ == (FrameView {
            fin,
            rsv1,
            rsv2,
            rsv3,
            frame_type,
            message_length,
            mask: mask@,
            data: data@,
        }),
{
    Frame { fin, rsv1, rsv2, rsv3, frame_type, message_length, mask, data }
}

/// The payload length field whose first byte stands at `at`: the length it
/// announces and the index just past it, where the masking key starts.
/// A low seven bits of at most 125 are the length itself; 126 announces a
/// 16-bit length and 127 a 64-bit length in the bytes that follow, both big
/// endian. With `whole_byte` the two extended forms are recognised only when
/// the whole byte (mask bit included) equals 126 or 127; a byte that fails
/// both tests then announces a length of zero and no length bytes at all.
/// `None` where `b` ends before the field does.
pub open spec fn spec_length_field(b: Seq<u8>, at: int, whole_byte: bool) -> Option<(nat, int)> {
    if at < 0 || at >= b.len() {
        None
    } else {
        let byte = b[at];
        let code = byte & 0x7f;
        let selector = if whole_byte {
            byte
        } else {
            code
        };
        if code <= 125 {
            Some((code as nat, at + 1))
        } else if selector == 126 {
            if at + 3 > b.len() {
                None
            } else {
                Some((be_value(b.subrange(at + 1, at + 3)), at + 3))
            }
        } else if selector == 127 {
            if at + 9 > b.len() {
                None
            } else {
                Some((be_value(b.subrange(at + 1, at + 9)), at + 9))
            }
        } else {
            Some((0, at))
        }
    }
}

/// A length field ends where it starts or after, and within the buffer.
pub proof fn lemma_length_field_position(b: Seq<u8>, at: int, whole_byte: bool)
    ensures
        spec_length_field(b, at, whole_byte) matches Some((len, key_at)) ==> at <= key_at <= b.len(),
{
}

/// The payload of `len` bytes that follows the masking key at `key_at`, each
/// byte exclusive-ored with the key byte of its position modulo four.
pub open spec fn spec_unmask(b: Seq<u8>, key_at: int, len: nat) -> Seq<u8> {
    Seq::new(len, |k: int| b[key_at + 4 + k] ^ b[key_at + (k % 4)])
}

/// Reads the payload length field that starts at `at`.
fn read_length_field(buffer: &[u8], at: usize, whole_byte: bool) -> (field: Option<(u64, usize)>)
    ensures
        match spec_length_field(buffer@, at as int, whole_byte) {
            None => field is None,
            Some((len, key_at)) => field == Some((len as u64, key_at as usize)) && len < 0x1_0000_0000_0000_0000,
        },
{
    if at >= buffer.len() {
        return None;
    }
    let byte = buffer[at];
    let code = byte & 0x7f;
    let selector = if whole_byte { byte } else { code };
    if code <= 125 {
        Some((code as u64, at + 1))
    } else if selector == 126 {
        if buffer.len() - at < 3 {
            return None;
        }
        let len = read_be(buffer, at + 1, 2);
        Some((len, at + 3))
    } else if selector == 127 {
        if buffer.len() - at < 9 {
            return None;
        }
        let len = read_be(buffer, at + 1, 8);
        proof {
            lemma_be_value_bound(buffer@.subrange(at + 1, at + 9));
            lemma_pow256_values();
        }
        Some((len, at + 9))
    } else {
        Some((0, at))
    }
}

/// Unmasks the `len` payload bytes that follow the masking key at `key_at`.
fn unmask(buffer: &[u8], key_at: usize, len: usize) -> (data: Vec<u8>)
    requires
        key_at + 4 + len <= buffer.len(),
    ensures
        data@ == spec_unmask(buffer@, key_at as int, len as nat),
{
    let mut data: Vec<u8> = Vec::new();
    let mut k: usize = 0;
    while k < len
        invariant
            key_at + 4 + len <= buffer.len(),
            k <= len,
            data@ =~= spec_unmask(buffer@, key_at as int, k as nat),
        decreases len - k,
    {
        data.push(buffer[key_at + 4 + k] ^ buffer[key_at + k % 4]);
        k = k + 1;
    }
    data
}

/// The frame at the start of `b`: flags and kind from the first byte, the
/// length field from the second (its low seven bits selecting the form), then
/// the four key bytes and the masked payload. `None` where `b` ends before
/// the payload does.
pub open spec fn spec_frame_at_start(b: Seq<u8>) -> Option<FrameView> {
    match spec_length_field(b, 1, false) {
        None => None,
        Some((len, key_at)) => if key_at + 4 + len > b.len() {
            None
        } else {
            Some(
                FrameView {
                    fin: b[0] & 0x80 != 0,
                    rsv1: b[0] & 0x40 != 0,
                    rsv2: b[0] & 0x20 != 0,
                    rsv3: b[0] & 0x10 != 0,
                    frame_type: spec_frame_type(b[0]),
                    message_length: len as u64,
                    mask: b.subrange(key_at, key_at + 4),
                    data: spec_unmask(b, key_at, len),
                },
            )
        },
    }
}

/// Decodes the frame at the start of `buffer`; the buffer must hold all of it.
pub fn create_frames_from_buffer(buffer: &[u8]) -> (frame: Frame)
    requires
        spec_frame_at_start(buffer@) is Some,
    ensures
        frame@ == spec_frame_at_start(buffer@).unwrap(),
        frame.data@.len() == frame.message_length,
{
    let first = buffer[0];
    let fin = first & 0x80 != 0;
    let rsv1 = first & 0x40 != 0;
    let rsv2 = first & 0x20 != 0;
    let rsv3 = first & 0x10 != 0;
    let frame_type = get_frame_type(first);
    let (message_length, key_at) = read_length_field(buffer, 1, false).unwrap();
    let mask = [buffer[key_at], buffer[key_at + 1], buffer[key_at + 2], buffer[key_at + 3]];
    let data = unmask(buffer, key_at, message_length as usize);
    assert(mask@ =~= buffer@.subrange(key_at as int, key_at + 4));
    Frame { fin, rsv1, rsv2, rsv3, frame_type, message_length, mask, data }
}

/// The frames that a read of `end` bytes into `b` yields, from index `i` on:
/// while `i < end`, a frame starts at `i` whose first byte must carry the FIN
/// bit and no reserved bit (any other first byte ends the sequence there).
/// Its length field starts at `i + 1` and is read with the whole-byte test
/// for the extended forms; the key and payload follow, and the next frame
/// starts right after the payload. Every frame is recorded as final, with no
/// reserved bit, whatever its first byte said. `None` where a field, key or
/// payload would run past the end of `b`. (A read never reports more bytes
/// than the buffer holds, so `end <= b.len()`.)
pub open spec fn spec_messages(b: Seq<u8>, i: int, end: int) -> Option<Seq<FrameView>>
    decreases b.len() - i,
{
    if i < 0 || i >= end || i >= b.len() {
        Some(Seq::empty())
    } else if b[i] & 0xf0 != 0x80 {
        Some(Seq::empty())
    } else {
        match spec_length_field(b, i + 1, true) {
            None => None,
            Some((len, key_at)) => if key_at + 4 + len > b.len() {
                None
            } else {
                let frame = FrameView {
                    fin: true,
                    rsv1: false,
                    rsv2: false,
                    rsv3: false,
                    frame_type: spec_frame_type(b[i]),
                    message_length: len as u64,
                    mask: b.subrange(key_at, key_at + 4),
                    data: spec_unmask(b, key_at, len),
                };
                proof {
                    lemma_length_field_position(b, i + 1, true);
                }
                match spec_messages(b, key_at + 4 + len, end) {
                    None => None,
                    Some(rest) => Some(seq![frame] + rest),
                }
            },
        }
    }
}

/// `frames` followed by what `rest` holds, if it holds anything.
pub open spec fn prepend_frames(frames: Seq<FrameView>, rest: Option<Seq<FrameView>>) -> Option<
    Seq<FrameView>,
> {
    match rest {
        None => None,
        Some(r) => Some(frames + r),
    }
}

/// Decodes the frames that a read of `bytes_read` bytes left in `buffer`, or
/// `None` where one of them would run past the end of `buffer`.
pub fn try_parse_messages(buffer: &[u8], bytes_read: usize) -> (frames: Option<Vec<Frame>>)
    requires
        bytes_read <= buffer.len(),
    ensures
        match spec_messages(buffer@, 0, bytes_read as int) {
            None => frames is None,
            Some(expected) => frames is Some && frames_view(frames.unwrap()@) == expected,
        },
{
    let mut frames: Vec<Frame> = Vec::new();
    let mut i: usize = 0;
    while i < bytes_read
        invariant
            bytes_read <= buffer.len(),
            i <= buffer.len(),
            spec_messages(buffer@, 0, bytes_read as int) == prepend_frames(
                frames_view(frames@),
                spec_messages(buffer@, i as int, bytes_read as int),
            ),
        decreases buffer.len() - i,
    {
        let ghost before = frames_view(frames@);
        if buffer[i] & 0xf0 != 0x80 {
            assert(before + Seq::empty() =~= before);
            return Some(frames);
        }
        let frame_type = get_frame_type(buffer[i]);
        let (message_length, key_at) = match read_length_field(buffer, i + 1, true) {
            Some(field) => field,
            None => {
                return None;
            },
        };
        if key_at > buffer.len() || buffer.len() - key_at < 4 || message_length > (buffer.len()
            - key_at - 4) as u64 {
            return None;
        }
        let len = message_length as usize;
        let mask = [buffer[key_at], buffer[key_at + 1], buffer[key_at + 2], buffer[key_at + 3]];
        let data = unmask(buffer, key_at, len);
        assert(mask@ =~= buffer@.subrange(key_at as int, key_at + 4));
        let frame = create_frame(true, false, false, false, frame_type, message_length, mask, data);
        frames.push(frame);
        i = key_at + 4 + len;
        proof {
            assert(frames_view(frames@) =~= before.push(frame@));
            let rest = spec_messages(buffer@, i as int, bytes_read as int);
            if let Some(r) = rest {
                assert(before + (seq![frame@] + r) =~= before.push(frame@) + r);
            }
        }
    }
    assert(frames_view(frames@) + Seq::empty() =~= frames_view(frames@));
    Some(frames)
}

/// Decodes the frames that a read of `bytes_read` bytes left in `buffer`;
/// none of them may run past the end of `buffer`.
pub fn parse_messages(buffer: &[u8], bytes_read: usize) -> (frames: Vec<Frame>)
    requires
        bytes_read <= buffer.len(),
        spec_messages(buffer@, 0, bytes_read as int) is Some,
    ensures
        frames_view(frames@) == spec_messages(buffer@, 0, bytes_read as int).unwrap(),
{
    try_parse_messages(buffer, bytes_read).unwrap()
}

/// The number written for a frame type in the first byte of an outgoing
/// frame: the type's position among the variants of [`Frametype`].
pub open spec fn spec_type_code(t: Frametype) -> u8 {
    match t {
        Frametype::Continuation => 0,
        Frametype::Text => 1,
        Frametype::Binary => 2,
        Frametype::Close => 3,
        Frametype::Ping => 4,
        Frametype::Pong => 5,
        Frametype::Reserved => 6,
        Frametype::Unknown => 7,
    }
}

fn type_code(t: Frametype) -> (code: u8)
    ensures
        code == spec_type_code(t),
{
    match t {
        Frametype::Continuation => 0,
        Frametype::Text => 1,
        Frametype::Binary => 2,
        Frametype::Close => 3,
        Frametype::Ping => 4,
        Frametype::Pong => 5,
        Frametype::Reserved => 6,
        Frametype::Unknown => 7,
    }
}

/// The longest payload length that an outgoing frame announces in the
/// 64-bit form; above it no length field is written at all.
pub const LONGEST_ENCODED_LENGTH: u64 = 1_844_674_407_370_955_160;

/// The length field of an outgoing (unmasked) frame: the length itself up to
/// 125, the marker 126 and two big-endian bytes up to 65535, the marker 127
/// and eight big-endian bytes up to [`LONGEST_ENCODED_LENGTH`], and nothing
/// beyond.
pub open spec fn spec_length_header(len: u64) -> Seq<u8> {
    if len <= 125 {
        seq![len as u8]
    } else if len <= 65535 {
        seq![126u8] + be_bytes(len as nat, 2)
    } else if len <= LONGEST_ENCODED_LENGTH {
        seq![127u8] + be_bytes(len as nat, 8)
    } else {
        Seq::empty()
    }
}

/// The bytes sent for a frame: a first byte with the FIN bit and the type
/// code, the length field for the announced length, and the payload as it
/// is, with no masking key.
pub open spec fn spec_encode_frame(f: FrameView) -> Seq<u8> {
    seq![0x80u8 | spec_type_code(f.frame_type)] + spec_length_header(f.message_length) + f.data
}

/// Serialises a frame for sending.
pub fn encode_frame(frame: &Frame) -> (bytes: Vec<u8>)
    ensures
        bytes@ == spec_encode_frame(frame@),
{
    let mut bytes: Vec<u8> = Vec::new();
    bytes.push(0x80u8 | type_code(frame.frame_type));
    let len = frame.message_length;
    let ghost first = bytes@;
    if len <= 125 {
        bytes.push(len as u8);
    } else if len <= 65535 {
        bytes.push(126);
        write_be(&mut bytes, len, 2);
    } else if len <= LONGEST_ENCODED_LENGTH {
        bytes.push(127);
        write_be(&mut bytes, len, 8);
    }
    assert(bytes@ =~= first + spec_length_header(len));
    let ghost header = bytes@;
    let mut k: usize = 0;
    while k < frame.data.len()
        invariant
            k <= frame.data.len(),
            bytes@ =~= header + frame.data@.subrange(0, k as int),
        decreases frame.data.len() - k,
    {
        bytes.push(frame.data[k]);
        k = k + 1;
    }
    assert(frame.data@.subrange(0, frame.data.len() as int) =~= frame.data@);
    bytes
}

/// The frame that carries a text message: final, of type `Text`, with a zero
/// key and the message's UTF-8 bytes as payload.
pub fn string_message_frame(message: &str) -> (frame: Frame)
    ensures
        frame@ == (FrameView {
            fin: true,
            rsv1: false,
            rsv2: false,
            rsv3: false,
            frame_type: Frametype::Text,
            message_length: message.spec_bytes().len() as u64,
            mask: seq![0u8, 0u8, 0u8, 0u8],
            data: message.spec_bytes(),
        }),
{
    let message_bytes = message.as_bytes();
    let mask: [u8; 4] = [0, 0, 0, 0];
    assert(mask@ =~= seq![0u8, 0u8, 0u8, 0u8]);
    create_frame(
        true,
        false,
        false,
        false,
        Frametype::Text,
        message_bytes.len() as u64,
        mask,
        slice_to_vec(message_bytes),
    )
}

/// The frame that carries a binary message: final, of type `Binary`, with a
/// zero key and the message as payload.
pub fn binary_message_frame(message: &[u8]) -> (frame: Frame)
    ensures
        frame@ == (FrameView {
            fin: true,
            rsv1: false,
            rsv2: false,
            rsv3: false,
            frame_type: Frametype::Binary,
            message_length: message@.len() as u64,
            mask: seq![0u8, 0u8, 0u8, 0u8],
            data: message@,
        }),
{
    let mask: [u8; 4] = [0, 0, 0, 0];
    assert(mask@ =~= seq![0u8, 0u8, 0u8, 0u8]);
    create_frame(
        true,
        false,
        false,
        false,
        Frametype::Binary,
        message.len() as u64,
        mask,
        slice_to_vec(message),
    )
}

} // verus!
