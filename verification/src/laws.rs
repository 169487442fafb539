use vstd::prelude::*;

use crate::handshake::{key_header, spec_kept, spec_taken};
use crate::httpparser::{
    content_end, find_separator, header_value_from, line_end, spec_header_value, starts_with_key,
};
use crate::bytes::{be_bytes, lemma_be_round_trip, lemma_be_value_bound, lemma_pow256_values, pow256};
use crate::frame::{
    lemma_length_field_position, spec_encode_frame, spec_frame_at_start, spec_frame_type, spec_length_field, spec_length_header,
    spec_messages, spec_type_code, spec_unmask, FrameView, Frametype, LONGEST_ENCODED_LENGTH,
};

verus! {

/// `payload` with each byte exclusive-ored with the key byte of its position
/// modulo four, as a client sends it.
pub open spec fn spec_masked(payload: Seq<u8>, mask: Seq<u8>) -> Seq<u8> {
    Seq::new(payload.len(), |k: int| payload[k] ^ mask[k % 4])
}

/// The length field of a masked (client) frame for a payload of `len`
/// bytes: the mask bit with the length up to 125, else the mask bit with the
/// marker 126 and two big-endian bytes up to 65535, else the mask bit with
/// the marker 127 and eight big-endian bytes.
pub open spec fn spec_client_length_field(len: nat) -> Seq<u8> {
    if len <= 125 {
        seq![0x80u8 | (len as u8)]
    } else if len <= 65535 {
        seq![0xfeu8] + be_bytes(len, 2)
    } else {
        seq![0xffu8] + be_bytes(len, 8)
    }
}

/// The bytes of a frame as a client sends it: the first byte, the length
/// field, the masking key, and the masked payload.
pub open spec fn spec_client_frame(first: u8, mask: Seq<u8>, payload: Seq<u8>) -> Seq<u8> {
    seq![first] + spec_client_length_field(payload.len()) + mask + spec_masked(payload, mask)
}

/// The frame a client meant to send with these parts.
pub open spec fn spec_client_frame_view(first: u8, mask: Seq<u8>, payload: Seq<u8>) -> FrameView {
    FrameView {
        fin: first & 0x80 != 0,
        rsv1: first & 0x40 != 0,
        rsv2: first & 0x20 != 0,
        rsv3: first & 0x10 != 0,
        frame_type: spec_frame_type(first),
        message_length: payload.len() as u64,
        mask,
        data: payload,
    }
}

proof fn lemma_xor_twice(x: u8, y: u8)
    ensures
        (x ^ y) ^ y == x,
{
    assert((x ^ y) ^ y == x) by (bit_vector);
}

/// Decoding a client frame from the start of a buffer gives back the flags
/// and kind of its first byte, its masking key, and the payload the client
/// masked, whatever the payload's length.
pub proof fn lemma_client_frame_decodes(first: u8, mask: Seq<u8>, payload: Seq<u8>)
    requires
        mask.len() == 4,
        payload.len() <= u64::MAX,
    ensures
        spec_frame_at_start(spec_client_frame(first, mask, payload)) == Some(
            spec_client_frame_view(first, mask, payload),
        ),
{
    let len = payload.len();
    let field = spec_client_length_field(len);
    let b = spec_client_frame(first, mask, payload);
    let key_at: int = 1 + field.len() as int;
    lemma_pow256_values();
    if len <= 125 {
        let byte = len as u8;
        assert((0x80u8 | byte) & 0x7f == byte) by (bit_vector)
            requires
                byte <= 125,
        ;
        assert(b[1] == 0x80u8 | byte);
    } else if len <= 65535 {
        lemma_be_round_trip(len, 2);
        assert(b[1] == 0xfeu8);
        assert(0xfeu8 & 0x7f == 126) by (bit_vector);
        assert(b.subrange(2, 4) =~= be_bytes(len, 2));
    } else {
        assert(len < pow256(8));
        lemma_be_round_trip(len, 8);
        assert(b[1] == 0xffu8);
        assert(0xffu8 & 0x7f == 127) by (bit_vector);
        assert(0xffu8 & 0x7f > 125) by (bit_vector);
        assert(b.subrange(2, 10) =~= be_bytes(len, 8));
    }
    assert(b.subrange(key_at, key_at + 4) =~= mask);
    let frame = spec_frame_at_start(b).unwrap();
    assert forall|k: int| 0 <= k < len implies #[trigger] frame.data[k] == payload[k] by {
        assert(b[key_at + 4 + k] == payload[k] ^ mask[k % 4]);
        assert(b[key_at + (k % 4)] == mask[k % 4]);
        lemma_xor_twice(payload[k], mask[k % 4]);
    }
    assert(frame.data =~= payload);
    assert(b[0] == first);
}

/// A client frame with a short payload (at most 125 bytes) that stands at
/// index `i` of `b` is read there by the message reader: its length field, key
/// and unmasked payload are those the client sent.
proof fn lemma_short_client_frame_at(b: Seq<u8>, i: int, first: u8, mask: Seq<u8>, payload: Seq<u8>)
    requires
        mask.len() == 4,
        payload.len() <= 125,
        0 <= i,
        i + spec_client_frame(first, mask, payload).len() <= b.len(),
        b.subrange(i, i + spec_client_frame(first, mask, payload).len()) == spec_client_frame(
            first,
            mask,
            payload,
        ),
    ensures
        b[i] == first,
        spec_length_field(b, i + 1, true) == Some((payload.len(), i + 2)),
        b.subrange(i + 2, i + 6) == mask,
        spec_unmask(b, i + 2, payload.len()) == payload,
        spec_client_frame(first, mask, payload).len() == 6 + payload.len(),
{
    let cf = spec_client_frame(first, mask, payload);
    let len = payload.len();
    let byte = len as u8;
    assert(cf.len() == 6 + len);
    assert(b[i] == cf[0]);
    assert(b[i + 1] == cf[1]);
    assert(cf[1] == 0x80u8 | byte);
    assert((0x80u8 | byte) & 0x7f == byte && (0x80u8 | byte) & 0x7f <= 125) by (bit_vector)
        requires
            byte <= 125,
    ;
    assert(b.subrange(i + 2, i + 6) =~= mask) by {
        assert forall|k: int| 0 <= k < 4 implies b[i + 2 + k] == mask[k] by {
            assert(b[i + 2 + k] == cf[2 + k]);
        }
    }
    assert forall|k: int| 0 <= k < len implies #[trigger] spec_unmask(b, i + 2, len)[k]
        == payload[k] by {
        assert(b[i + 6 + k] == cf[6 + k]);
        assert(cf[6 + k] == payload[k] ^ mask[k % 4]);
        assert(b[i + 2 + (k % 4)] == cf[2 + (k % 4)]);
        lemma_xor_twice(payload[k], mask[k % 4]);
    }
    assert(spec_unmask(b, i + 2, len) =~= payload);
}

/// The bytes of a run of client frames, each given by its first byte,
/// masking key and payload.
pub open spec fn spec_client_stream(frames: Seq<(u8, Seq<u8>, Seq<u8>)>) -> Seq<u8>
    decreases frames.len(),
{
    if frames.len() == 0 {
        Seq::empty()
    } else {
        spec_client_frame(frames[0].0, frames[0].1, frames[0].2) + spec_client_stream(
            frames.drop_first(),
        )
    }
}

/// The frames a client meant to send with a run of parts.
pub open spec fn spec_client_stream_view(frames: Seq<(u8, Seq<u8>, Seq<u8>)>) -> Seq<FrameView> {
    frames.map_values(|f: (u8, Seq<u8>, Seq<u8>)| spec_client_frame_view(f.0, f.1, f.2))
}

/// Whether every frame of a run is final, has no reserved bit set, has a key
/// of four bytes and a payload of at most 125 bytes.
pub open spec fn short_final_client_frames(frames: Seq<(u8, Seq<u8>, Seq<u8>)>) -> bool {
    forall|k: int|
        0 <= k < frames.len() ==> {
            &&& #[trigger] frames[k].0 & 0xf0 == 0x80
            &&& frames[k].1.len() == 4
            &&& frames[k].2.len() <= 125
        }
}

proof fn lemma_client_stream_parses_at(
    frames: Seq<(u8, Seq<u8>, Seq<u8>)>,
    prefix: Seq<u8>,
    tail: Seq<u8>,
)
    requires
        short_final_client_frames(frames),
    ensures
        spec_messages(
            prefix + spec_client_stream(frames) + tail,
            prefix.len() as int,
            (prefix.len() + spec_client_stream(frames).len()) as int,
        ) == Some(spec_client_stream_view(frames)),
    decreases frames.len(),
{
    let stream = spec_client_stream(frames);
    let b = prefix + stream + tail;
    let i = prefix.len() as int;
    let end = (prefix.len() + stream.len()) as int;
    if frames.len() == 0 {
        assert(spec_client_stream_view(frames) =~= Seq::empty());
    } else {
        let (first, mask, payload) = frames[0];
        assert(frames[0].0 & 0xf0 == 0x80);
        let cf = spec_client_frame(first, mask, payload);
        let rest = frames.drop_first();
        assert(short_final_client_frames(rest)) by {
            assert forall|k: int| 0 <= k < rest.len() implies #[trigger] rest[k].0 & 0xf0 == 0x80
                && rest[k].1.len() == 4 && rest[k].2.len() <= 125 by {
                assert(rest[k] == frames[k + 1]);
            }
        }
        assert(stream == cf + spec_client_stream(rest));
        assert(b.subrange(i, i + cf.len()) =~= cf);
        lemma_short_client_frame_at(b, i, first, mask, payload);
        let next_prefix = prefix + cf;
        lemma_client_stream_parses_at(rest, next_prefix, tail);
        assert(next_prefix + spec_client_stream(rest) + tail =~= b);
        assert(first & 0xf0 == 0x80 ==> (first & 0x80 != 0 && first & 0x40 == 0 && first & 0x20
            == 0 && first & 0x10 == 0)) by (bit_vector);
        assert(cf.len() > 0);
        assert(stream.len() > 0);
        assert(b[i] & 0xf0 == 0x80);
        let expected_rest = spec_client_stream_view(rest);
        assert(spec_client_stream_view(frames) =~= seq![
            spec_client_frame_view(first, mask, payload),
        ] + expected_rest);
    }
}

/// A read that holds a run of final client frames with short payloads (and
/// anything after them) yields exactly the frames the client sent.
pub proof fn lemma_client_messages_parse(frames: Seq<(u8, Seq<u8>, Seq<u8>)>, tail: Seq<u8>)
    requires
        short_final_client_frames(frames),
    ensures
        spec_messages(
            spec_client_stream(frames) + tail,
            0,
            spec_client_stream(frames).len() as int,
        ) == Some(spec_client_stream_view(frames)),
{
    let empty: Seq<u8> = Seq::empty();
    lemma_client_stream_parses_at(frames, empty, tail);
    assert(empty + spec_client_stream(frames) =~= spec_client_stream(frames));
}

/// The header of an encoded frame reads back: its first byte carries the FIN
/// bit and no reserved bit, and a reader of length fields (with either test
/// for the extended forms) finds the announced length, followed by the
/// payload. This holds up to [`LONGEST_ENCODED_LENGTH`]; beyond it no length
/// field is written.
pub proof fn lemma_encoded_frame_header(f: FrameView)
    requires
        f.message_length <= LONGEST_ENCODED_LENGTH,
    ensures
        ({
            let b = spec_encode_frame(f);
            let data_at = 1 + spec_length_header(f.message_length).len() as int;
            &&& b[0] & 0xf0 == 0x80
            &&& spec_length_field(b, 1, false) == Some((f.message_length as nat, data_at))
            &&& spec_length_field(b, 1, true) == Some((f.message_length as nat, data_at))
            &&& b.subrange(data_at, b.len() as int) == f.data
        }),
{
    let b = spec_encode_frame(f);
    let header = spec_length_header(f.message_length);
    let len = f.message_length;
    let code = spec_type_code(f.frame_type);
    assert(code <= 7);
    assert((0x80u8 | code) & 0xf0 == 0x80) by (bit_vector)
        requires
            code <= 7,
    ;
    lemma_pow256_values();
    assert(b[1] == header[0]);
    if len <= 125 {
        let byte = len as u8;
        assert(byte & 0x7f == byte) by (bit_vector)
            requires
                byte <= 125,
        ;
    } else if len <= 65535 {
        lemma_be_round_trip(len as nat, 2);
        assert(126u8 & 0x7f == 126) by (bit_vector);
        assert(b.subrange(2, 4) =~= be_bytes(len as nat, 2));
    } else {
        assert((len as nat) < pow256(8));
        lemma_be_round_trip(len as nat, 8);
        assert(127u8 & 0x7f == 127) by (bit_vector);
        assert(b.subrange(2, 10) =~= be_bytes(len as nat, 8));
    }
    assert(b.subrange(1 + header.len() as int, b.len() as int) =~= f.data);
}

/// The first byte of an encoded frame announces the frame's own type to a
/// reader for continuation, text, binary and reserved frames (the type codes
/// of the other kinds are read back as reserved opcodes).
pub proof fn lemma_encoded_frame_type(f: FrameView)
    requires
        f.frame_type == Frametype::Continuation || f.frame_type == Frametype::Text
            || f.frame_type == Frametype::Binary || f.frame_type == Frametype::Reserved,
    ensures
        spec_frame_type(spec_encode_frame(f)[0]) == f.frame_type,
{
    let code = spec_type_code(f.frame_type);
    assert(code <= 7);
    assert((0x80u8 | code) & 0x0f == code) by (bit_vector)
        requires
            code <= 7,
    ;
}

proof fn lemma_split_conserves_from<T>(items: Seq<T>, marked: Seq<bool>, lo: int)
    requires
        marked.len() == items.len(),
        0 <= lo <= items.len(),
    ensures
        spec_taken(items, marked, lo).to_multiset().add(spec_kept(items, marked, lo).to_multiset())
            =~= items.subrange(lo, items.len() as int).to_multiset(),
    decreases items.len() - lo,
{
    broadcast use vstd::seq_lib::group_to_multiset_ensures;
    broadcast use vstd::multiset::group_multiset_axioms;

    if lo == items.len() {
        assert(items.subrange(lo, items.len() as int) =~= Seq::<T>::empty());
    } else {
        lemma_split_conserves_from(items, marked, lo + 1);
        let x = items[lo];
        let rest = items.subrange(lo + 1, items.len() as int);
        assert(items.subrange(lo, items.len() as int) =~= seq![x] + rest);
        vstd::seq_lib::lemma_multiset_commutative(seq![x], rest);
        assert(seq![x].to_multiset() =~= Seq::<T>::empty().push(x).to_multiset());
        if !marked[lo] {
            vstd::seq_lib::lemma_multiset_commutative(seq![x], spec_kept(items, marked, lo + 1));
        }
    }
}

/// Splitting off the marked items loses nothing and adds nothing: the items
/// removed and the items kept are together the items there were.
pub proof fn lemma_split_conserves<T>(items: Seq<T>, marked: Seq<bool>)
    requires
        marked.len() == items.len(),
    ensures
        spec_taken(items, marked, 0).to_multiset().add(spec_kept(items, marked, 0).to_multiset())
            == items.to_multiset(),
{
    lemma_split_conserves_from(items, marked, 0);
    assert(items.subrange(0, items.len() as int) =~= items);
}

/// Whether `s` holds no `": "`.
pub open spec fn no_separator(s: Seq<char>) -> bool {
    forall|j: int| 0 <= j < s.len() - 1 ==> !(#[trigger] s[j] == ':' && s[j + 1] == ' ')
}

proof fn lemma_line_end_at(s: Seq<char>, from: int, p: int)
    requires
        0 <= from <= p < s.len(),
        s[p] == '\n',
    ensures
        from <= line_end(s, from) <= p,
        (forall|j: int| from <= j < p ==> s[j] != '\n') ==> line_end(s, from) == p,
    decreases p - from,
{
    if s[from] != '\n' {
        lemma_line_end_at(s, from + 1, p);
    }
}

proof fn lemma_find_separator_at(s: Seq<char>, from: int, to: int, p: int)
    requires
        0 <= from <= p,
        p + 1 < to <= s.len(),
        s[p] == ':' && s[p + 1] == ' ',
        forall|j: int| from <= j < p ==> !(#[trigger] s[j] == ':' && s[j + 1] == ' '),
    ensures
        find_separator(s, from, to) == p,
    decreases p - from,
{
    if from < p {
        lemma_find_separator_at(s, from + 1, to, p);
    }
}

proof fn lemma_find_separator_none(s: Seq<char>, from: int, to: int)
    requires
        0 <= from <= to <= s.len(),
        forall|j: int| from <= j < to - 1 ==> !(#[trigger] s[j] == ':' && s[j + 1] == ' '),
    ensures
        find_separator(s, from, to) == to,
    decreases to - from,
{
    if from + 1 < to {
        lemma_find_separator_none(s, from + 1, to);
    }
}

/// Scanning from the start of any line up to `h` finds the value that the
/// lines from `h` on give, when they give one.
proof fn lemma_value_from_reaches(s: Seq<char>, key: Seq<char>, start: int, h: int)
    requires
        0 <= start <= h <= s.len(),
        start == h || s[h - 1] == '\n',
        header_value_from(s, key, h) is Some,
    ensures
        header_value_from(s, key, start) == header_value_from(s, key, h),
    decreases h - start,
{
    if start < h {
        lemma_line_end_at(s, start, h - 1);
        let end = line_end(s, start);
        lemma_value_from_reaches(s, key, end + 1, h);
    }
}

/// The text of `lines`, each followed by a line feed.
pub open spec fn spec_lines_text(lines: Seq<Seq<char>>) -> Seq<char>
    decreases lines.len(),
{
    if lines.len() == 0 {
        Seq::empty()
    } else {
        lines[0] + seq!['\n'] + spec_lines_text(lines.drop_first())
    }
}

/// Whether no line of `lines` holds a line feed or starts with `key`.
pub open spec fn lines_without_key(lines: Seq<Seq<char>>, key: Seq<char>) -> bool {
    forall|k: int|
        0 <= k < lines.len() ==> !(#[trigger] lines[k]).contains('\n') && !(lines[k].len()
            >= key.len() && lines[k].subrange(0, key.len() as int) == key)
}

/// Lines that do not start with `key`, standing from `p` to the end of `s`,
/// give no value for `key`.
proof fn lemma_lines_without_key_give_nothing(
    s: Seq<char>,
    key: Seq<char>,
    p: int,
    lines: Seq<Seq<char>>,
)
    requires
        0 <= p <= s.len(),
        s.subrange(p, s.len() as int) == spec_lines_text(lines),
        lines_without_key(lines, key),
    ensures
        header_value_from(s, key, p) is None,
    decreases lines.len(),
{
    if lines.len() == 0 {
        assert(s.subrange(p, s.len() as int).len() == 0);
    } else {
        let l = lines[0];
        let rest = lines.drop_first();
        let ll = l.len() as int;
        let text = spec_lines_text(lines);
        assert(text == l + seq!['\n'] + spec_lines_text(rest));
        assert(!l.contains('\n') && !(l.len() >= key.len() && l.subrange(0, key.len() as int)
            == key));
        assert forall|j: int| p <= j < p + ll implies s[j] != '\n' by {
            assert(s[j] == s.subrange(p, s.len() as int)[j - p]);
            assert(text[j - p] == l[j - p]);
            if s[j] == '\n' {
                assert(l.contains('\n'));
            }
        }
        assert(s[p + ll] == s.subrange(p, s.len() as int)[ll]);
        assert(s[p + ll] == '\n');
        lemma_line_end_at(s, p, p + ll);
        let end = p + ll;
        let stop = content_end(s, p, end);
        if starts_with_key(s, p, stop, key) {
            assert(l.subrange(0, key.len() as int) =~= key) by {
                assert forall|j: int| 0 <= j < key.len() implies l.subrange(
                    0,
                    key.len() as int,
                )[j] == key[j] by {
                    assert(s.subrange(p, p + key.len())[j] == key[j]);
                    assert(s[p + j] == s.subrange(p, s.len() as int)[j]);
                    assert(text[j] == l[j]);
                }
            }
            assert(false);
        }
        assert(s.subrange(end + 1, s.len() as int) =~= spec_lines_text(rest)) by {
            assert forall|j: int| 0 <= j < s.len() - (end + 1) implies s.subrange(
                end + 1,
                s.len() as int,
            )[j] == spec_lines_text(rest)[j] by {
                assert(s[end + 1 + j] == s.subrange(p, s.len() as int)[ll + 1 + j]);
                assert(text[ll + 1 + j] == spec_lines_text(rest)[j]);
            }
        }
        assert(forall|k: int| 0 <= k < rest.len() ==> rest[k] == lines[k + 1]);
        lemma_lines_without_key_give_nothing(s, key, end + 1, rest);
    }
}

/// The value read for a key does not depend on the lines that follow its
/// line: after lines that end with a line feed, the line `key: value` (ended
/// by a carriage return and a line feed) followed by any lines that do not
/// start with `key` gives exactly `value`, whatever its length, when neither
/// `key` nor `value` holds a line feed or a `": "`.
pub proof fn lemma_header_value_ignores_following_lines(
    headers: Seq<char>,
    key: Seq<char>,
    value: Seq<char>,
    following: Seq<Seq<char>>,
)
    requires
        headers.len() == 0 || headers.last() == '\n',
        !key.contains('\n'),
        !value.contains('\n'),
        no_separator(key),
        no_separator(value),
        lines_without_key(following, key),
    ensures
        spec_header_value(
            headers + key + seq![':', ' '] + value + seq!['\r', '\n'] + spec_lines_text(following),
            key,
        ) == Some(value),
{
    let line = headers + key + seq![':', ' '] + value + seq!['\r', '\n'];
    let s = line + spec_lines_text(following);
    let hl = headers.len() as int;
    let kl = key.len() as int;
    let vl = value.len() as int;
    let n = line.len() as int;
    assert(n == hl + kl + 2 + vl + 2);
    assert forall|j: int| hl <= j < n - 1 implies s[j] != '\n' by {
        if j < hl + kl {
            assert(s[j] == key[j - hl]);
        } else if hl + kl + 2 <= j < hl + kl + 2 + vl {
            assert(s[j] == value[j - hl - kl - 2]);
        }
    }
    assert(s[n - 1] == '\n');
    lemma_line_end_at(s, hl, n - 1);
    assert(line_end(s, hl) == n - 1);
    let stop = n - 2;
    assert(s[n - 2] == '\r');
    assert(content_end(s, hl, n - 1) == stop);
    assert(s.subrange(hl, hl + kl) =~= key);
    assert(starts_with_key(s, hl, stop, key));
    let sep = hl + kl;
    assert forall|j: int| hl <= j < sep implies !(#[trigger] s[j] == ':' && s[j + 1] == ' ') by {
        assert(s[j] == key[j - hl]);
        if j + 1 < sep {
            assert(s[j + 1] == key[j + 1 - hl]);
        } else {
            assert(s[j + 1] == ':');
        }
    }
    lemma_find_separator_at(s, hl, stop, sep);
    assert forall|j: int| sep + 2 <= j < stop - 1 implies !(#[trigger] s[j] == ':' && s[j + 1] == ' ') by {
        assert(s[j] == value[j - sep - 2]);
        assert(s[j + 1] == value[j + 1 - sep - 2]);
    }
    lemma_find_separator_none(s, sep + 2, stop);
    assert(s.subrange(n, s.len() as int) =~= spec_lines_text(following));
    lemma_lines_without_key_give_nothing(s, key, n, following);
    assert(header_value_from(s, key, hl) == Some((sep + 2, stop)));
    if hl > 0 {
        assert(s[hl - 1] == headers.last());
    }
    lemma_value_from_reaches(s, key, 0, hl);
    assert(s.subrange(sep + 2, stop) =~= value);
}

/// A header line appended after the others is the one whose value is read:
/// after lines that end with a line feed, the line `key: value` (ended by a
/// carriage return and a line feed) gives `value`, when neither `key` nor
/// `value` holds a line feed or a `": "`.
pub proof fn lemma_last_header_line_wins(headers: Seq<char>, key: Seq<char>, value: Seq<char>)
    requires
        headers.len() == 0 || headers.last() == '\n',
        !key.contains('\n'),
        !value.contains('\n'),
        no_separator(key),
        no_separator(value),
    ensures
        spec_header_value(headers + key + seq![':', ' '] + value + seq!['\r', '\n'], key) == Some(
            value,
        ),
{
    let none: Seq<Seq<char>> = Seq::empty();
    lemma_header_value_ignores_following_lines(headers, key, value, none);
    let line = headers + key + seq![':', ' '] + value + seq!['\r', '\n'];
    assert(line + spec_lines_text(none) =~= line);
}

/// The frame type depends on the opcode alone: the high four bits of the
/// first byte play no part in it.
pub proof fn lemma_frame_type_reads_opcode(byte: u8)
    ensures
        spec_frame_type(byte) == spec_frame_type(byte & 0x0f),
{
    assert((byte & 0x0f) & 0x0f == byte & 0x0f) by (bit_vector);
}

/// The bytes sent for a text message: `0x81` (final text frame), the length
/// field for the length of its UTF-8 bytes, and those bytes.
pub proof fn lemma_text_message_bytes(payload: Seq<u8>)
    requires
        payload.len() <= u64::MAX,
    ensures
        spec_encode_frame(
            FrameView {
                fin: true,
                rsv1: false,
                rsv2: false,
                rsv3: false,
                frame_type: Frametype::Text,
                message_length: payload.len() as u64,
                mask: seq![0u8, 0u8, 0u8, 0u8],
                data: payload,
            },
        ) == seq![0x81u8] + spec_length_header(payload.len() as u64) + payload,
{
    assert(0x80u8 | 1u8 == 0x81u8) by (bit_vector);
}


/// A length field that lies within `b` reads the same in `b` followed by
/// anything.
proof fn lemma_length_field_ignores_tail(b: Seq<u8>, t: Seq<u8>, at: int, whole_byte: bool)
    requires
        spec_length_field(b, at, whole_byte) is Some,
    ensures
        spec_length_field(b + t, at, whole_byte) == spec_length_field(b, at, whole_byte),
{
    let bt = b + t;
    assert(bt[at] == b[at]);
    if at + 3 <= b.len() {
        assert(bt.subrange(at + 1, at + 3) =~= b.subrange(at + 1, at + 3));
    }
    if at + 9 <= b.len() {
        assert(bt.subrange(at + 1, at + 9) =~= b.subrange(at + 1, at + 9));
    }
}

/// A frame that lies within `b` decodes the same from `b` followed by
/// anything: exactly the announced number of payload bytes are unmasked.
proof fn lemma_unmask_ignores_tail(b: Seq<u8>, t: Seq<u8>, key_at: int, len: nat)
    requires
        0 <= key_at,
        key_at + 4 + len <= b.len(),
    ensures
        spec_unmask(b + t, key_at, len) == spec_unmask(b, key_at, len),
        spec_unmask(b, key_at, len).len() == len,
        (b + t).subrange(key_at, key_at + 4) == b.subrange(key_at, key_at + 4),
{
    let bt = b + t;
    assert forall|k: int| 0 <= k < len implies #[trigger] spec_unmask(bt, key_at, len)[k]
        == spec_unmask(b, key_at, len)[k] by {
        assert(bt[key_at + 4 + k] == b[key_at + 4 + k]);
        assert(bt[key_at + (k % 4)] == b[key_at + (k % 4)]);
    }
    assert(spec_unmask(bt, key_at, len) =~= spec_unmask(b, key_at, len));
    assert(bt.subrange(key_at, key_at + 4) =~= b.subrange(key_at, key_at + 4));
}

/// Decoding a frame looks at the frame alone: for every buffer `b` that holds
/// a whole frame and any bytes `t` after it, `b + t` decodes to the same
/// frame as `b`, and its payload has exactly the announced length.
pub proof fn lemma_frame_ignores_following_bytes(b: Seq<u8>, t: Seq<u8>)
    requires
        spec_frame_at_start(b) is Some,
    ensures
        spec_frame_at_start(b + t) == spec_frame_at_start(b),
        spec_frame_at_start(b).unwrap().data.len() == spec_frame_at_start(b).unwrap().message_length,
{
    lemma_length_field_ignores_tail(b, t, 1, false);
    let (len, key_at) = spec_length_field(b, 1, false).unwrap();
    lemma_length_field_position(b, 1, false);
    lemma_unmask_ignores_tail(b, t, key_at, len);
    lemma_length_field_bound(b, 1, false);
    assert((b + t)[0] == b[0]);
}

/// A length field announces a length below `2^64`.
proof fn lemma_length_field_bound(b: Seq<u8>, at: int, whole_byte: bool)
    requires
        spec_length_field(b, at, whole_byte) is Some,
    ensures
        spec_length_field(b, at, whole_byte).unwrap().0 <= u64::MAX,
{
    lemma_pow256_values();
    if at + 3 <= b.len() {
        lemma_be_value_bound(b.subrange(at + 1, at + 3));
    }
    if at + 9 <= b.len() {
        lemma_be_value_bound(b.subrange(at + 1, at + 9));
    }
}

/// Reading the frames of a read looks at the bytes read and the frames they
/// start alone: where they decode from `b`, they decode to the same frames
/// from `b` followed by anything, and every payload has exactly its
/// announced length.
pub proof fn lemma_messages_ignore_following_bytes(b: Seq<u8>, t: Seq<u8>, i: int, end: int)
    requires
        0 <= i,
        end <= b.len(),
        spec_messages(b, i, end) is Some,
    ensures
        spec_messages(b + t, i, end) == spec_messages(b, i, end),
        forall|k: int|
            0 <= k < spec_messages(b, i, end).unwrap().len() ==> (#[trigger] spec_messages(
                b,
                i,
                end,
            ).unwrap()[k]).data.len() == spec_messages(b, i, end).unwrap()[k].message_length,
    decreases b.len() - i,
{
    let bt = b + t;
    if i < end && i < b.len() {
        assert(bt[i] == b[i]);
        if b[i] & 0xf0 == 0x80 {
            lemma_length_field_ignores_tail(b, t, i + 1, true);
            lemma_length_field_position(b, i + 1, true);
            lemma_length_field_bound(b, i + 1, true);
            let (len, key_at) = spec_length_field(b, i + 1, true).unwrap();
            lemma_unmask_ignores_tail(b, t, key_at, len);
            lemma_messages_ignore_following_bytes(b, t, key_at + 4 + len, end);
            let rest = spec_messages(b, key_at + 4 + len, end).unwrap();
            let all = spec_messages(b, i, end).unwrap();
            assert forall|k: int| 0 <= k < all.len() implies (#[trigger] all[k]).data.len()
                == all[k].message_length by {
                if k > 0 {
                    assert(all[k] == rest[k - 1]);
                }
            }
        }
    }
}


/// Each item paired with its flag.
pub open spec fn spec_pairs<T>(items: Seq<T>, marked: Seq<bool>) -> Seq<(T, bool)> {
    Seq::new(items.len(), |i: int| (items[i], marked[i]))
}

/// Whether a pair's flag is set.
pub open spec fn flag_set<T>() -> spec_fn((T, bool)) -> bool {
    |p: (T, bool)| p.1
}

/// Whether a pair's flag is clear.
pub open spec fn flag_clear<T>() -> spec_fn((T, bool)) -> bool {
    |p: (T, bool)| !p.1
}

/// The item of a pair.
pub open spec fn item_of<T>() -> spec_fn((T, bool)) -> T {
    |p: (T, bool)| p.0
}

proof fn lemma_filter_single<A>(x: A, pred: spec_fn(A) -> bool)
    ensures
        seq![x].filter(pred) == (if pred(x) {
            seq![x]
        } else {
            Seq::empty()
        }),
{
    reveal_with_fuel(Seq::filter, 2);
    assert(seq![x].drop_last() =~= Seq::<A>::empty());
    assert(Seq::<A>::empty().push(x) =~= seq![x]);
}

proof fn lemma_split_selects_from<T>(items: Seq<T>, marked: Seq<bool>, lo: int)
    requires
        marked.len() == items.len(),
        0 <= lo <= items.len(),
    ensures
        spec_kept(items, marked, lo) == spec_pairs(items, marked).subrange(
            lo,
            items.len() as int,
        ).filter(flag_clear::<T>()).map_values(item_of::<T>()),
        ({
            let chosen = spec_pairs(items, marked).subrange(lo, items.len() as int).filter(
                flag_set::<T>(),
            ).map_values(item_of::<T>());
            &&& spec_taken(items, marked, lo).len() == chosen.len()
            &&& forall|j: int|
                0 <= j < chosen.len() ==> #[trigger] spec_taken(items, marked, lo)[j] == chosen[chosen.len() - 1 - j]
        }),
    decreases items.len() - lo,
{
    let n = items.len() as int;
    let pairs = spec_pairs(items, marked);
    if lo == n {
        assert(pairs.subrange(lo, n) =~= Seq::<(T, bool)>::empty());
        reveal_with_fuel(Seq::filter, 1);
        assert(Seq::<(T, bool)>::empty().filter(flag_clear::<T>()) =~= Seq::<(T, bool)>::empty());
        assert(Seq::<(T, bool)>::empty().filter(flag_set::<T>()) =~= Seq::<(T, bool)>::empty());
        assert(Seq::<(T, bool)>::empty().map_values(item_of::<T>()) =~= Seq::<T>::empty());
    } else {
        lemma_split_selects_from(items, marked, lo + 1);
        let x = pairs[lo];
        let rest = pairs.subrange(lo + 1, n);
        assert(pairs.subrange(lo, n) =~= seq![x] + rest);
        Seq::filter_distributes_over_add(seq![x], rest, flag_clear::<T>());
        Seq::filter_distributes_over_add(seq![x], rest, flag_set::<T>());
        lemma_filter_single(x, flag_clear::<T>());
        lemma_filter_single(x, flag_set::<T>());
        let kept_rest = rest.filter(flag_clear::<T>());
        let set_rest = rest.filter(flag_set::<T>());
        assert(x == (items[lo], marked[lo]));
        if marked[lo] {
            assert(seq![x].filter(flag_clear::<T>()) + kept_rest =~= kept_rest);
            assert(seq![x].filter(flag_set::<T>()) + set_rest =~= seq![x] + set_rest);
            let chosen_rest = set_rest.map_values(item_of::<T>());
            let chosen = (seq![x] + set_rest).map_values(item_of::<T>());
            assert(chosen =~= seq![items[lo]] + chosen_rest);
            let taken = spec_taken(items, marked, lo);
            assert(taken == spec_taken(items, marked, lo + 1).push(items[lo]));
            assert forall|j: int| 0 <= j < chosen.len() implies #[trigger] taken[j] == chosen[chosen.len() - 1 - j] by {
                if j < chosen_rest.len() {
                    assert(spec_taken(items, marked, lo + 1)[j] == chosen_rest[chosen_rest.len() - 1 - j]);
                }
            }
        } else {
            assert(seq![x].filter(flag_clear::<T>()) + kept_rest =~= seq![x] + kept_rest);
            assert(seq![x].filter(flag_set::<T>()) + set_rest =~= set_rest);
            assert((seq![x] + kept_rest).map_values(item_of::<T>()) =~= seq![items[lo]]
                + kept_rest.map_values(item_of::<T>()));
        }
    }
}

/// Exactly the marked items are handed over: the items kept are those whose
/// flag is clear, in their order, and the items removed are those whose flag
/// is set, last one first.
pub proof fn lemma_split_selects_marked<T>(items: Seq<T>, marked: Seq<bool>)
    requires
        marked.len() == items.len(),
    ensures
        spec_kept(items, marked, 0) == spec_pairs(items, marked).filter(flag_clear::<T>()).map_values(
            item_of::<T>(),
        ),
        ({
            let chosen = spec_pairs(items, marked).filter(flag_set::<T>()).map_values(
                item_of::<T>(),
            );
            &&& spec_taken(items, marked, 0).len() == chosen.len()
            &&& forall|j: int|
                0 <= j < chosen.len() ==> #[trigger] spec_taken(items, marked, 0)[j] == chosen[chosen.len() - 1 - j]
        }),
{
    lemma_split_selects_from(items, marked, 0);
    assert(spec_pairs(items, marked).subrange(0, items.len() as int) =~= spec_pairs(items, marked));
}


/// Each frame type stands for exactly its opcode (the low four bits of the
/// first byte): 0 continuation, 1 text, 2 binary, 8 close, 9 ping, 10 pong,
/// any other opcode reserved; no byte reads as `Unknown`.
pub proof fn lemma_frame_type_of_each_opcode(byte: u8)
    ensures
        (spec_frame_type(byte) == Frametype::Continuation) <==> (byte & 0x0f == 0),
        (spec_frame_type(byte) == Frametype::Text) <==> (byte & 0x0f == 1),
        (spec_frame_type(byte) == Frametype::Binary) <==> (byte & 0x0f == 2),
        (spec_frame_type(byte) == Frametype::Close) <==> (byte & 0x0f == 8),
        (spec_frame_type(byte) == Frametype::Ping) <==> (byte & 0x0f == 9),
        (spec_frame_type(byte) == Frametype::Pong) <==> (byte & 0x0f == 10),
        (spec_frame_type(byte) == Frametype::Reserved) <==> !(byte & 0x0f == 0 || byte & 0x0f == 1
            || byte & 0x0f == 2 || byte & 0x0f == 8 || byte & 0x0f == 9 || byte & 0x0f == 10),
        spec_frame_type(byte) != Frametype::Unknown,
{
}

/// The handshake reads the client's key from the `Sec-WebSocket-Key` line:
/// after lines that end with a line feed, the line
/// `Sec-WebSocket-Key: key` (ended by a carriage return and a line feed)
/// followed by lines that do not start with that name gives `key`, when the
/// key holds no line feed and no `": "`.
pub proof fn lemma_handshake_reads_client_key(
    headers: Seq<char>,
    key: Seq<char>,
    following: Seq<Seq<char>>,
)
    requires
        headers.len() == 0 || headers.last() == '\n',
        !key.contains('\n'),
        no_separator(key),
        lines_without_key(following, "Sec-WebSocket-Key"@),
    ensures
        spec_header_value(
            headers + "Sec-WebSocket-Key"@ + seq![':', ' '] + key + seq!['\r', '\n']
                + spec_lines_text(following),
            key_header(),
        ) == Some(key),
{
    reveal_strlit("Sec-WebSocket-Key");
    let name = "Sec-WebSocket-Key"@;
    assert(name.len() == 17);
    assert forall|j: int| 0 <= j < name.len() implies name[j] != '\n' && name[j] != ' ' by {}
    assert(!name.contains('\n'));
    assert(no_separator(name));
    lemma_header_value_ignores_following_lines(headers, name, key, following);
}

} // verus!
