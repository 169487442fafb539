use base64::prelude::BASE64_STANDARD;
use base64::Engine;
use sha1::{Digest, Sha1};
use vstd::prelude::*;
use vstd::string::StringExecFns;
use vstd::utf8::encode_utf8;

pub use crate::httpparser::get_header_value;
use crate::httpparser::{header_lines_well_formed, spec_header_value};

verus! {

/// The SHA-1 digest of `data`.
pub uninterp spec fn sha1_digest_of(data: Seq<u8>) -> Seq<u8>;

/// The standard Base64 text of `data` (RFC 4648 alphabet, with padding).
pub uninterp spec fn base64_standard_of(data: Seq<u8>) -> Seq<char>;

/// Trusted: calls `<Sha1 as Digest>::digest` of the `sha1` crate. Claimed:
/// the result is the digest `sha1_digest_of` of the given bytes, and it is 20
/// bytes long (the output size of `Sha1` is `U20`).
#[verifier::external_body]
fn sha1_digest(data: &[u8]) -> (digest: Vec<u8>)
    ensures
        digest@ == sha1_digest_of(data@),
        digest@.len() == 20,
{
    Sha1::digest(data).to_vec()
}

/// Trusted: calls `Engine::encode` of the `base64` crate on its
/// `BASE64_STANDARD` engine. Claimed: the result is the text
/// `base64_standard_of` of the given bytes. The call panics where the
/// encoded length overflows `usize`, which the bound on the input rules out.
#[verifier::external_body]
fn base64_standard_encode(data: &[u8]) -> (text: String)
    requires
        data@.len() <= usize::MAX / 2,
    ensures
        text@ == base64_standard_of(data@),
{
    BASE64_STANDARD.encode(data)
}

/// The header that carries the client's key in an upgrade request.
pub open spec fn key_header() -> Seq<char> {
    "Sec-WebSocket-Key"@
}

/// The text appended to a client's key before hashing it.
pub open spec fn websocket_guid() -> Seq<char> {
    "258EAFA5-E914-47DA-95CA-C5AB0DC85B11"@
}

/// The accept key answered to a client key: the Base64 text of the SHA-1
/// digest of the UTF-8 bytes of the key followed by the protocol's GUID.
pub open spec fn spec_response_key(websocket_key: Seq<char>) -> Seq<char> {
    base64_standard_of(sha1_digest_of(encode_utf8(websocket_key + websocket_guid())))
}

/// The answer that accepts an upgrade, carrying `response_key`.
pub open spec fn spec_switching_protocols_response(response_key: Seq<char>) -> Seq<char> {
    "HTTP/1.1 101 Switching Protocols\r\nUpgrade: websocket\r\nConnection: Upgrade\r\nSec-WebSocket-Accept: "@
        + response_key + "\r\n\r\n"@
}

/// The UTF-8 bytes of two texts one after the other are the bytes of the
/// first followed by those of the second.
pub proof fn lemma_encode_utf8_concat(a: Seq<char>, b: Seq<char>)
    ensures
        encode_utf8(a + b) == encode_utf8(a) + encode_utf8(b),
    decreases a.len(),
{
    if a.len() == 0 {
        assert(a + b =~= b);
        assert(encode_utf8(a) =~= Seq::<u8>::empty());
        assert(encode_utf8(a) + encode_utf8(b) =~= encode_utf8(b));
    } else {
        assert((a + b).drop_first() =~= a.drop_first() + b);
        assert((a + b)[0] == a[0]);
        lemma_encode_utf8_concat(a.drop_first(), b);
        assert(encode_utf8(a + b) =~= encode_utf8(a) + encode_utf8(b));
    }
}

/// The accept key is the Base64 text of the SHA-1 digest of exactly the
/// UTF-8 bytes of the client's key followed by those of the protocol's GUID,
/// for every key.
pub proof fn lemma_response_key_hashes_key_then_guid(websocket_key: Seq<char>)
    ensures
        spec_response_key(websocket_key) == base64_standard_of(
            sha1_digest_of(
                encode_utf8(websocket_key) + encode_utf8("258EAFA5-E914-47DA-95CA-C5AB0DC85B11"@),
            ),
        ),
{
    lemma_encode_utf8_concat(websocket_key, websocket_guid());
}

/// The answer to an upgrade is the fixed status line and headers, the key,
/// and then exactly a line end and an empty line: for any two keys, the text
/// after the key is the same four characters, so every answer ends the
/// headers.
pub proof fn lemma_switching_response_ends_headers(key: Seq<char>, other_key: Seq<char>)
    ensures
        ({
            let prefix = "HTTP/1.1 101 Switching Protocols\r\nUpgrade: websocket\r\nConnection: Upgrade\r\nSec-WebSocket-Accept: "@;
            let response = spec_switching_protocols_response(key);
            let other = spec_switching_protocols_response(other_key);
            &&& response.len() == prefix.len() + key.len() + 4
            &&& response.subrange(0, prefix.len() as int) == prefix
            &&& response.subrange(prefix.len() as int, (prefix.len() + key.len()) as int) == key
            &&& response.subrange(response.len() - 4, response.len() as int) == seq![
                '\r',
                '\n',
                '\r',
                '\n',
            ]
            &&& response.subrange((prefix.len() + key.len()) as int, response.len() as int)
                == other.subrange((prefix.len() + other_key.len()) as int, other.len() as int)
        }),
{
    reveal_strlit("\r\n\r\n");
    let prefix = "HTTP/1.1 101 Switching Protocols\r\nUpgrade: websocket\r\nConnection: Upgrade\r\nSec-WebSocket-Accept: "@;
    let tail = "\r\n\r\n"@;
    assert(tail =~= seq!['\r', '\n', '\r', '\n']);
    let response = spec_switching_protocols_response(key);
    let other = spec_switching_protocols_response(other_key);
    assert(response.subrange(0, prefix.len() as int) =~= prefix);
    assert(response.subrange(prefix.len() as int, (prefix.len() + key.len()) as int) =~= key);
    assert(response.subrange((prefix.len() + key.len()) as int, response.len() as int) =~= tail);
    assert(other.subrange((prefix.len() + other_key.len()) as int, other.len() as int) =~= tail);
    assert(response.subrange(response.len() - 4, response.len() as int) =~= tail);
}

/// Computes the accept key for a client's `Sec-WebSocket-Key`.
pub fn calculate_response_key(websocket_key: &str) -> (response_key: String)
    ensures
        response_key@ == spec_response_key(websocket_key@),
        response_key@ == base64_standard_of(
            sha1_digest_of(
                encode_utf8(websocket_key@) + encode_utf8("258EAFA5-E914-47DA-95CA-C5AB0DC85B11"@),
            ),
        ),
{
    let mut combined = String::from_str(websocket_key);
    combined.append("258EAFA5-E914-47DA-95CA-C5AB0DC85B11");
    let digest = sha1_digest(combined.as_str().as_bytes());
    proof {
        lemma_encode_utf8_concat(websocket_key@, websocket_guid());
    }
    base64_standard_encode(digest.as_slice())
}

/// The answer that accepts an upgrade, carrying `response_key`.
pub fn switching_protocols_response(response_key: &str) -> (response: String)
    ensures
        response@ == spec_switching_protocols_response(response_key@),
        response@ == "HTTP/1.1 101 Switching Protocols\r\nUpgrade: websocket\r\nConnection: Upgrade\r\nSec-WebSocket-Accept: "@
            + response_key@ + seq!['\r', '\n', '\r', '\n'],
{
    let mut response = String::from_str(
        "HTTP/1.1 101 Switching Protocols\r\nUpgrade: websocket\r\nConnection: Upgrade\r\nSec-WebSocket-Accept: ",
    );
    response.append(response_key);
    response.append("\r\n\r\n");
    proof {
        reveal_strlit("\r\n\r\n");
        assert("\r\n\r\n"@ =~= seq!['\r', '\n', '\r', '\n']);
    }
    response
}

/// Answers the upgrade request `request`: the response that accepts it, or
/// an error where it carries no `Sec-WebSocket-Key` header.
pub fn handshake_response(request: &str) -> (response: Result<String, String>)
    requires
        header_lines_well_formed(request@, key_header()),
    ensures
        match spec_header_value(request@, key_header()) {
            None => response matches Err(e) && e@ == "No WebSocket key found"@,
            Some(key) => response matches Ok(text) && text@ == spec_switching_protocols_response(
                spec_response_key(key),
            ),
        },
{
    match get_header_value(request, "Sec-WebSocket-Key") {
        Err(_) => Err(String::from_str("No WebSocket key found")),
        Ok(websocket_key) => {
            let response_key = calculate_response_key(websocket_key.as_str());
            Ok(switching_protocols_response(response_key.as_str()))
        },
    }
}

/// The items from index `lo` on whose flag is not set, in their order.
pub open spec fn spec_kept<T>(items: Seq<T>, flags: Seq<bool>, lo: int) -> Seq<T>
    decreases items.len() - lo,
{
    if lo < 0 || lo >= items.len() {
        Seq::empty()
    } else if flags[lo] {
        spec_kept(items, flags, lo + 1)
    } else {
        seq![items[lo]] + spec_kept(items, flags, lo + 1)
    }
}

/// The items from index `lo` on whose flag is set, last one first.
pub open spec fn spec_taken<T>(items: Seq<T>, flags: Seq<bool>, lo: int) -> Seq<T>
    decreases items.len() - lo,
{
    if lo < 0 || lo >= items.len() {
        Seq::empty()
    } else if flags[lo] {
        spec_taken(items, flags, lo + 1).push(items[lo])
    } else {
        spec_taken(items, flags, lo + 1)
    }
}

/// Removes from `items` those whose flag in `marked` is set, visiting them
/// from the last to the first, and returns them in the order removed; the
/// others stay in their order.
pub fn split_off_marked<T>(items: &mut Vec<T>, marked: &[bool]) -> (removed: Vec<T>)
    requires
        marked@.len() == old(items)@.len(),
    ensures
        final(items)@ == spec_kept(old(items)@, marked@, 0),
        removed@ == spec_taken(old(items)@, marked@, 0),
{
    let ghost original = items@;
    let mut removed: Vec<T> = Vec::new();
    let mut k: usize = items.len();
    while k > 0
        invariant
            marked@.len() == original.len(),
            k <= original.len(),
            items@ == original.subrange(0, k as int) + spec_kept(original, marked@, k as int),
            removed@ == spec_taken(original, marked@, k as int),
        decreases k,
    {
        let idx = k - 1;
        let ghost before = items@;
        assert(before[idx as int] == original[idx as int]);
        if marked[idx] {
            let item = items.remove(idx);
            removed.push(item);
            assert(items@ =~= original.subrange(0, idx as int) + spec_kept(original, marked@, k as int));
        } else {
            assert(original.subrange(0, k as int) =~= original.subrange(0, idx as int).push(
                original[idx as int],
            ));
            assert(items@ =~= original.subrange(0, idx as int) + (seq![original[idx as int]]
                + spec_kept(original, marked@, k as int)));
        }
        k = idx;
    }
    assert(items@ =~= spec_kept(original, marked@, 0));
    removed
}

} // verus!
