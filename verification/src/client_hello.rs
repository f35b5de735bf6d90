//! Parse TLS ClientHello records and extract the SNI host name without
//! terminating TLS.
//!
//! The format is read as the spec functions below state it: a sequence of
//! TLS records, each holding handshake messages; a ClientHello message holds
//! an extension list, whose `server_name` extension holds a list of names.

use vstd::prelude::*;
use vstd::slice::slice_subrange;
use vstd::utf8::{decode_utf8, encode_utf8, valid_utf8};

use crate::error::{ErrorView, SniProxyError};
use crate::text::{
    ascii_lower, hex_byte, hex_byte_string, lemma_ascii_lower, no_ascii_upper, str_from_utf8,
    to_ascii_lowercase, utf8_error_text,
};

verus! {

broadcast use vstd::utf8::encode_utf8_decode_utf8;

/// Record type of a TLS handshake record.
pub const TLS_HANDSHAKE: u8 = 0x16;

/// Handshake message type of a ClientHello.
pub const HANDSHAKE_CLIENT_HELLO: u8 = 0x01;

/// Extension type of `server_name`.
pub const EXT_SERVER_NAME: u16 = 0;

/// Name type of a `host_name` entry.
pub const NAME_TYPE_HOST: u8 = 0;

/// Maximum bytes buffered while waiting for a complete ClientHello.
pub const MAX_CLIENT_HELLO_BYTES: usize = 16 * 1024;

/// What a parse of buffered bytes comes to: a host name, nothing yet, or an error.
pub type SniOutcome = Result<Option<Seq<char>>, ErrorView>;

/// The mathematical value of a parse result.
pub open spec fn sni_outcome(r: Result<Option<String>, SniProxyError>) -> SniOutcome {
    match r {
        Ok(Some(s)) => Ok(Some(s@)),
        Ok(None) => Ok(None),
        Err(e) => Err(e@),
    }
}

/// The big-endian 16-bit number at `s[i]`, `s[i + 1]`.
pub open spec fn be16(s: Seq<u8>, i: int) -> int {
    s[i] as int * 256 + s[i + 1] as int
}

/// The big-endian 24-bit number at `s[i]`..`s[i + 2]`.
pub open spec fn be24(s: Seq<u8>, i: int) -> int {
    s[i] as int * 65536 + s[i + 1] as int * 256 + s[i + 2] as int
}

pub open spec fn msg_record_type(b: u8) -> Seq<char> {
    "expected TLS handshake record (0x16), got 0x"@ + hex_byte(b)
}

pub open spec fn msg_truncated_header() -> Seq<char> {
    "truncated TLS record header"@
}

pub open spec fn msg_length_underflow() -> Seq<char> {
    "handshake length underflow"@
}

pub open spec fn msg_invalid_utf8(bytes: Seq<u8>) -> Seq<char> {
    "invalid SNI UTF-8: "@ + utf8_error_text(bytes)
}

/// The host name that a `host_name` entry carries: its UTF-8 text in ASCII
/// lower case, or an error when the bytes are not UTF-8.
pub open spec fn spec_host_name(bytes: Seq<u8>) -> SniOutcome {
    if valid_utf8(bytes) {
        Ok(Some(ascii_lower(decode_utf8(bytes))))
    } else {
        Err(ErrorView::ClientHello(msg_invalid_utf8(bytes)))
    }
}

/// The entries of a server name list from `pos` up to `end`: each is a type
/// byte, a 16-bit length and that many bytes; the first `host_name` entry wins.
pub open spec fn spec_names(d: Seq<u8>, pos: int, end: int) -> SniOutcome
    decreases end - pos,
{
    if pos < 0 || end > d.len() || pos + 3 > end {
        Ok(None)
    } else {
        let p = pos + 3;
        let n = be16(d, pos + 1);
        if p + n > end {
            Ok(None)
        } else if d[pos] == NAME_TYPE_HOST {
            spec_host_name(d.subrange(p, p + n))
        } else {
            spec_names(d, p + n, end)
        }
    }
}

/// The body of a `server_name` extension: a 16-bit list length, then the list.
pub open spec fn spec_server_name_list(d: Seq<u8>) -> SniOutcome {
    if d.len() < 2 {
        Ok(None)
    } else if 2 + be16(d, 0) > d.len() {
        Ok(None)
    } else {
        spec_names(d, 2, 2 + be16(d, 0))
    }
}

/// The extensions from `pos` on: each is a 16-bit type, a 16-bit length and
/// that many bytes; the first `server_name` extension decides.
pub open spec fn spec_extensions(e: Seq<u8>, pos: int) -> SniOutcome
    decreases e.len() - pos,
{
    if pos < 0 || pos + 4 > e.len() {
        Ok(None)
    } else {
        let p = pos + 4;
        let n = be16(e, pos + 2);
        if p + n > e.len() {
            Ok(None)
        } else if be16(e, pos) == EXT_SERVER_NAME {
            spec_server_name_list(e.subrange(p, p + n))
        } else {
            spec_extensions(e, p + n)
        }
    }
}

/// A ClientHello body: version (2), random (32), session id (1 + n),
/// cipher suites (2 + n), compression methods (1 + n), extensions (2 + n).
pub open spec fn spec_client_hello(b: Seq<u8>) -> SniOutcome {
    let len = b.len() as int;
    if len <= 34 {
        Ok(None)
    } else {
        let p1 = 35 + b[34] as int;
        if p1 + 2 > len {
            Ok(None)
        } else {
            let p2 = p1 + 2 + be16(b, p1);
            if p2 >= len {
                Ok(None)
            } else {
                let p3 = p2 + 1 + b[p2] as int;
                if p3 + 2 > len {
                    Ok(None)
                } else {
                    let p4 = p3 + 2;
                    let n = be16(b, p3);
                    if p4 + n > len {
                        Ok(None)
                    } else {
                        spec_extensions(b.subrange(p4, p4 + n), 0)
                    }
                }
            }
        }
    }
}

/// The handshake messages of a record payload from `pos` on: each is a type
/// byte, a 24-bit length and that many bytes; ClientHello messages are read
/// in order until one yields a host name or an error.
pub open spec fn spec_messages(p: Seq<u8>, pos: int) -> SniOutcome
    decreases p.len() - pos,
{
    if pos < 0 || pos + 4 > p.len() {
        Ok(None)
    } else {
        let end = pos + 4 + be24(p, pos + 1);
        if end > p.len() {
            Ok(None)
        } else if p[pos] == HANDSHAKE_CLIENT_HELLO {
            match spec_client_hello(p.subrange(pos + 4, end)) {
                Ok(None) => spec_messages(p, end),
                other => other,
            }
        } else {
            spec_messages(p, end)
        }
    }
}

/// The TLS records from `off` on, with `handshake` the handshake bytes that
/// the records before `off` carried. Each record is a type byte that must be a
/// handshake, a 2-byte version, a 16-bit length and the payload. The payloads
/// of consecutive records form one stream of handshake messages, so a message
/// may be split over several records: after each complete record the stream
/// read so far is parsed. A record whose payload has not fully arrived means
/// more bytes are needed; a buffer that ends inside a record's 5-byte header
/// is an error.
pub open spec fn spec_records(buf: Seq<u8>, off: int, handshake: Seq<u8>) -> SniOutcome
    decreases buf.len() - off,
{
    if off < 0 || off >= buf.len() {
        Ok(None)
    } else if off + 5 > buf.len() {
        Err(ErrorView::ClientHello(msg_truncated_header()))
    } else if buf[off] != TLS_HANDSHAKE {
        Err(ErrorView::ClientHello(msg_record_type(buf[off])))
    } else {
        let end = off + 5 + be16(buf, off + 3);
        if end > buf.len() {
            Ok(None)
        } else {
            let stream = handshake + buf.subrange(off + 5, end);
            match spec_messages(stream, 0) {
                Ok(None) => spec_records(buf, end, stream),
                other => other,
            }
        }
    }
}

/// A parse result that is a host name holds no upper-case ASCII letter.
pub open spec fn lower_case_result(r: Result<Option<String>, SniProxyError>) -> bool {
    r matches Ok(Some(h)) ==> no_ascii_upper(h@)
}

/// What buffered TLS data says of the SNI host name.
pub open spec fn spec_extract_sni(buf: Seq<u8>) -> SniOutcome {
    spec_records(buf, 0, Seq::empty())
}

fn read_be16(b: &[u8], i: usize) -> (v: usize)
    requires
        i + 1 < b@.len(),
    ensures
        v == be16(b@, i as int),
        v < 65536,
{
    (b[i] as usize) * 256 + (b[i + 1] as usize)
}

/// Extract the first host_name SNI value from buffered TLS data.
///
/// Handles TLS record fragmentation: the handshake bytes of consecutive
/// records are joined, and every complete handshake message is scanned.
/// Returns the SNI string when found, and nothing while a record's payload is
/// incomplete; a buffer that ends inside a record header is an error.
pub fn extract_sni_from_buffer(buffer: &[u8]) -> (res: Result<Option<String>, SniProxyError>)
    ensures
        sni_outcome(res) == spec_extract_sni(buffer@),
        lower_case_result(res),
{
    let mut handshake: Vec<u8> = Vec::new();
    let mut offset: usize = 0;
    while buffer.len() >= 5 && offset <= buffer.len() - 5
        invariant
            offset <= buffer@.len(),
            spec_extract_sni(buffer@) == spec_records(buffer@, offset as int, handshake@),
        decreases buffer@.len() - offset,
    {
        let record_type: u8 = buffer[offset];
        if record_type != TLS_HANDSHAKE {
            let msg = "expected TLS handshake record (0x16), got 0x".to_owned().concat(
                hex_byte_string(record_type).as_str(),
            );
            return Err(SniProxyError::ClientHello(msg));
        }
        let record_len: usize = read_be16(buffer, offset + 3);
        if record_len > buffer.len() - (offset + 5) {
            return Ok(None);
        }
        let record_end: usize = offset + 5 + record_len;
        let payload = slice_subrange(buffer, offset + 5, record_end);
        let ghost before = handshake@;
        handshake.extend_from_slice(payload);
        assert(handshake@ =~= before + buffer@.subrange(offset + 5, record_end as int));
        match scan_handshake_payload(handshake.as_slice()) {
            Ok(None) => {},
            other => {
                return other;
            },
        }
        offset = record_end;
    }
    if offset < buffer.len() {
        return Err(SniProxyError::ClientHello("truncated TLS record header".to_owned()));
    }
    Ok(None)
}

fn scan_handshake_payload(payload: &[u8]) -> (res: Result<Option<String>, SniProxyError>)
    ensures
        sni_outcome(res) == spec_messages(payload@, 0),
        lower_case_result(res),
{
    let mut pos: usize = 0;
    while payload.len() >= 4 && pos <= payload.len() - 4
        invariant
            pos <= payload@.len(),
            spec_messages(payload@, 0) == spec_messages(payload@, pos as int),
        decreases payload@.len() - pos,
    {
        let msg_type: u8 = payload[pos];
        let msg_len: usize = match u24(slice_subrange(payload, pos + 1, pos + 4)) {
            Ok(n) => n,
            Err(e) => {
                return Err(e);
            },
        };
        assert(msg_len == be24(payload@, pos + 1));
        if msg_len > payload.len() - (pos + 4) {
            return Ok(None);
        }
        let msg_end: usize = pos + 4 + msg_len;
        if msg_type == HANDSHAKE_CLIENT_HELLO {
            match parse_client_hello(slice_subrange(payload, pos + 4, msg_end)) {
                Ok(None) => {},
                other => {
                    return other;
                },
            }
        }
        pos = msg_end;
    }
    Ok(None)
}

fn parse_client_hello(body: &[u8]) -> (res: Result<Option<String>, SniProxyError>)
    ensures
        sni_outcome(res) == spec_client_hello(body@),
        lower_case_result(res),
{
    let len: usize = body.len();
    if len < 34 {
        return Ok(None);
    }
    let mut pos: usize = 2 + 32;
    if pos >= len {
        return Ok(None);
    }
    let session_id_len: usize = body[pos] as usize;
    pos = pos + 1 + session_id_len;
    if pos > len || len - pos < 2 {
        return Ok(None);
    }
    let cipher_len: usize = read_be16(body, pos);
    if cipher_len >= len - (pos + 2) {
        return Ok(None);
    }
    pos = pos + 2 + cipher_len;
    let comp_len: usize = body[pos] as usize;
    if comp_len + 1 > len - pos || len - (pos + 1 + comp_len) < 2 {
        return Ok(None);
    }
    pos = pos + 1 + comp_len;
    let ext_len: usize = read_be16(body, pos);
    pos = pos + 2;
    if ext_len > len - pos {
        return Ok(None);
    }
    parse_extensions(slice_subrange(body, pos, pos + ext_len))
}

fn parse_extensions(extensions: &[u8]) -> (res: Result<Option<String>, SniProxyError>)
    ensures
        sni_outcome(res) == spec_extensions(extensions@, 0),
        lower_case_result(res),
{
    let mut pos: usize = 0;
    while extensions.len() >= 4 && pos <= extensions.len() - 4
        invariant
            pos <= extensions@.len(),
            spec_extensions(extensions@, 0) == spec_extensions(extensions@, pos as int),
        decreases extensions@.len() - pos,
    {
        let ext_type: usize = read_be16(extensions, pos);
        let ext_len: usize = read_be16(extensions, pos + 2);
        pos = pos + 4;
        if ext_len > extensions.len() - pos {
            return Ok(None);
        }
        if ext_type == EXT_SERVER_NAME as usize {
            return parse_server_name_list(slice_subrange(extensions, pos, pos + ext_len));
        }
        pos = pos + ext_len;
    }
    Ok(None)
}

fn parse_server_name_list(data: &[u8]) -> (res: Result<Option<String>, SniProxyError>)
    ensures
        sni_outcome(res) == spec_server_name_list(data@),
        lower_case_result(res),
{
    if data.len() < 2 {
        return Ok(None);
    }
    let list_len: usize = read_be16(data, 0);
    if list_len > data.len() - 2 {
        return Ok(None);
    }
    let list_end: usize = 2 + list_len;
    let mut pos: usize = 2;
    while list_end >= 3 && pos <= list_end - 3
        invariant
            2 <= pos <= list_end,
            list_end <= data@.len(),
            list_end == 2 + be16(data@, 0),
            spec_server_name_list(data@) == spec_names(data@, pos as int, list_end as int),
        decreases list_end - pos,
    {
        let name_type: u8 = data[pos];
        let name_len: usize = read_be16(data, pos + 1);
        pos = pos + 3;
        if name_len > list_end - pos {
            return Ok(None);
        }
        if name_type == NAME_TYPE_HOST {
            return sni_from_utf8(str_from_utf8(slice_subrange(data, pos, pos + name_len)));
        }
        pos = pos + name_len;
    }
    Ok(None)
}

/// Turns what `std::str::from_utf8` gave for a `host_name` entry into the
/// parse result: the text in ASCII lower case, or a ClientHello error that
/// quotes the decoder's message.
pub fn sni_from_utf8(decoded: Result<&str, String>) -> (res: Result<Option<String>, SniProxyError>)
    ensures
        decoded matches Ok(s) ==> sni_outcome(res) == Ok::<Option<Seq<char>>, ErrorView>(
            Some(ascii_lower(s@)),
        ),
        decoded matches Err(m) ==> sni_outcome(res) == Err::<Option<Seq<char>>, ErrorView>(
            ErrorView::ClientHello("invalid SNI UTF-8: "@ + m@),
        ),
        lower_case_result(res),
{
    if let Ok(host) = decoded {
        proof {
            lemma_ascii_lower(host@);
        }
    }
    match decoded {
        Ok(host) => Ok(Some(to_ascii_lowercase(host))),
        Err(m) => Err(SniProxyError::ClientHello("invalid SNI UTF-8: ".to_owned().concat(m.as_str()))),
    }
}

fn u24(bytes: &[u8]) -> (res: Result<usize, SniProxyError>)
    ensures
        bytes@.len() < 3 ==> (res matches Err(e) && e@ == ErrorView::ClientHello(
            msg_length_underflow(),
        )),
        bytes@.len() >= 3 ==> res == Ok::<usize, SniProxyError>(be24(bytes@, 0) as usize),
{
    if bytes.len() < 3 {
        return Err(SniProxyError::ClientHello("handshake length underflow".to_owned()));
    }
    Ok((bytes[0] as usize) * 65536 + (bytes[1] as usize) * 256 + bytes[2] as usize)
}


/// A length as the two big-endian bytes of a `u16` (its low 16 bits).
pub open spec fn be16_bytes(n: nat) -> Seq<u8> {
    seq![((n / 256) % 256) as u8, (n % 256) as u8]
}

/// A `server_name` extension body naming one host whose UTF-8 bytes are `name`.
pub open spec fn spec_host_name_list(name: Seq<u8>) -> Seq<u8> {
    let entry = seq![NAME_TYPE_HOST] + be16_bytes(name.len()) + name;
    be16_bytes(entry.len()) + entry
}

/// An extension block holding one `server_name` extension with body `list`.
pub open spec fn spec_server_name_extension(list: Seq<u8>) -> Seq<u8> {
    be16_bytes(EXT_SERVER_NAME as nat) + be16_bytes(list.len()) + list
}

/// A ClientHello body offering TLS 1.2 with a zero random, no session id, one
/// cipher suite and null compression, followed by the extension block `exts`.
pub open spec fn spec_hello_body(exts: Seq<u8>) -> Seq<u8> {
    seq![0x03u8, 0x03u8] + Seq::new(32, |i: int| 0u8) + seq![0u8] + seq![
        0x00u8,
        0x02u8,
        0x00u8,
        0xffu8,
    ] + seq![1u8, 0u8] + be16_bytes(exts.len()) + exts
}

/// A ClientHello handshake message with body `body` (24-bit length).
pub open spec fn spec_hello_message(body: Seq<u8>) -> Seq<u8> {
    let n = body.len();
    seq![
        HANDSHAKE_CLIENT_HELLO,
        ((n / 65536) % 256) as u8,
        ((n / 256) % 256) as u8,
        (n % 256) as u8,
    ] + body
}

/// A TLS 1.0 handshake record carrying `hs`.
pub open spec fn spec_handshake_record(hs: Seq<u8>) -> Seq<u8> {
    seq![TLS_HANDSHAKE, 0x03u8, 0x01u8] + be16_bytes(hs.len()) + hs
}

/// The record that [`build_test_client_hello`] writes for a host name whose
/// UTF-8 bytes are `name`: one handshake record holding one ClientHello whose
/// only extension is `server_name`, naming the host.
pub open spec fn spec_test_client_hello(name: Seq<u8>) -> Seq<u8> {
    spec_handshake_record(
        spec_hello_message(spec_hello_body(spec_server_name_extension(spec_host_name_list(name)))),
    )
}

fn push_be16(v: &mut Vec<u8>, n: usize)
    ensures
        final(v)@ == old(v)@ + be16_bytes(n as nat),
{
    v.push(((n / 256) % 256) as u8);
    v.push((n % 256) as u8);
    assert(final(v)@ =~= old(v)@ + be16_bytes(n as nat));
}

fn push_all(v: &mut Vec<u8>, s: &[u8])
    ensures
        final(v)@ == old(v)@ + s@,
{
    v.extend_from_slice(s);
    assert(final(v)@ =~= old(v)@ + s@);
}

/// Build a minimal TLS ClientHello with the given SNI (for tests).
pub fn build_test_client_hello(sni: &str) -> (record: Vec<u8>)
    ensures
        record@ == spec_test_client_hello(encode_utf8(sni@)),
{
    let bytes = sni.as_bytes();
    let ghost name = encode_utf8(sni@);
    assert(bytes@ == name);

    let mut entry: Vec<u8> = Vec::new();
    entry.push(NAME_TYPE_HOST);
    push_be16(&mut entry, bytes.len());
    push_all(&mut entry, bytes);
    let ghost entry_v = seq![NAME_TYPE_HOST] + be16_bytes(name.len()) + name;
    assert(entry@ =~= entry_v);

    let mut list: Vec<u8> = Vec::new();
    push_be16(&mut list, entry.len());
    push_all(&mut list, entry.as_slice());
    let ghost list_v = be16_bytes(entry_v.len()) + entry_v;
    assert(list@ =~= list_v);

    let mut extensions: Vec<u8> = Vec::new();
    push_be16(&mut extensions, EXT_SERVER_NAME as usize);
    push_be16(&mut extensions, list.len());
    push_all(&mut extensions, list.as_slice());
    let ghost exts_v = be16_bytes(EXT_SERVER_NAME as nat) + be16_bytes(list_v.len()) + list_v;
    assert(extensions@ =~= exts_v);

    let mut body: Vec<u8> = Vec::new();
    body.push(0x03);
    body.push(0x03);
    let mut i: usize = 0;
    while i < 32
        invariant
            i <= 32,
            body@ == seq![0x03u8, 0x03u8] + Seq::new(i as nat, |k: int| 0u8),
        decreases 32 - i,
    {
        body.push(0);
        i = i + 1;
        assert(body@ =~= seq![0x03u8, 0x03u8] + Seq::new(i as nat, |k: int| 0u8));
    }
    body.push(0);
    body.push(0x00);
    body.push(0x02);
    body.push(0x00);
    body.push(0xff);
    body.push(1);
    body.push(0);
    push_be16(&mut body, extensions.len());
    push_all(&mut body, extensions.as_slice());
    let ghost body_v = seq![0x03u8, 0x03u8] + Seq::new(32, |i: int| 0u8) + seq![0u8] + seq![
        0x00u8,
        0x02u8,
        0x00u8,
        0xffu8,
    ] + seq![1u8, 0u8] + be16_bytes(exts_v.len()) + exts_v;
    assert(body@ =~= body_v);

    let n: usize = body.len();
    let mut handshake: Vec<u8> = Vec::new();
    handshake.push(HANDSHAKE_CLIENT_HELLO);
    handshake.push(((n / 65536) % 256) as u8);
    handshake.push(((n / 256) % 256) as u8);
    handshake.push((n % 256) as u8);
    push_all(&mut handshake, body.as_slice());
    let ghost hs_v = seq![
        HANDSHAKE_CLIENT_HELLO,
        ((n / 65536) % 256) as u8,
        ((n / 256) % 256) as u8,
        (n % 256) as u8,
    ] + body_v;
    assert(handshake@ =~= hs_v);

    let mut record: Vec<u8> = Vec::new();
    record.push(TLS_HANDSHAKE);
    record.push(0x03);
    record.push(0x01);
    push_be16(&mut record, handshake.len());
    push_all(&mut record, handshake.as_slice());
    assert(record@ =~= seq![TLS_HANDSHAKE, 0x03u8, 0x01u8] + be16_bytes(hs_v.len()) + hs_v);
    assert(list_v == spec_host_name_list(name));
    assert(exts_v == spec_server_name_extension(list_v));
    assert(body_v == spec_hello_body(exts_v));
    assert(hs_v == spec_hello_message(body_v));
    record
}


proof fn lemma_be16_bytes(s: Seq<u8>, i: int, n: nat)
    requires
        n < 65536,
        0 <= i,
        i + 1 < s.len(),
        s[i] == be16_bytes(n)[0],
        s[i + 1] == be16_bytes(n)[1],
    ensures
        be16(s, i) == n,
{
    assert(((n / 256) % 256) * 256 + n % 256 == n) by (nonlinear_arith)
        requires
            n < 65536,
    ;
}

proof fn lemma_be24_length(n: nat)
    requires
        n < 16777216,
    ensures
        ((n / 65536) % 256) * 65536 + ((n / 256) % 256) * 256 + n % 256 == n,
{
    assert(((n / 65536) % 256) * 65536 + ((n / 256) % 256) * 256 + n % 256 == n) by (nonlinear_arith)
        requires
            n < 16777216,
    ;
}

proof fn lemma_host_name_list(host: Seq<char>)
    requires
        encode_utf8(host).len() < 65531,
    ensures
        spec_server_name_list(spec_host_name_list(encode_utf8(host))) == Ok::<
            Option<Seq<char>>,
            ErrorView,
        >(Some(ascii_lower(host))),
{
    broadcast use vstd::utf8::encode_utf8_valid_utf8;

    let name = encode_utf8(host);
    let entry = seq![NAME_TYPE_HOST] + be16_bytes(name.len()) + name;
    let list = spec_host_name_list(name);
    assert(list.len() == 5 + name.len());
    lemma_be16_bytes(list, 0, entry.len());
    lemma_be16_bytes(list, 3, name.len());
    assert(list[2] == NAME_TYPE_HOST);
    assert(list.subrange(5, 5 + name.len() as int) =~= name);
    assert(spec_names(list, 2, list.len() as int) == spec_host_name(name));
}

proof fn lemma_server_name_extension(list: Seq<u8>)
    requires
        list.len() < 65536,
    ensures
        spec_extensions(spec_server_name_extension(list), 0) == spec_server_name_list(list),
{
    let exts = spec_server_name_extension(list);
    lemma_be16_bytes(exts, 0, EXT_SERVER_NAME as nat);
    lemma_be16_bytes(exts, 2, list.len());
    assert(exts.subrange(4, 4 + list.len() as int) =~= list);
}

proof fn lemma_hello_body(exts: Seq<u8>)
    requires
        exts.len() < 65536,
    ensures
        spec_client_hello(spec_hello_body(exts)) == spec_extensions(exts, 0),
{
    let body = spec_hello_body(exts);
    assert(body.len() == 43 + exts.len());
    assert(body[34] == 0);
    lemma_be16_bytes(body, 35, 2);
    assert(body[39] == 1);
    lemma_be16_bytes(body, 41, exts.len());
    assert(body.subrange(43, 43 + exts.len() as int) =~= exts);
}

proof fn lemma_hello_message(body: Seq<u8>)
    requires
        body.len() < 16777216,
    ensures
        spec_messages(spec_hello_message(body), 0) == spec_client_hello(body),
{
    let hs = spec_hello_message(body);
    lemma_be24_length(body.len());
    assert(be24(hs, 1) == body.len());
    assert(hs.subrange(4, 4 + body.len() as int) =~= body);
    assert(spec_messages(hs, hs.len() as int) == Ok::<Option<Seq<char>>, ErrorView>(None));
}

/// The handshake message that [`build_test_client_hello`] puts in its record.
pub open spec fn spec_test_hello_message(name: Seq<u8>) -> Seq<u8> {
    spec_hello_message(spec_hello_body(spec_server_name_extension(spec_host_name_list(name))))
}

proof fn lemma_test_hello_message(host: Seq<char>)
    requires
        encode_utf8(host).len() <= 65479,
    ensures
        spec_messages(spec_test_hello_message(encode_utf8(host)), 0) == Ok::<
            Option<Seq<char>>,
            ErrorView,
        >(Some(ascii_lower(host))),
        spec_test_hello_message(encode_utf8(host)).len() == encode_utf8(host).len() + 56,
{
    let list = spec_host_name_list(encode_utf8(host));
    let exts = spec_server_name_extension(list);
    let body = spec_hello_body(exts);
    lemma_host_name_list(host);
    lemma_server_name_extension(list);
    lemma_hello_body(exts);
    lemma_hello_message(body);
}

/// Bytes appended after a stream of handshake messages that already gave a
/// host name or an error change nothing.
proof fn lemma_messages_extend(p: Seq<u8>, q: Seq<u8>, pos: int)
    requires
        spec_messages(p, pos) != Ok::<Option<Seq<char>>, ErrorView>(None),
    ensures
        spec_messages(p + q, pos) == spec_messages(p, pos),
    decreases p.len() - pos,
{
    let pq = p + q;
    assert(pq[pos] == p[pos]);
    assert(pq[pos + 1] == p[pos + 1]);
    assert(pq[pos + 2] == p[pos + 2]);
    assert(pq[pos + 3] == p[pos + 3]);
    let end = pos + 4 + be24(p, pos + 1);
    assert(pq.subrange(pos + 4, end) =~= p.subrange(pos + 4, end));
    if p[pos] != HANDSHAKE_CLIENT_HELLO || spec_client_hello(p.subrange(pos + 4, end)) == Ok::<
        Option<Seq<char>>,
        ErrorView,
    >(None) {
        lemma_messages_extend(p, q, end);
    }
}

proof fn lemma_records_extend(buf: Seq<u8>, extra: Seq<u8>, off: int, handshake: Seq<u8>)
    requires
        spec_records(buf, off, handshake) != Ok::<Option<Seq<char>>, ErrorView>(None),
        spec_records(buf, off, handshake) != Err::<Option<Seq<char>>, ErrorView>(
            ErrorView::ClientHello(msg_truncated_header()),
        ),
    ensures
        spec_records(buf + extra, off, handshake) == spec_records(buf, off, handshake),
    decreases buf.len() - off,
{
    let b2 = buf + extra;
    assert(b2[off] == buf[off]);
    assert(b2[off + 3] == buf[off + 3]);
    assert(b2[off + 4] == buf[off + 4]);
    if buf[off] == TLS_HANDSHAKE {
        let end = off + 5 + be16(buf, off + 3);
        assert(b2.subrange(off + 5, end) =~= buf.subrange(off + 5, end));
        let stream = handshake + buf.subrange(off + 5, end);
        if spec_messages(stream, 0) == Ok::<Option<Seq<char>>, ErrorView>(None) {
            lemma_records_extend(buf, extra, end, stream);
        }
    }
}

/// Once the buffered bytes give a host name, or an error other than a cut-off
/// record header, bytes that arrive later never change it.
pub proof fn lemma_result_is_stable(buf: Seq<u8>, extra: Seq<u8>)
    requires
        spec_extract_sni(buf) != Ok::<Option<Seq<char>>, ErrorView>(None),
        spec_extract_sni(buf) != Err::<Option<Seq<char>>, ErrorView>(
            ErrorView::ClientHello(msg_truncated_header()),
        ),
    ensures
        spec_extract_sni(buf + extra) == spec_extract_sni(buf),
{
    lemma_records_extend(buf, extra, 0, Seq::empty());
}

/// One complete handshake record carrying `h`, at `off` in `buf`, adds `h`
/// to the handshake stream.
proof fn lemma_record_step(buf: Seq<u8>, off: int, acc: Seq<u8>, h: Seq<u8>)
    requires
        0 <= off,
        h.len() < 65536,
        off + 5 + h.len() <= buf.len(),
        buf.subrange(off, off + 5 + h.len()) == spec_handshake_record(h),
    ensures
        spec_records(buf, off, acc) == (match spec_messages(acc + h, 0) {
            Ok(None) => spec_records(buf, off + 5 + h.len(), acc + h),
            other => other,
        }),
{
    let rec = spec_handshake_record(h);
    assert(buf[off] == rec[0]);
    assert(buf[off + 3] == rec[3]);
    assert(buf[off + 4] == rec[4]);
    lemma_be16_bytes(buf, off + 3, h.len());
    let whole = buf.subrange(off, off + 5 + h.len());
    assert forall|i: int| 0 <= i < h.len() implies buf.subrange(off + 5, off + 5 + h.len())[i]
        == h[i] by {
        assert(whole[5 + i] == rec[5 + i]);
    }
    assert(buf.subrange(off + 5, off + 5 + h.len()) =~= h);
}

/// Handshake bytes split over two records read as the joined bytes do.
pub proof fn lemma_two_records(h1: Seq<u8>, h2: Seq<u8>)
    requires
        h1.len() < 65536,
        h2.len() < 65536,
    ensures
        spec_extract_sni(spec_handshake_record(h1) + spec_handshake_record(h2)) == spec_messages(
            h1 + h2,
            0,
        ),
{
    let r1 = spec_handshake_record(h1);
    let r2 = spec_handshake_record(h2);
    let buf = r1 + r2;
    let off = r1.len() as int;
    assert(buf.subrange(0, off) =~= r1);
    assert(buf.subrange(off, buf.len() as int) =~= r2);
    lemma_record_step(buf, 0, Seq::empty(), h1);
    assert(Seq::<u8>::empty() + h1 =~= h1);
    if spec_messages(h1, 0) != Ok::<Option<Seq<char>>, ErrorView>(None) {
        lemma_messages_extend(h1, h2, 0);
    } else {
        lemma_record_step(buf, off, h1, h2);
        assert(spec_records(buf, buf.len() as int, h1 + h2) == Ok::<Option<Seq<char>>, ErrorView>(
            None,
        ));
    }
}

/// Reading back what [`build_test_client_hello`] writes gives the host name in
/// ASCII lower case. This holds for every host name whose UTF-8 form has at
/// most 65479 bytes; a longer one no longer fits the record's 16-bit length.
pub proof fn lemma_test_client_hello_round_trip(host: Seq<char>)
    requires
        encode_utf8(host).len() <= 65479,
    ensures
        spec_extract_sni(spec_test_client_hello(encode_utf8(host))) == Ok::<
            Option<Seq<char>>,
            ErrorView,
        >(Some(ascii_lower(host))),
{
    let hs = spec_test_hello_message(encode_utf8(host));
    lemma_test_hello_message(host);
    let rec = spec_handshake_record(hs);
    lemma_be16_bytes(rec, 3, hs.len());
    assert(rec.subrange(5, 5 + hs.len() as int) =~= hs);
    assert(Seq::<u8>::empty() + hs =~= hs);
}

/// The ClientHello that [`build_test_client_hello`] writes, with its handshake
/// message split over two records at any point, still gives the host name.
pub proof fn lemma_test_client_hello_split(host: Seq<char>, j: int)
    requires
        encode_utf8(host).len() <= 65479,
        0 <= j <= spec_test_hello_message(encode_utf8(host)).len(),
    ensures
        ({
            let hs = spec_test_hello_message(encode_utf8(host));
            spec_extract_sni(
                spec_handshake_record(hs.subrange(0, j)) + spec_handshake_record(
                    hs.subrange(j, hs.len() as int),
                ),
            ) == Ok::<Option<Seq<char>>, ErrorView>(Some(ascii_lower(host)))
        }),
{
    let hs = spec_test_hello_message(encode_utf8(host));
    lemma_test_hello_message(host);
    lemma_two_records(hs.subrange(0, j), hs.subrange(j, hs.len() as int));
    assert(hs.subrange(0, j) + hs.subrange(j, hs.len() as int) =~= hs);
}

/// A proper prefix of what [`build_test_client_hello`] writes that holds the
/// whole 5-byte record header yields neither a host name nor an error: the
/// caller waits for more. A prefix of 1 to 4 bytes ends inside the header and
/// is an error; the empty prefix yields nothing.
pub proof fn lemma_test_client_hello_incomplete(host: Seq<char>, k: int)
    requires
        encode_utf8(host).len() <= 65479,
        0 <= k < spec_test_client_hello(encode_utf8(host)).len(),
    ensures
        k == 0 || k >= 5 ==> spec_extract_sni(
            spec_test_client_hello(encode_utf8(host)).subrange(0, k),
        ) == Ok::<Option<Seq<char>>, ErrorView>(None),
        0 < k < 5 ==> spec_extract_sni(spec_test_client_hello(encode_utf8(host)).subrange(0, k))
            == Err::<Option<Seq<char>>, ErrorView>(ErrorView::ClientHello(msg_truncated_header())),
{
    let rec = spec_test_client_hello(encode_utf8(host));
    let buf = rec.subrange(0, k);
    if k >= 5 {
        let hs_len = (rec.len() - 5) as nat;
        lemma_be16_bytes(buf, 3, hs_len);
    }
}

/// The parse result `o` fails, if at all, with a ClientHello error.
pub open spec fn client_hello_errors_only(o: SniOutcome) -> bool {
    o matches Err(e) ==> e is ClientHello
}

proof fn lemma_names_errors(d: Seq<u8>, pos: int, end: int)
    ensures
        client_hello_errors_only(spec_names(d, pos, end)),
    decreases end - pos,
{
    if !(pos < 0 || end > d.len() || pos + 3 > end) {
        let p = pos + 3;
        let n = be16(d, pos + 1);
        if p + n <= end && d[pos] != NAME_TYPE_HOST {
            lemma_names_errors(d, p + n, end);
        }
    }
}

proof fn lemma_extensions_errors(e: Seq<u8>, pos: int)
    ensures
        client_hello_errors_only(spec_extensions(e, pos)),
    decreases e.len() - pos,
{
    if !(pos < 0 || pos + 4 > e.len()) {
        let p = pos + 4;
        let n = be16(e, pos + 2);
        if p + n <= e.len() {
            if be16(e, pos) == EXT_SERVER_NAME {
                let d = e.subrange(p, p + n);
                if d.len() >= 2 && 2 + be16(d, 0) <= d.len() {
                    lemma_names_errors(d, 2, 2 + be16(d, 0));
                }
            } else {
                lemma_extensions_errors(e, p + n);
            }
        }
    }
}

proof fn lemma_client_hello_errors(b: Seq<u8>)
    ensures
        client_hello_errors_only(spec_client_hello(b)),
{
    let len = b.len() as int;
    if len > 34 {
        let p1 = 35 + b[34] as int;
        if p1 + 2 <= len {
            let p2 = p1 + 2 + be16(b, p1);
            if p2 < len {
                let p3 = p2 + 1 + b[p2] as int;
                if p3 + 2 <= len {
                    let p4 = p3 + 2;
                    let n = be16(b, p3);
                    if p4 + n <= len {
                        lemma_extensions_errors(b.subrange(p4, p4 + n), 0);
                    }
                }
            }
        }
    }
}

proof fn lemma_messages_errors(p: Seq<u8>, pos: int)
    ensures
        client_hello_errors_only(spec_messages(p, pos)),
    decreases p.len() - pos,
{
    if !(pos < 0 || pos + 4 > p.len()) {
        let end = pos + 4 + be24(p, pos + 1);
        if end <= p.len() {
            if p[pos] == HANDSHAKE_CLIENT_HELLO {
                lemma_client_hello_errors(p.subrange(pos + 4, end));
            }
            lemma_messages_errors(p, end);
        }
    }
}

proof fn lemma_records_errors(buf: Seq<u8>, off: int, handshake: Seq<u8>)
    ensures
        client_hello_errors_only(spec_records(buf, off, handshake)),
    decreases buf.len() - off,
{
    if !(off < 0 || off + 5 > buf.len()) && buf[off] == TLS_HANDSHAKE {
        let end = off + 5 + be16(buf, off + 3);
        if end <= buf.len() {
            let stream = handshake + buf.subrange(off + 5, end);
            lemma_messages_errors(stream, 0);
            lemma_records_errors(buf, end, stream);
        }
    }
}

/// Every error that buffered bytes can give is a ClientHello error.
pub proof fn lemma_only_client_hello_errors(buf: Seq<u8>)
    ensures
        client_hello_errors_only(spec_extract_sni(buf)),
{
    lemma_records_errors(buf, 0, Seq::empty());
}

/// One extension: a 16-bit type, a 16-bit length and the data.
pub open spec fn spec_extension(ext_type: u16, data: Seq<u8>) -> Seq<u8> {
    be16_bytes(ext_type as nat) + be16_bytes(data.len()) + data
}

/// Extensions one after the other, in order.
pub open spec fn spec_extension_list(exts: Seq<(u16, Seq<u8>)>) -> Seq<u8>
    decreases exts.len(),
{
    if exts.len() == 0 {
        Seq::empty()
    } else {
        spec_extension(exts[0].0, exts[0].1) + spec_extension_list(exts.drop_first())
    }
}

/// A ClientHello body with the given version, random, session id, cipher
/// suites, compression methods and extension block, each length field
/// written in front of its field.
pub open spec fn spec_client_hello_body(
    version: Seq<u8>,
    random: Seq<u8>,
    session_id: Seq<u8>,
    ciphers: Seq<u8>,
    compression: Seq<u8>,
    exts: Seq<u8>,
) -> Seq<u8> {
    version + random + seq![session_id.len() as u8] + session_id + be16_bytes(ciphers.len())
        + ciphers + seq![compression.len() as u8] + compression + be16_bytes(exts.len()) + exts
}

proof fn lemma_extensions_shift(a: Seq<u8>, r: Seq<u8>, k: int)
    requires
        0 <= k,
    ensures
        spec_extensions(a + r, a.len() + k) == spec_extensions(r, k),
    decreases r.len() - k,
{
    let ar = a + r;
    let pos = a.len() + k;
    if k + 4 <= r.len() {
        assert(ar[pos] == r[k] && ar[pos + 1] == r[k + 1]);
        assert(ar[pos + 2] == r[k + 2] && ar[pos + 3] == r[k + 3]);
        let n = be16(r, k + 2);
        if k + 4 + n <= r.len() {
            assert(ar.subrange(pos + 4, pos + 4 + n) =~= r.subrange(k + 4, k + 4 + n));
            lemma_extensions_shift(a, r, k + 4 + n);
        }
    }
}

/// Extensions of other types in front of an extension block are passed over.
proof fn lemma_other_extensions_skipped(others: Seq<(u16, Seq<u8>)>, rest: Seq<u8>)
    requires
        forall|i: int|
            0 <= i < others.len() ==> #[trigger] others[i].0 != EXT_SERVER_NAME && others[i].1.len()
                < 65536,
    ensures
        spec_extensions(spec_extension_list(others) + rest, 0) == spec_extensions(rest, 0),
    decreases others.len(),
{
    if others.len() > 0 {
        let t = others[0].0;
        let data = others[0].1;
        let x = spec_extension(t, data);
        let tail = others.drop_first();
        let b = spec_extension_list(tail) + rest;
        assert(spec_extension_list(others) + rest =~= x + b);
        let e = x + b;
        lemma_be16_bytes(e, 0, t as nat);
        lemma_be16_bytes(e, 2, data.len());
        assert(be16(e, 0) != EXT_SERVER_NAME);
        lemma_extensions_shift(x, b, 0);
        assert(forall|i: int| 0 <= i < tail.len() ==> tail[i] == others[i + 1]);
        lemma_other_extensions_skipped(tail, rest);
    }
}

proof fn lemma_client_hello_body(
    version: Seq<u8>,
    random: Seq<u8>,
    session_id: Seq<u8>,
    ciphers: Seq<u8>,
    compression: Seq<u8>,
    exts: Seq<u8>,
)
    requires
        version.len() == 2,
        random.len() == 32,
        session_id.len() < 256,
        ciphers.len() < 65536,
        compression.len() < 256,
        exts.len() < 65536,
    ensures
        spec_client_hello(
            spec_client_hello_body(version, random, session_id, ciphers, compression, exts),
        ) == spec_extensions(exts, 0),
{
    let body = spec_client_hello_body(version, random, session_id, ciphers, compression, exts);
    let p1: int = 35 + session_id.len() as int;
    let p2: int = p1 + 2 + ciphers.len();
    let p3: int = p2 + 1 + compression.len();
    let p4: int = p3 + 2;
    assert(body.len() == p4 + exts.len());
    assert(body[34] == session_id.len() as u8);
    assert(body[34] as int == session_id.len());
    assert(body[p1] == be16_bytes(ciphers.len())[0]);
    assert(body[p1 + 1] == be16_bytes(ciphers.len())[1]);
    lemma_be16_bytes(body, p1, ciphers.len());
    assert(body[p2] == compression.len() as u8);
    assert(body[p3] == be16_bytes(exts.len())[0]);
    assert(body[p3 + 1] == be16_bytes(exts.len())[1]);
    lemma_be16_bytes(body, p3, exts.len());
    assert(body.subrange(p4, p4 + exts.len()) =~= exts);
}

/// Reading back a ClientHello record whose body has any version, random,
/// session id (up to 255 bytes), cipher suites and compression methods, and
/// whose extension block holds extensions of other types followed by a
/// `server_name` extension for `host`, gives `host` in ASCII lower case,
/// provided the handshake message fits one record.
#[verifier::rlimit(40)]
pub proof fn lemma_client_hello_round_trip(
    host: Seq<char>,
    version: Seq<u8>,
    random: Seq<u8>,
    session_id: Seq<u8>,
    ciphers: Seq<u8>,
    compression: Seq<u8>,
    others: Seq<(u16, Seq<u8>)>,
)
    requires
        version.len() == 2,
        random.len() == 32,
        session_id.len() < 256,
        ciphers.len() < 65536,
        compression.len() < 256,
        forall|i: int|
            0 <= i < others.len() ==> #[trigger] others[i].0 != EXT_SERVER_NAME && others[i].1.len()
                < 65536,
        spec_hello_message(
            spec_client_hello_body(
                version,
                random,
                session_id,
                ciphers,
                compression,
                spec_extension_list(others) + spec_server_name_extension(
                    spec_host_name_list(encode_utf8(host)),
                ),
            ),
        ).len() < 65536,
    ensures
        spec_extract_sni(
            spec_handshake_record(
                spec_hello_message(
                    spec_client_hello_body(
                        version,
                        random,
                        session_id,
                        ciphers,
                        compression,
                        spec_extension_list(others) + spec_server_name_extension(
                            spec_host_name_list(encode_utf8(host)),
                        ),
                    ),
                ),
            ),
        ) == Ok::<Option<Seq<char>>, ErrorView>(Some(ascii_lower(host))),
{
    let list = spec_host_name_list(encode_utf8(host));
    let sn = spec_server_name_extension(list);
    let exts = spec_extension_list(others) + sn;
    let body = spec_client_hello_body(version, random, session_id, ciphers, compression, exts);
    let hs = spec_hello_message(body);
    assert(list.len() == encode_utf8(host).len() + 5);
    assert(sn.len() == list.len() + 4);
    assert(exts.len() == spec_extension_list(others).len() + sn.len());
    assert(body.len() >= exts.len());
    assert(hs.len() == body.len() + 4);
    lemma_body_gives_host(host, version, random, session_id, ciphers, compression, others);
    lemma_hello_message(body);
    lemma_single_record(hs);
}

proof fn lemma_body_gives_host(
    host: Seq<char>,
    version: Seq<u8>,
    random: Seq<u8>,
    session_id: Seq<u8>,
    ciphers: Seq<u8>,
    compression: Seq<u8>,
    others: Seq<(u16, Seq<u8>)>,
)
    requires
        version.len() == 2,
        random.len() == 32,
        session_id.len() < 256,
        ciphers.len() < 65536,
        compression.len() < 256,
        forall|i: int|
            0 <= i < others.len() ==> #[trigger] others[i].0 != EXT_SERVER_NAME && others[i].1.len()
                < 65536,
        spec_extension_list(others).len() + encode_utf8(host).len() + 9 < 65536,
    ensures
        spec_client_hello(
            spec_client_hello_body(
                version,
                random,
                session_id,
                ciphers,
                compression,
                spec_extension_list(others) + spec_server_name_extension(
                    spec_host_name_list(encode_utf8(host)),
                ),
            ),
        ) == Ok::<Option<Seq<char>>, ErrorView>(Some(ascii_lower(host))),
{
    let list = spec_host_name_list(encode_utf8(host));
    let sn = spec_server_name_extension(list);
    let exts = spec_extension_list(others) + sn;
    lemma_host_name_list(host);
    lemma_server_name_extension(list);
    lemma_other_extensions_skipped(others, sn);
    lemma_client_hello_body(version, random, session_id, ciphers, compression, exts);
}

/// One handshake record says what its handshake messages say.
proof fn lemma_single_record(hs: Seq<u8>)
    requires
        hs.len() < 65536,
    ensures
        spec_extract_sni(spec_handshake_record(hs)) == spec_messages(hs, 0),
{
    let rec = spec_handshake_record(hs);
    assert(rec.subrange(0, 5 + hs.len() as int) =~= rec);
    lemma_record_step(rec, 0, Seq::empty(), hs);
    assert(Seq::<u8>::empty() + hs =~= hs);
    assert(spec_records(rec, rec.len() as int, hs) == Ok::<Option<Seq<char>>, ErrorView>(None));
}

} // verus!
