//! Byte layout of the key request and response packets.
use vstd::prelude::*;
use byteorder::ByteOrder;

verus! {

/// Command of an outbound key request.
pub const CMD_REQUEST_KEY: u8 = 0x0c;

/// Command of an inbound response that carries key material.
pub const CMD_KEY_OK: u8 = 0x0d;

/// Command of an inbound response that reports a failed request.
pub const CMD_KEY_FAILED: u8 = 0x0e;

/// The four big-endian bytes of `n`.
pub open spec fn u32_be(n: u32) -> Seq<u8> {
    seq![
        (n / 0x100_0000) as u8,
        ((n / 0x1_0000) % 0x100) as u8,
        ((n / 0x100) % 0x100) as u8,
        (n % 0x100) as u8,
    ]
}

/// The number whose big-endian bytes start `b`.
pub open spec fn be_u32(b: Seq<u8>) -> u32
    recommends
        b.len() >= 4,
{
    (b[0] as int * 0x100_0000 + b[1] as int * 0x1_0000 + b[2] as int * 0x100 + b[3] as int) as u32
}

/// Relies on byteorder's `BigEndian::write_u32`: it stores `n` as four
/// big-endian bytes.
#[verifier::external_body]
fn write_be_u32(n: u32) -> (r: [u8; 4])
    ensures
        r@ == u32_be(n),
{
    let mut buf = [0u8; 4];
    byteorder::BigEndian::write_u32(&mut buf, n);
    buf
}

/// Relies on byteorder's `BigEndian::read_u32`: it reads the first four bytes
/// of `buf` as a big-endian number, and panics on fewer than four.
#[verifier::external_body]
fn read_be_u32(buf: &[u8]) -> (r: u32)
    requires
        buf@.len() >= 4,
    ensures
        r == be_u32(buf@),
{
    byteorder::BigEndian::read_u32(buf)
}

/// Payload of a key request: the file id, the raw track id, the sequence id
/// in big-endian order and two reserved zero bytes.
pub open spec fn request_payload_spec(track: Seq<u8>, file: Seq<u8>, seq: u32) -> Seq<u8> {
    file + track + u32_be(seq) + seq![0u8, 0u8]
}

fn push_all(out: &mut Vec<u8>, bytes: &[u8])
    ensures
        final(out)@ == old(out)@ + bytes@,
{
    let mut i: usize = 0;
    while i < bytes.len()
        invariant
            i <= bytes@.len(),
            out@ == old(out)@ + bytes@.subrange(0, i as int),
        decreases bytes@.len() - i,
    {
        out.push(bytes[i]);
        i = i + 1;
        assert(bytes@.subrange(0, i as int) =~= bytes@.subrange(0, i - 1) + seq![bytes@[i - 1]]);
    }
    assert(bytes@.subrange(0, i as int) =~= bytes@);
}

/// Builds the payload of a key request for `track` and `file` under `seq`.
pub fn request_payload(track: &[u8; 16], file: &[u8; 20], seq: u32) -> (r: Vec<u8>)
    ensures
        r@ == request_payload_spec(track@, file@, seq),
{
    let mut out: Vec<u8> = Vec::new();
    push_all(&mut out, file);
    push_all(&mut out, track);
    let seq_bytes = write_be_u32(seq);
    push_all(&mut out, &seq_bytes);
    out.push(0u8);
    out.push(0u8);
    assert(out@ =~= request_payload_spec(track@, file@, seq));
    out
}

/// Reads the sequence id at the start of a response payload, or `None` if the
/// payload holds fewer than four bytes.
pub fn read_sequence(data: &[u8]) -> (r: Option<u32>)
    ensures
        data@.len() >= 4 ==> r == Some(be_u32(data@)),
        data@.len() < 4 ==> r is None,
{
    if data.len() < 4 {
        None
    } else {
        Some(read_be_u32(data))
    }
}

/// The key material that follows the sequence id in a success payload.
pub open spec fn key_bytes(data: Seq<u8>) -> Seq<u8> {
    data.subrange(4, 20)
}

/// Reads the 16 bytes of key material after the sequence id, or `None` if the
/// payload is too short to hold them.
pub fn read_key(data: &[u8]) -> (r: Option<[u8; 16]>)
    ensures
        data@.len() >= 20 ==> (r matches Some(k) && k@ == key_bytes(data@)),
        data@.len() < 20 ==> r is None,
{
    if data.len() < 20 {
        return None;
    }
    let mut key = [0u8; 16];
    let mut i: usize = 0;
    while i < 16
        invariant
            data@.len() >= 20,
            i <= 16,
            key@.len() == 16,
            forall|j: int| 0 <= j < i ==> key@[j] == data@[j + 4],
        decreases 16 - i,
    {
        key[i] = data[i + 4];
        i = i + 1;
    }
    assert(key@ =~= key_bytes(data@));
    Some(key)
}

} // verus!
