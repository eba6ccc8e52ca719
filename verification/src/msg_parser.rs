//! The wire-codec boundary.  The byte-level encoding and decoding of MQTT
//! packets is the codec collaborator's work; these functions only frame it:
//! a packet goes onto a byte buffer, and a byte buffer yields a packet or an
//! error, never a panic, whatever the datagram held.  The one datagram shape
//! the codec's length arithmetic does not take, an over-long variable-length
//! integer, is screened out here before the codec sees it.

use vstd::prelude::*;

verus! {

/// The growable byte buffer of the `bytes` crate; opaque here.
#[verifier::external_type_specification]
#[verifier::external_body]
pub struct ExBytesMut(bytes::BytesMut);

/// The codec collaborator's packet type; carried through, never read.
#[verifier::external_type_specification]
#[verifier::external_body]
pub struct ExPacket(mqtt_v5::types::Packet);

/// The codec collaborator's decode error; mapped to the library's own.
#[verifier::external_type_specification]
#[verifier::external_body]
pub struct ExDecodeError(mqtt_v5::types::DecodeError);

/// What the byte buffer holds.
pub uninterp spec fn bytes_of(b: bytes::BytesMut) -> Seq<u8>;

/// The V500 encoding of a packet: the bytes `mqtt_v5::encoder::encode_mqtt`
/// appends, a function of the packet alone.
pub uninterp spec fn encoding_of(p: mqtt_v5::types::Packet) -> Seq<u8>;

/// The codec's verdict on a datagram's bytes: whether
/// `mqtt_v5::decoder::decode_mqtt` reads one whole packet off them, a
/// function of the bytes alone.
pub uninterp spec fn decode_ok(s: Seq<u8>) -> bool;

/// Whether a byte carries the continuation bit of a variable-length
/// integer.
pub open spec fn has_continuation(b: u8) -> bool {
    b & 0x80 != 0
}

/// Whether position `i` starts a variable-length integer that would overrun
/// the codec's 32-bit length arithmetic: four continuation bytes followed by
/// a fifth digit of 16 or more.  A well-formed MQTT variable-length integer
/// spans at most four bytes.
pub open spec fn overlong_varint_at(s: Seq<u8>, i: int) -> bool {
    &&& 0 <= i
    &&& i + 4 < s.len()
    &&& has_continuation(s[i])
    &&& has_continuation(s[i + 1])
    &&& has_continuation(s[i + 2])
    &&& has_continuation(s[i + 3])
    &&& s[i + 4] & 0x7f >= 16
}

/// No position in the datagram starts an over-long variable-length integer,
/// so no length field the codec may read, wherever it stands, overruns its
/// arithmetic.
pub open spec fn varints_bounded(s: Seq<u8>) -> bool {
    forall|i: int| !(#[trigger] overlong_varint_at(s, i))
}

/// Whether the datagram is free of over-long variable-length integers.
fn varints_bounded_check(buffer: &[u8]) -> (r: bool)
    ensures
        r == varints_bounded(buffer@),
{
    let n = buffer.len();
    if n < 5 {
        proof {
            assert forall|j: int| !(#[trigger] overlong_varint_at(buffer@, j)) by {};
        }
        return true;
    }
    let mut i: usize = 0;
    while i < n - 4
        invariant
            5 <= n,
            n == buffer@.len(),
            i <= n - 4,
            forall|j: int| j < i ==> !(#[trigger] overlong_varint_at(buffer@, j)),
        decreases n - i,
    {
        if buffer[i] & 0x80 != 0 && buffer[i + 1] & 0x80 != 0 && buffer[i + 2] & 0x80 != 0
            && buffer[i + 3] & 0x80 != 0 && buffer[i + 4] & 0x7f >= 16 {
            proof {
                assert(overlong_varint_at(buffer@, i as int));
            }
            return false;
        }
        i += 1;
    }
    proof {
        assert forall|j: int| !(#[trigger] overlong_varint_at(buffer@, j)) by {
            if j >= i {
                assert(j + 4 >= buffer@.len());
            }
        };
    }
    true
}

/// Relies on `mqtt_v5::encoder::encode_mqtt`: appends the packet's V500
/// encoding, never less than its fixed header, to the buffer.
#[verifier::external_body]
fn encode_packet(packet: &mqtt_v5::types::Packet, buffer: &mut bytes::BytesMut)
    ensures
        bytes_of(*final(buffer)).len() > bytes_of(*old(buffer)).len(),
        bytes_of(*final(buffer)) == bytes_of(*old(buffer)) + encoding_of(*packet),
{
    mqtt_v5::encoder::encode_mqtt(packet, buffer, mqtt_v5::types::ProtocolVersion::V500);
}

/// Relies on `bytes::BytesMut::is_empty`: whether the buffer holds no byte.
#[verifier::external_body]
fn buffer_is_empty(b: &bytes::BytesMut) -> (r: bool)
    ensures
        r == (bytes_of(*b).len() == 0),
{
    b.is_empty()
}

/// Relies on `bytes::BytesMut::from`: a buffer holding a copy of the bytes.
#[verifier::external_body]
fn buffer_from_slice(s: &[u8]) -> (r: bytes::BytesMut)
    ensures
        bytes_of(r) == s@,
{
    bytes::BytesMut::from(s)
}

/// Relies on `mqtt_v5::decoder::decode_mqtt`: reads one packet off the
/// buffer exactly when the bytes carry one whole well-formed packet;
/// `None` when they do not yet hold a whole packet, an error when what
/// they hold is malformed.  Its length arithmetic overruns on an over-long
/// variable-length integer (a fifth digit of 16 or more), which the
/// precondition keeps away; every other malformed shape comes back as
/// `None` or an error.
#[verifier::external_body]
fn decode_packet(buffer: &mut bytes::BytesMut) -> (r: Result<
    Option<mqtt_v5::types::Packet>,
    mqtt_v5::types::DecodeError,
>)
    requires
        varints_bounded(bytes_of(*old(buffer))),
    ensures
        (r matches Ok(p) && p is Some) <==> decode_ok(bytes_of(*old(buffer))),
{
    mqtt_v5::decoder::decode_mqtt(buffer, mqtt_v5::types::ProtocolVersion::V500)
}

/// Encode one packet onto the buffer.  The packet's V500 encoding, and
/// only it, is appended after whatever the buffer already holds; it is
/// never empty, so the result is always accepted.
pub fn cm_encode(packet: mqtt_v5::types::Packet, buffer: &mut bytes::BytesMut) -> (r: Result<
    (),
    String,
>)
    ensures
        bytes_of(*final(buffer)) == bytes_of(*old(buffer)) + encoding_of(packet),
        bytes_of(*final(buffer)).len() > bytes_of(*old(buffer)).len(),
        r is Ok,
{
    encode_packet(&packet, buffer);
    if buffer_is_empty(buffer) {
        Err("Packet wasn't encoded".to_owned())
    } else {
        Ok(())
    }
}

/// Decode one packet from a datagram's bytes.  An empty buffer is refused
/// outright, and so is one holding an over-long variable-length integer (a
/// shape no well-formed packet has), without consulting the codec; the
/// result is a packet exactly when the codec reads the bytes as one whole
/// packet, and an error otherwise.  Never a panic: a bad datagram must not
/// stop the caller's receive loop.
pub fn cm_decode(buffer: &[u8]) -> (r: Result<mqtt_v5::types::Packet, String>)
    ensures
        r is Ok <==> buffer@.len() > 0 && varints_bounded(buffer@) && decode_ok(buffer@),
        buffer@.len() == 0 <==> (r matches Err(m) && m@ == "Buffer was empty"@),
        r matches Err(m) ==> m@ == "Buffer was empty"@ || m@ == "Packet wasn't decoded"@,
{
    proof {
        reveal_strlit("Buffer was empty");
        reveal_strlit("Packet wasn't decoded");
        assert("Buffer was empty"@.len() == 16);
        assert("Packet wasn't decoded"@.len() == 21);
        assert("Buffer was empty"@ != "Packet wasn't decoded"@);
    }
    if buffer.len() == 0 {
        return Err("Buffer was empty".to_owned());
    }
    if !varints_bounded_check(buffer) {
        return Err("Packet wasn't decoded".to_owned());
    }
    let mut b = buffer_from_slice(buffer);
    match decode_packet(&mut b) {
        Ok(Some(p)) => Ok(p),
        Ok(None) => Err("Packet wasn't decoded".to_owned()),
        Err(_) => Err("Packet wasn't decoded".to_owned()),
    }
}

} // verus!
