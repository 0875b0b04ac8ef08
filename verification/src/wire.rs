//! The messages of the peer protocol that the client sends.
use crate::bytes::{push_be32, push_bytes};
#[allow(unused_imports)]
use crate::bytes::{be32, be_value, law_be32_round_trip};
use vstd::prelude::*;
#[allow(unused_imports)]
use vstd::string::{is_ascii_spec_bytes, StringSliceAdditionalSpecFns};
#[allow(unused_imports)]
use vstd::utf8::is_ascii_chars;

verus! {

/// The bytes of an ASCII text.
pub open spec fn ascii(text: Seq<char>) -> Seq<u8> {
    Seq::new(text.len(), |i: int| text[i] as u8)
}

/// The name that the client goes by among peers and trackers.
pub open spec fn peer_id() -> Seq<char> {
    "-RT0001-123456789012"@
}

/// The greeting that opens a connection: the length and the name of the protocol, eight reserved
/// bytes, the digest of the torrent, and the client's name.
pub open spec fn handshake_bytes(info_hash: Seq<u8>) -> Seq<u8> {
    seq![19u8] + ascii("BitTorrent protocol"@) + seq![0u8, 0u8, 0u8, 0u8, 0u8, 0u8, 0u8, 0u8]
        + info_hash + ascii(peer_id())
}

/// The length of a greeting.
pub const HANDSHAKE_LEN: usize = 68;

/// The message that asks to be served.
pub open spec fn interested_bytes() -> Seq<u8> {
    seq![0u8, 0u8, 0u8, 1u8, 2u8]
}

/// The message that asks for `len` bytes at `begin` of piece `index`.
pub open spec fn request_bytes(index: u32, begin: u32, len: u32) -> Seq<u8> {
    be32(13) + seq![6u8] + be32(index) + be32(begin) + be32(len)
}

/// Appends an ASCII text.
pub fn push_ascii(buf: &mut Vec<u8>, text: &str)
    requires
        is_ascii_chars(text@),
    ensures
        final(buf)@ == old(buf)@ + ascii(text@),
{
    proof {
        is_ascii_spec_bytes(text);
        assert(text.spec_bytes() == ascii(text@));
    }
    push_bytes(buf, text.as_bytes());
}

/// Appends the client's name.
pub fn push_peer_id(buf: &mut Vec<u8>)
    ensures
        final(buf)@ == old(buf)@ + ascii(peer_id()),
{
    proof {
        reveal_strlit("-RT0001-123456789012");
    }
    push_ascii(buf, "-RT0001-123456789012");
}

/// The greeting that opens a connection.
pub fn handshake(info_hash: &[u8; 20]) -> (message: Vec<u8>)
    ensures
        message@ == handshake_bytes(info_hash@),
{
    let mut message: Vec<u8> = Vec::with_capacity(HANDSHAKE_LEN);
    message.push(19);
    proof {
        reveal_strlit("BitTorrent protocol");
    }
    push_ascii(&mut message, "BitTorrent protocol");
    let reserved: [u8; 8] = [0u8; 8];
    assert(reserved@ == seq![0u8, 0u8, 0u8, 0u8, 0u8, 0u8, 0u8, 0u8]);
    push_bytes(&mut message, &reserved);
    push_bytes(&mut message, info_hash);
    push_peer_id(&mut message);
    message
}

/// The message that asks to be served.
pub fn interested() -> (message: Vec<u8>)
    ensures
        message@ == interested_bytes(),
{
    let mut message: Vec<u8> = Vec::with_capacity(5);
    push_be32(&mut message, 1);
    message.push(2);
    message
}

/// The message that asks for `len` bytes at `begin` of piece `index`.
pub fn request(index: u32, begin: u32, len: u32) -> (message: Vec<u8>)
    ensures
        message@ == request_bytes(index, begin, len),
{
    let mut message: Vec<u8> = Vec::with_capacity(17);
    push_be32(&mut message, 13);
    message.push(6);
    push_be32(&mut message, index);
    push_be32(&mut message, begin);
    push_be32(&mut message, len);
    message
}

/// A greeting is sixty-eight bytes long: it names the protocol, behind the length of the name,
/// leaves eight bytes zero, carries the digest of its torrent at a fixed place, so that the peer who
/// receives it can tell which torrent is meant, and ends with the client's name.
pub proof fn law_handshake_names_its_torrent(info_hash: Seq<u8>)
    requires
        info_hash.len() == 20,
    ensures
        handshake_bytes(info_hash).len() == 68,
        HANDSHAKE_LEN == 68,
        handshake_bytes(info_hash)[0] == 19,
        forall|i: int|
            0 <= i < 19 ==> #[trigger] handshake_bytes(info_hash).skip(1)[i] as int
                == "BitTorrent protocol"@[i] as int,
        forall|i: int| 20 <= i < 28 ==> #[trigger] handshake_bytes(info_hash)[i] == 0,
        handshake_bytes(info_hash).subrange(28, 48) == info_hash,
        forall|i: int|
            0 <= i < 20 ==> #[trigger] handshake_bytes(info_hash).skip(48)[i] as int
                == "-RT0001-123456789012"@[i] as int,
{
    reveal_strlit("BitTorrent protocol");
    reveal_strlit("-RT0001-123456789012");
}

/// The client goes by one name among peers and trackers, of twenty ASCII characters.
pub proof fn law_client_has_one_name()
    ensures
        peer_id() == "-RT0001-123456789012"@,
        peer_id().len() == 20,
        is_ascii_chars(peer_id()),
{
    reveal_strlit("-RT0001-123456789012");
}

/// ASCII text is written one byte to a character, by the character's number.
pub proof fn law_ascii_keeps_the_numbers(text: Seq<char>)
    requires
        is_ascii_chars(text),
    ensures
        ascii(text).len() == text.len(),
        forall|i: int| 0 <= i < text.len() ==> #[trigger] ascii(text)[i] as int == text[i] as int,
{
}

/// The message that asks to be served has one byte after its length: the number of its kind.
pub proof fn law_interested_is_framed()
    ensures
        interested_bytes().len() == 5,
        be_value(interested_bytes().subrange(0, 4)) == 1,
        interested_bytes()[4] == 2,
{
    law_be32_round_trip(1);
    assert(interested_bytes().subrange(0, 4) == be32(1));
}

/// A request is a message of thirteen bytes after its length: the number of its kind, and the piece,
/// the position and the length that it asks for, each spelled by four bytes.
pub proof fn law_request_is_framed(index: u32, begin: u32, len: u32)
    ensures
        request_bytes(index, begin, len).len() == 17,
        be_value(request_bytes(index, begin, len).subrange(0, 4)) == 13,
        request_bytes(index, begin, len)[4] == 6,
        be_value(request_bytes(index, begin, len).subrange(5, 9)) == index,
        be_value(request_bytes(index, begin, len).subrange(9, 13)) == begin,
        be_value(request_bytes(index, begin, len).subrange(13, 17)) == len,
{
    let message = request_bytes(index, begin, len);
    law_be32_round_trip(13);
    law_be32_round_trip(index);
    law_be32_round_trip(begin);
    law_be32_round_trip(len);
    assert(message.subrange(0, 4) == be32(13));
    assert(message.subrange(5, 9) == be32(index));
    assert(message.subrange(9, 13) == be32(begin));
    assert(message.subrange(13, 17) == be32(len));
}

} // verus!
