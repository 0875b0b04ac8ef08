//! Asking trackers for peers.
//!
//! A tracker whose address starts with `udp://` is asked in two exchanges of packets: the first
//! gets a connection number, the second the peers. Any other tracker is asked by a web address.
use crate::bytes::{push_be16, push_be32, push_be64, push_bytes, read_be16};
#[allow(unused_imports)]
use crate::bytes::{
    be16, be32, be64, be_value, law_be16_round_trip, law_be32_round_trip, law_be64_round_trip,
};
#[allow(unused_imports)]
use crate::outside::percent_encoded;
use crate::outside::{encode_binary, random_u32};
#[allow(unused_imports)]
use crate::text::{
    decimal, found_at, law_first_occurrence_is_taken_out, law_text_without_the_pattern_is_kept,
    without,
};
use crate::text::{decimal_string, remove_all, starts_with};
#[allow(unused_imports)]
use crate::wire::{ascii, peer_id};
use crate::wire::push_peer_id;
use vstd::prelude::*;
use vstd::slice::slice_subrange;
use vstd::string::StringExecFns;

verus! {

/// The address of a peer.
#[derive(Debug, Clone, Copy, PartialEq, Eq)]
pub struct PeerAddr {
    pub ip: [u8; 4],
    pub port: u16,
}

/// The address of a peer, as contracts see it.
#[verifier::ext_equal]
pub struct PeerAddrView {
    pub ip: Seq<u8>,
    pub port: nat,
}

impl View for PeerAddr {
    type V = PeerAddrView;

    open spec fn view(&self) -> PeerAddrView {
        PeerAddrView { ip: self.ip@, port: self.port as nat }
    }
}

/// Why a tracker gave no answer.
#[derive(Debug, Clone, Copy, PartialEq, Eq, Structural)]
pub enum AnnounceError {
    /// The answer to the first packet is too short to hold a connection number.
    ShortReply,
}

impl AnnounceError {
    /// The words for this error.
    pub fn message(&self) -> (text: String)
        ensures
            text@ == "UDP fail"@,
    {
        "UDP fail".to_owned()
    }
}

/// The peers of a list in compact form: six bytes each, four for the address and two for the port.
/// A shorter rest is passed over.
pub open spec fn peers_in(list: Seq<u8>) -> Seq<PeerAddrView> {
    Seq::new(
        list.len() / 6,
        |k: int|
            PeerAddrView {
                ip: list.subrange(6 * k, 6 * k + 4),
                port: be_value(list.subrange(6 * k + 4, 6 * k + 6)),
            },
    )
}

/// The views of the peers of a list.
pub open spec fn peer_views(peers: Seq<PeerAddr>) -> Seq<PeerAddrView> {
    Seq::new(peers.len(), |k: int| peers[k]@)
}

/// The peers of a list in compact form.
pub fn decode_peers(list: &[u8]) -> (peers: Vec<PeerAddr>)
    ensures
        peer_views(peers@) == peers_in(list@),
{
    let count: usize = list.len() / 6;
    let mut peers: Vec<PeerAddr> = Vec::new();
    let mut k: usize = 0;
    while k < count
        invariant
            k <= count,
            count == list@.len() / 6,
            list@.len() <= usize::MAX,
            peers@.len() == k,
            forall|j: int| 0 <= j < k ==> (#[trigger] peers@[j])@ == peers_in(list@)[j],
        decreases count - k,
    {
        let at: usize = 6 * k;
        let ip: [u8; 4] = [list[at], list[at + 1], list[at + 2], list[at + 3]];
        assert(ip@ == list@.subrange(6 * k, 6 * k + 4));
        let port: u16 = read_be16(list, at + 4);
        let peer = PeerAddr { ip, port };
        assert(peer@ == peers_in(list@)[k as int]);
        peers.push(peer);
        k += 1;
    }
    assert(peer_views(peers@) == peers_in(list@));
    peers
}

/// The answer of a web tracker.
#[derive(Debug)]
pub struct TrackerResponse {
    pub peers: Vec<u8>,
}

impl TrackerResponse {
    /// The peers that the answer names.
    pub fn peer_addresses(&self) -> (peers: Vec<PeerAddr>)
        ensures
            peer_views(peers@) == peers_in(self.peers@),
    {
        decode_peers(self.peers.as_slice())
    }
}

/// The first packet: the number of the protocol, a wish to connect, and the transaction.
pub open spec fn connect_bytes(transaction: u32) -> Seq<u8> {
    be64(0x41727101980) + be32(0) + be32(transaction)
}

/// The second packet: the connection number, a wish to announce, the transaction, the torrent, the
/// client's name, nothing downloaded, what is left, nothing uploaded, no event, no address, a key,
/// as many peers as the tracker likes, and the port.
pub open spec fn announce_bytes(
    connection: Seq<u8>,
    transaction: u32,
    info_hash: Seq<u8>,
    left: u64,
    key: u32,
) -> Seq<u8> {
    connection + be32(1) + be32(transaction) + info_hash + ascii(peer_id()) + be64(0) + be64(left)
        + be64(0) + be32(0) + be32(0) + be32(key) + be32(0xffff_ffff) + be16(6881)
}

/// The host and port of a packet tracker.
pub open spec fn host_of(url: Seq<char>) -> Seq<char> {
    without(without(url, "udp://"@), "/announce"@)
}

/// The web address by which a web tracker is asked.
pub open spec fn web_request(url: Seq<char>, info_hash: Seq<u8>, left: u64) -> Seq<char> {
    url + "?info_hash="@ + percent_encoded(info_hash) + "&peer_id="@ + peer_id()
        + "&port=6881&uploaded=0&downloaded=0&left="@ + decimal(left as nat) + "&compact=1"@
}

/// The host and port of a packet tracker.
pub fn tracker_host(url: &str) -> (host: String)
    ensures
        host@ == host_of(url@),
{
    proof {
        reveal_strlit("udp://");
        reveal_strlit("/announce");
    }
    let rest = remove_all(url, "udp://");
    remove_all(rest.as_str(), "/announce")
}

/// The web address by which a web tracker is asked.
pub fn tracker_request(url: &str, info_hash: &[u8; 20], left: u64) -> (address: String)
    ensures
        address@ == web_request(url@, info_hash@, left),
{
    let mut address = url.to_owned();
    address.append("?info_hash=");
    address.append(encode_binary(info_hash).as_str());
    address.append("&peer_id=");
    address.append("-RT0001-123456789012");
    address.append("&port=6881&uploaded=0&downloaded=0&left=");
    address.append(decimal_string(left).as_str());
    address.append("&compact=1");
    address
}

/// How a tracker is to be asked.
#[derive(Debug)]
pub enum Announce {
    /// By packets.
    Udp(UdpAnnounce),
    /// By a web address.
    Http(String),
}

/// An announce to a packet tracker.
#[derive(Debug)]
pub struct UdpAnnounce {
    pub host: String,
    pub transaction: u32,
    pub info_hash: [u8; 20],
    pub left: u64,
}

impl UdpAnnounce {
    /// An announce under a given transaction number.
    pub fn with_transaction(url: &str, info_hash: &[u8; 20], left: u64, transaction: u32) -> (announce:
        Self)
        ensures
            announce.host@ == host_of(url@),
            announce.transaction == transaction,
            announce.info_hash@ == info_hash@,
            announce.left == left,
    {
        UdpAnnounce { host: tracker_host(url), transaction, info_hash: *info_hash, left }
    }

    /// An announce under a transaction number drawn at random.
    pub fn new(url: &str, info_hash: &[u8; 20], left: u64) -> (announce: Self)
        ensures
            announce.host@ == host_of(url@),
            announce.info_hash@ == info_hash@,
            announce.left == left,
    {
        Self::with_transaction(url, info_hash, left, random_u32())
    }

    /// The first packet.
    pub fn connect_packet(&self) -> (packet: Vec<u8>)
        ensures
            packet@ == connect_bytes(self.transaction),
    {
        let mut packet: Vec<u8> = Vec::with_capacity(16);
        push_be64(&mut packet, 0x41727101980);
        push_be32(&mut packet, 0);
        push_be32(&mut packet, self.transaction);
        packet
    }

    /// The second packet, after `reply` to the first, with a given key.
    pub fn announce_with_key(&self, reply: &[u8], key: u32) -> (packet: Result<
        Vec<u8>,
        AnnounceError,
    >)
        ensures
            reply@.len() < 16 ==> packet == Err::<Vec<u8>, AnnounceError>(
                AnnounceError::ShortReply,
            ),
            reply@.len() >= 16 ==> (packet matches Ok(bytes) && bytes@ == announce_bytes(
                reply@.subrange(8, 16),
                self.transaction,
                self.info_hash@,
                self.left,
                key,
            )),
    {
        if reply.len() < 16 {
            return Err(AnnounceError::ShortReply);
        }
        let mut packet: Vec<u8> = Vec::with_capacity(98);
        push_bytes(&mut packet, slice_subrange(reply, 8, 16));
        push_be32(&mut packet, 1);
        push_be32(&mut packet, self.transaction);
        push_bytes(&mut packet, &self.info_hash);
        push_peer_id(&mut packet);
        push_be64(&mut packet, 0);
        push_be64(&mut packet, self.left);
        push_be64(&mut packet, 0);
        push_be32(&mut packet, 0);
        push_be32(&mut packet, 0);
        push_be32(&mut packet, key);
        push_be32(&mut packet, 0xffff_ffff);
        push_be16(&mut packet, 6881);
        Ok(packet)
    }

    /// The second packet, after `reply` to the first, with a key drawn at random.
    pub fn announce_packet(&self, reply: &[u8]) -> (packet: Result<Vec<u8>, AnnounceError>)
        ensures
            reply@.len() < 16 ==> packet == Err::<Vec<u8>, AnnounceError>(
                AnnounceError::ShortReply,
            ),
            reply@.len() >= 16 ==> (packet matches Ok(bytes) && exists|key: u32|
                bytes@ == #[trigger] announce_bytes(
                    reply@.subrange(8, 16),
                    self.transaction,
                    self.info_hash@,
                    self.left,
                    key,
                )),
    {
        self.announce_with_key(reply, random_u32())
    }

    /// The peers in the reply to the second packet: those that follow its first twenty bytes.
    pub fn peers(&self, reply: &[u8]) -> (peers: Vec<PeerAddr>)
        ensures
            peer_views(peers@) == (if reply@.len() > 20 {
                peers_in(reply@.skip(20))
            } else {
                Seq::empty()
            }),
    {
        if reply.len() > 20 {
            let list = slice_subrange(reply, 20, reply.len());
            assert(list@ == reply@.skip(20));
            decode_peers(list)
        } else {
            let peers: Vec<PeerAddr> = Vec::new();
            assert(peer_views(peers@) == Seq::<PeerAddrView>::empty());
            peers
        }
    }
}

/// Decides how a tracker is to be asked.
pub fn announce_to(url: &str, info_hash: &[u8; 20], left: u64) -> (announce: Announce)
    ensures
        "udp://"@.is_prefix_of(url@) ==> (announce matches Announce::Udp(udp) && udp.host@
            == host_of(url@) && udp.info_hash@ == info_hash@ && udp.left == left),
        !"udp://"@.is_prefix_of(url@) ==> (announce matches Announce::Http(address) && address@
            == web_request(url@, info_hash@, left)),
{
    if starts_with(url, "udp://") {
        Announce::Udp(UdpAnnounce::new(url, info_hash, left))
    } else {
        Announce::Http(tracker_request(url, info_hash, left))
    }
}

/// The packets have the lengths that the protocol gives them.
pub proof fn law_packets_have_their_length(
    connection: Seq<u8>,
    transaction: u32,
    info_hash: Seq<u8>,
    left: u64,
    key: u32,
)
    requires
        connection.len() == 8,
        info_hash.len() == 20,
    ensures
        connect_bytes(transaction).len() == 16,
        announce_bytes(connection, transaction, info_hash, left, key).len() == 98,
{
    reveal_strlit("-RT0001-123456789012");
}

/// A list of peers in compact form.
pub open spec fn compact(peers: Seq<PeerAddr>) -> Seq<u8>
    decreases peers.len(),
{
    if peers.len() == 0 {
        Seq::empty()
    } else {
        compact(peers.drop_last()) + peers.last().ip@ + be16(peers.last().port)
    }
}

/// What a tracker lists is what is read: a list of peers in compact form gives back the peers, and
/// a rest too short for a peer changes nothing.
pub proof fn law_listed_peers_are_read(peers: Seq<PeerAddr>, rest: Seq<u8>)
    requires
        rest.len() < 6,
    ensures
        compact(peers).len() == 6 * peers.len(),
        peers_in(compact(peers) + rest) == peer_views(peers),
    decreases peers.len(),
{
    if peers.len() > 0 {
        let before = compact(peers.drop_last());
        let last = peers.last();
        law_listed_peers_are_read(peers.drop_last(), Seq::empty());
        law_be16_round_trip(last.port);
        let all = compact(peers) + rest;
        let n = peers.len() - 1;
        assert(before + Seq::<u8>::empty() == before);
        assert forall|k: int| 0 <= k < peers.len() implies peers_in(all)[k] == peer_views(
            peers,
        )[k] by {
            if k < n {
                assert(peers_in(before)[k] == peer_views(peers.drop_last())[k]);
                assert(all.subrange(6 * k, 6 * k + 4) == before.subrange(6 * k, 6 * k + 4));
                assert(all.subrange(6 * k + 4, 6 * k + 6) == before.subrange(
                    6 * k + 4,
                    6 * k + 6,
                ));
            } else {
                assert(all.subrange(6 * k, 6 * k + 4) == last.ip@);
                assert(all.subrange(6 * k + 4, 6 * k + 6) == be16(last.port));
            }
        }
    }
    assert(peers_in(compact(peers) + rest) == peer_views(peers));
}

/// A list in compact form is read by sixes: the first four bytes of each are the address, the next
/// two spell the port, and less than six are left over.
pub proof fn law_peers_are_read_by_sixes(list: Seq<u8>)
    ensures
        6 * peers_in(list).len() <= list.len() < 6 * peers_in(list).len() + 6,
        forall|k: int|
            0 <= k < peers_in(list).len() ==> {
                let peer = #[trigger] peers_in(list)[k];
                &&& peer.ip == seq![list[6 * k], list[6 * k + 1], list[6 * k + 2], list[6 * k + 3]]
                &&& peer.port == list[6 * k + 4] * 256 + list[6 * k + 5]
            },
{
    assert forall|k: int| 0 <= k < peers_in(list).len() implies {
        let peer = #[trigger] peers_in(list)[k];
        &&& peer.ip == seq![list[6 * k], list[6 * k + 1], list[6 * k + 2], list[6 * k + 3]]
        &&& peer.port == list[6 * k + 4] * 256 + list[6 * k + 5]
    } by {
        assert(list.subrange(6 * k, 6 * k + 4) == seq![
            list[6 * k],
            list[6 * k + 1],
            list[6 * k + 2],
            list[6 * k + 3],
        ]);
        let port = list.subrange(6 * k + 4, 6 * k + 6);
        reveal_with_fuel(be_value, 3);
        assert(port.drop_last().drop_last() == Seq::<u8>::empty());
    }
}

/// A peer is seen by its four bytes and its port, and a list of peers peer by peer.
pub proof fn law_peers_are_seen_whole(peers: Seq<PeerAddr>)
    ensures
        peer_views(peers).len() == peers.len(),
        forall|k: int|
            0 <= k < peers.len() ==> (#[trigger] peer_views(peers)[k]).ip == peers[k].ip@
                && peer_views(peers)[k].port == peers[k].port,
{
}

/// The packets carry what they are to carry, each number spelled in its place: the first the number
/// of the protocol, no action and the transaction; the second the connection, the action, the
/// transaction, the torrent and the client, what is left, the key, the wish for as many peers as
/// the tracker likes, and the port, with nothing downloaded or uploaded, no event and no address.
pub proof fn law_packets_carry_their_fields(
    connection: Seq<u8>,
    transaction: u32,
    info_hash: Seq<u8>,
    left: u64,
    key: u32,
)
    requires
        connection.len() == 8,
        info_hash.len() == 20,
    ensures
        ({
            let first = connect_bytes(transaction);
            &&& first.len() == 16
            &&& be_value(first.subrange(0, 8)) == 0x417_2710_1980
            &&& be_value(first.subrange(8, 12)) == 0
            &&& be_value(first.subrange(12, 16)) == transaction
        }),
        ({
            let second = announce_bytes(connection, transaction, info_hash, left, key);
            &&& second.len() == 98
            &&& second.subrange(0, 8) == connection
            &&& be_value(second.subrange(8, 12)) == 1
            &&& be_value(second.subrange(12, 16)) == transaction
            &&& second.subrange(16, 36) == info_hash
            &&& forall|i: int|
                0 <= i < 20 ==> #[trigger] second.subrange(36, 56)[i] as int
                    == "-RT0001-123456789012"@[i] as int
            &&& be_value(second.subrange(56, 64)) == 0
            &&& be_value(second.subrange(64, 72)) == left
            &&& be_value(second.subrange(72, 80)) == 0
            &&& be_value(second.subrange(80, 84)) == 0
            &&& be_value(second.subrange(84, 88)) == 0
            &&& be_value(second.subrange(88, 92)) == key
            &&& be_value(second.subrange(92, 96)) == 0xffff_ffff
            &&& be_value(second.subrange(96, 98)) == 6881
        }),
{
    reveal_strlit("-RT0001-123456789012");
    law_packets_have_their_length(connection, transaction, info_hash, left, key);
    law_be64_round_trip(0x417_2710_1980);
    law_be64_round_trip(0);
    law_be64_round_trip(left);
    law_be32_round_trip(0);
    law_be32_round_trip(1);
    law_be32_round_trip(transaction);
    law_be32_round_trip(key);
    law_be32_round_trip(0xffff_ffff);
    law_be16_round_trip(6881);
    let first = connect_bytes(transaction);
    assert(first.subrange(0, 8) == be64(0x417_2710_1980));
    assert(first.subrange(8, 12) == be32(0));
    assert(first.subrange(12, 16) == be32(transaction));
    let second = announce_bytes(connection, transaction, info_hash, left, key);
    assert(second.subrange(0, 8) == connection);
    assert(second.subrange(8, 12) == be32(1));
    assert(second.subrange(12, 16) == be32(transaction));
    assert(second.subrange(16, 36) == info_hash);
    assert(second.subrange(36, 56) == ascii(peer_id()));
    assert(second.subrange(56, 64) == be64(0));
    assert(second.subrange(64, 72) == be64(left));
    assert(second.subrange(72, 80) == be64(0));
    assert(second.subrange(80, 84) == be32(0));
    assert(second.subrange(84, 88) == be32(0));
    assert(second.subrange(88, 92) == be32(key));
    assert(second.subrange(92, 96) == be32(0xffff_ffff));
    assert(second.subrange(96, 98) == be16(6881));
}

/// The host of a packet tracker is what stands between the scheme and the path: what comes after
/// the scheme decides, a path at the end is left off, and a name in which neither occurs, nor at
/// the seam with the path, is kept whole.
pub proof fn law_host_is_kept_whole(host: Seq<char>)
    requires
        forall|at: int| !#[trigger] found_at(host + "/announce"@, "udp://"@, at),
        forall|at: int| !#[trigger] found_at(host, "/announce"@, at),
    ensures
        host_of("udp://"@ + host + "/announce"@) == host,
        host_of("udp://"@ + host) == host,
        host_of(host) == host,
{
    reveal_strlit("udp://");
    reveal_strlit("/announce");
    let scheme = "udp://"@;
    let path = "/announce"@;
    let rest = host + path;
    assert(scheme + host + path == scheme + rest);
    law_text_without_the_pattern_is_kept(rest, scheme);
    assert forall|at: int| !#[trigger] found_at(host, scheme, at) by {
        if found_at(host, scheme, at) {
            assert(rest.subrange(at, at + scheme.len()) == host.subrange(at, at + scheme.len()));
            assert(found_at(rest, scheme, at));
        }
    }
    law_text_without_the_pattern_is_kept(host, scheme);
    law_text_without_the_pattern_is_kept(host, path);
    law_scheme_is_left_off(rest);
    law_scheme_is_left_off(host);
    lemma_path_at_the_end(host);
}

/// A path at the end is taken off, where it does not occur before: no two of it can overlap.
proof fn lemma_path_at_the_end(host: Seq<char>)
    requires
        forall|at: int| !#[trigger] found_at(host, "/announce"@, at),
    ensures
        without(host + "/announce"@, "/announce"@) == host,
{
    reveal_strlit("/announce");
    let path = "/announce"@;
    let rest = host + path;
    let n = host.len() as int;
    assert(rest.subrange(n, n + path.len()) == path);
    assert(found_at(rest, path, n));
    assert forall|k: int| k < n implies !#[trigger] found_at(rest, path, k) by {
        if found_at(rest, path, k) {
            if k + path.len() <= n {
                assert(host.subrange(k, k + path.len()) == rest.subrange(k, k + path.len()));
                assert(found_at(host, path, k));
            } else {
                assert(rest.subrange(k, k + path.len())[n - k] == rest[n]);
                assert(path[n - k] == path[0]);
            }
        }
    }
    law_first_occurrence_is_taken_out(rest, path, n);
    assert(rest.take(n) == host);
    assert(rest.skip(n + path.len()) == Seq::<char>::empty());
    assert(host + without(Seq::<char>::empty(), path) == host);
}

/// A name and a port without a slash are kept whole.
pub proof fn law_plain_host_is_kept_whole(host: Seq<char>)
    requires
        !host.contains('/'),
    ensures
        host_of("udp://"@ + host + "/announce"@) == host,
        host_of("udp://"@ + host) == host,
{
    reveal_strlit("udp://");
    reveal_strlit("/announce");
    let rest = host + "/announce"@;
    assert forall|at: int| !#[trigger] found_at(rest, "udp://"@, at) by {
        if found_at(rest, "udp://"@, at) {
            assert(rest.subrange(at, at + 6)[4] == rest[at + 4]);
            assert(rest.subrange(at, at + 6)[5] == rest[at + 5]);
            if at + 4 < host.len() {
                assert(host[at + 4] == '/');
            }
        }
    }
    assert forall|at: int| !#[trigger] found_at(host, "/announce"@, at) by {
        if found_at(host, "/announce"@, at) {
            assert(host.subrange(at, at + 9)[0] == host[at]);
        }
    }
    law_host_is_kept_whole(host);
}

/// The scheme in front of an address does not matter to the host.
pub proof fn law_scheme_is_left_off(rest: Seq<char>)
    ensures
        host_of("udp://"@ + rest) == host_of(rest),
{
    reveal_strlit("udp://");
    let scheme = "udp://"@;
    let url = scheme + rest;
    assert(url.subrange(0, scheme.len() as int) == scheme);
    assert(found_at(url, scheme, 0));
    law_first_occurrence_is_taken_out(url, scheme, 0);
    assert(url.skip(scheme.len() as int) == rest);
    assert(url.take(0) + without(rest, scheme) == without(rest, scheme));
}

/// Where the path first occurs behind the scheme it is left off, and what follows is treated in the
/// same way.
pub proof fn law_path_is_left_off(text: Seq<char>, at: int)
    requires
        forall|k: int| !#[trigger] found_at(text, "udp://"@, k),
        found_at(text, "/announce"@, at),
        forall|k: int| k < at ==> !#[trigger] found_at(text, "/announce"@, k),
    ensures
        host_of(text) == text.take(at) + host_of(text.skip(at + 9)),
{
    reveal_strlit("udp://");
    reveal_strlit("/announce");
    let tail = text.skip(at + 9);
    assert forall|k: int| !#[trigger] found_at(tail, "udp://"@, k) by {
        if found_at(tail, "udp://"@, k) {
            assert(text.subrange(at + 9 + k, at + 9 + k + 6) == tail.subrange(k, k + 6));
            assert(found_at(text, "udp://"@, at + 9 + k));
        }
    }
    law_text_without_the_pattern_is_kept(text, "udp://"@);
    law_text_without_the_pattern_is_kept(tail, "udp://"@);
    law_first_occurrence_is_taken_out(text, "/announce"@, at);
}

/// A web tracker is asked at its own address, with the digest of the torrent, the client's name and
/// what is left behind it, each under its key.
pub proof fn law_web_address_carries_its_fields(url: Seq<char>, info_hash: Seq<u8>, left: u64)
    ensures
        ({
            let address = web_request(url, info_hash, left);
            let hash = percent_encoded(info_hash);
            let a = url.len() as int;
            let b = a + 11;
            let c = b + hash.len();
            let d = c + 9;
            let e = d + 20;
            let f = e + 40;
            let g = f + decimal(left as nat).len();
            &&& address.len() == g + 10
            &&& address.take(a) == url
            &&& address.subrange(a, b) == "?info_hash="@
            &&& address.subrange(b, c) == hash
            &&& address.subrange(c, d) == "&peer_id="@
            &&& address.subrange(d, e) == "-RT0001-123456789012"@
            &&& address.subrange(e, f) == "&port=6881&uploaded=0&downloaded=0&left="@
            &&& address.subrange(f, g) == decimal(left as nat)
            &&& address.skip(g) == "&compact=1"@
        }),
{
    reveal_strlit("?info_hash=");
    reveal_strlit("&peer_id=");
    reveal_strlit("-RT0001-123456789012");
    reveal_strlit("&port=6881&uploaded=0&downloaded=0&left=");
    reveal_strlit("&compact=1");
    let address = web_request(url, info_hash, left);
    let hash = percent_encoded(info_hash);
    let a = url.len() as int;
    let b = a + 11;
    let c = b + hash.len();
    let d = c + 9;
    let e = d + 20;
    let f = e + 40;
    let g = f + decimal(left as nat).len();
    assert(address.take(a) == url);
    assert(address.subrange(a, b) == "?info_hash="@);
    assert(address.subrange(b, c) == hash);
    assert(address.subrange(c, d) == "&peer_id="@);
    assert(address.subrange(d, e) == "-RT0001-123456789012"@);
    assert(address.subrange(e, f) == "&port=6881&uploaded=0&downloaded=0&left="@);
    assert(address.subrange(f, g) == decimal(left as nat));
    assert(address.skip(g) == "&compact=1"@);
}

} // verus!
