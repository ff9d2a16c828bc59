use vstd::prelude::*;

use crate::byteorder::{
    i32_from_bits, i32_bits, i32_of_bits, i32_to_be, i64_from_bits, i64_to_be, read_u16_be,
    read_u32_be, read_u64_be, u16_from_be, u16_to_be, u32_from_be, u32_to_be, u64_from_be,
    write_i32_be, write_i64_be, write_u16_be, write_u32_be,
};
use crate::tracker::{BinaryPeer, Peers, TrackerError, TrackerResponse};
use crate::util::copy_range;
use crate::{DecodeOutcome, SpecDecoded};

verus! {

/// The connect-request protocol id that every exchange opens with.
pub const PROTOCOL_MAGIC: i64 = 0x41727101980;

// ---------------------------------------------------------------------------
// Connect (handshake) phase.
// ---------------------------------------------------------------------------

/// The fixed 16-byte connect request.
#[derive(Debug, PartialEq, Eq, Structural, Clone, Copy)]
pub struct TrackerHandshakeRequest {
    pub connection_id: i64,
    pub action: i32,
    pub transaction_id: i32,
}

impl TrackerHandshakeRequest {
    pub fn new(transaction_id: i32) -> (r: Self)
        ensures
            r.connection_id == 0x41727101980,
            r.action == 0,
            r.transaction_id == transaction_id,
    {
        Self { connection_id: PROTOCOL_MAGIC, action: 0, transaction_id }
    }

    /// The 16-byte big-endian wire form: protocol id, action, transaction id.
    pub open spec fn spec_encode(self) -> Seq<u8> {
        i64_to_be(self.connection_id) + i32_to_be(self.action) + i32_to_be(self.transaction_id)
    }

    pub fn encode(&self) -> (r: Vec<u8>)
        ensures
            r@ == self.spec_encode(),
            r@.len() == 16,
    {
        let mut out: Vec<u8> = Vec::new();
        write_i64_be(&mut out, self.connection_id);
        write_i32_be(&mut out, self.action);
        write_i32_be(&mut out, self.transaction_id);
        proof {
            assert(out@ =~= self.spec_encode());
        }
        out
    }
}

/// The fixed 16-byte connect response.
#[derive(Debug, PartialEq, Eq, Structural, Clone, Copy)]
pub struct TrackerHandshakeResponse {
    pub action: i32,
    pub transaction_id: i32,
    pub connection_id: i64,
}

impl View for TrackerHandshakeResponse {
    type V = TrackerHandshakeResponse;

    open spec fn view(&self) -> TrackerHandshakeResponse {
        *self
    }
}

/// What one decode step yields on buffered bytes `s`: with fewer than 16
/// bytes, the missing count; otherwise the action, transaction id and
/// connection id, big-endian.
pub open spec fn spec_decode_handshake_response(s: Seq<u8>) -> SpecDecoded<
    TrackerHandshakeResponse,
    TrackerError,
> {
    if s.len() < 16 {
        SpecDecoded::Incomplete(16 - s.len())
    } else {
        SpecDecoded::Parsed(
            TrackerHandshakeResponse {
                action: i32_from_bits(u32_from_be(s.subrange(0, 4))),
                transaction_id: i32_from_bits(u32_from_be(s.subrange(4, 8))),
                connection_id: i64_from_bits(u64_from_be(s.subrange(8, 16))),
            },
            16,
        )
    }
}

impl TrackerHandshakeResponse {
    pub fn decode(buf: &Vec<u8>) -> (r: DecodeOutcome<TrackerHandshakeResponse, TrackerError>)
        ensures
            crate::decoded_matches(r, spec_decode_handshake_response(buf@)),
    {
        if buf.len() < 16 {
            return DecodeOutcome::Incomplete(16 - buf.len());
        }
        let action = i32_of_bits(read_u32_be(buf, 0));
        let transaction_id = i32_of_bits(read_u32_be(buf, 4));
        let connection_id = crate::byteorder::i64_of_bits(read_u64_be(buf, 8));
        DecodeOutcome::Parsed(
            TrackerHandshakeResponse { action, transaction_id, connection_id },
            16,
        )
    }
}

/// Accepts a response's transaction id exactly when it equals the one the
/// request was sent with; a mismatch is rejected even if the response is
/// otherwise well-formed, and its connection id must not be reused.
pub fn verify_transaction_id(expected: i32, received: i32) -> (r: Result<(), TrackerError>)
    ensures
        r is Ok <==> received == expected,
        r matches Err(e) ==> e == TrackerError::ReceivedIncorrectTransactionId(received, expected),
{
    if received == expected {
        Ok(())
    } else {
        Err(TrackerError::ReceivedIncorrectTransactionId(received, expected))
    }
}

// ---------------------------------------------------------------------------
// Announce phase.
// ---------------------------------------------------------------------------

/// What the announce tells the tracker about this client's state.
#[derive(Debug, PartialEq, Eq, Structural, Clone, Copy)]
pub enum Event {
    NoEvent,
    Completed,
    Started,
    Stopped,
}

/// The 4-byte wire code of an event.
pub open spec fn spec_event_code(e: Event) -> i32 {
    match e {
        Event::NoEvent => 0,
        Event::Completed => 1,
        Event::Started => 2,
        Event::Stopped => 3,
    }
}

pub fn event_code(e: Event) -> (r: i32)
    ensures
        r == spec_event_code(e),
{
    match e {
        Event::NoEvent => 0,
        Event::Completed => 1,
        Event::Started => 2,
        Event::Stopped => 3,
    }
}

/// The fixed-layout 98-byte announce request.
#[derive(Debug)]
pub struct TrackerAnnounceRequest {
    pub connection_id: i64,
    pub action: i32,
    pub transaction_id: i32,
    pub info_hash: Vec<u8>,
    pub peer_id: Vec<u8>,
    pub downloaded: i64,
    pub left: i64,
    pub uploaded: i64,
    pub event: i32,
    pub ip: u32,
    pub key: u32,
    pub num_want: i32,
    pub port: u16,
    pub extensions: u16,
}

impl TrackerAnnounceRequest {
    /// Builds an announce request: action 1, all peers wanted (`num_want`
    /// -1), no extensions, an unspecified ip defaulting to 0.
    pub fn new(
        connection_id: i64,
        transaction_id: i32,
        info_hash: Vec<u8>,
        peer_id: Vec<u8>,
        downloaded: i64,
        left: i64,
        uploaded: i64,
        event: Event,
        ip: Option<u32>,
        key: u32,
        port: u16,
    ) -> (r: Self)
        requires
            info_hash@.len() == 20,
            peer_id@.len() == 20,
        ensures
            r.connection_id == connection_id,
            r.action == 1,
            r.transaction_id == transaction_id,
            r.info_hash@ == info_hash@,
            r.peer_id@ == peer_id@,
            r.downloaded == downloaded,
            r.left == left,
            r.uploaded == uploaded,
            r.event == spec_event_code(event),
            r.ip == (if ip is Some {
                ip->0
            } else {
                0u32
            }),
            r.key == key,
            r.num_want == -1,
            r.port == port,
            r.extensions == 0,
    {
        let ip_value = match ip {
            Some(v) => v,
            None => 0,
        };
        Self {
            connection_id,
            action: 1,
            transaction_id,
            info_hash,
            peer_id,
            downloaded,
            left,
            uploaded,
            event: event_code(event),
            ip: ip_value,
            key,
            num_want: -1,
            port,
            extensions: 0,
        }
    }

    /// The 98-byte big-endian wire form, fields in the fixed BEP-15 order.
    pub open spec fn spec_encode(self) -> Seq<u8> {
        i64_to_be(self.connection_id) + i32_to_be(self.action) + i32_to_be(self.transaction_id)
            + self.info_hash@ + self.peer_id@ + i64_to_be(self.downloaded) + i64_to_be(self.left)
            + i64_to_be(self.uploaded) + i32_to_be(self.event) + u32_to_be(self.ip) + u32_to_be(
            self.key,
        ) + i32_to_be(self.num_want) + u16_to_be(self.port) + u16_to_be(self.extensions)
    }

    pub fn encode(&self) -> (r: Vec<u8>)
        requires
            self.info_hash@.len() == 20,
            self.peer_id@.len() == 20,
        ensures
            r@ == self.spec_encode(),
            r@.len() == 100,
    {
        let mut out: Vec<u8> = Vec::new();
        write_i64_be(&mut out, self.connection_id);
        write_i32_be(&mut out, self.action);
        write_i32_be(&mut out, self.transaction_id);
        let mut hash = copy_range(&self.info_hash, 0, self.info_hash.len());
        out.append(&mut hash);
        let mut peer_id = copy_range(&self.peer_id, 0, self.peer_id.len());
        out.append(&mut peer_id);
        write_i64_be(&mut out, self.downloaded);
        write_i64_be(&mut out, self.left);
        write_i64_be(&mut out, self.uploaded);
        write_i32_be(&mut out, self.event);
        write_u32_be(&mut out, self.ip);
        write_u32_be(&mut out, self.key);
        write_i32_be(&mut out, self.num_want);
        write_u16_be(&mut out, self.port);
        write_u16_be(&mut out, self.extensions);
        proof {
            assert(self.info_hash@.subrange(0, self.info_hash@.len() as int) =~= self.info_hash@);
            assert(self.peer_id@.subrange(0, self.peer_id@.len() as int) =~= self.peer_id@);
            assert(out@ =~= self.spec_encode());
        }
        out
    }
}

/// One 6-byte peer entry of an announce response: a 32-bit ip value and a
/// port, big-endian.
#[derive(Debug, PartialEq, Eq, Structural, Clone, Copy)]
pub struct Peer {
    pub ip: i32,
    pub port: u16,
}

/// The announce response: a 20-byte header, then `leechers + seeders` peer
/// entries of 6 bytes each.
#[derive(Debug)]
pub struct TrackerAnnounceResponse {
    pub action: i32,
    pub transaction_id: i32,
    pub interval: i32,
    pub leechers: i32,
    pub seeders: i32,
    pub peers: Vec<Peer>,
}

/// Mathematical model of an announce response.
pub struct TrackerAnnounceResponseModel {
    pub action: i32,
    pub transaction_id: i32,
    pub interval: i32,
    pub leechers: i32,
    pub seeders: i32,
    pub peers: Seq<Peer>,
}

impl View for TrackerAnnounceResponse {
    type V = TrackerAnnounceResponseModel;

    open spec fn view(&self) -> TrackerAnnounceResponseModel {
        TrackerAnnounceResponseModel {
            action: self.action,
            transaction_id: self.transaction_id,
            interval: self.interval,
            leechers: self.leechers,
            seeders: self.seeders,
            peers: self.peers@,
        }
    }
}

/// The peer entry at index `k` of an announce response held in `s`.
pub open spec fn spec_peer_entry(s: Seq<u8>, k: int) -> Peer {
    Peer {
        ip: i32_from_bits(u32_from_be(s.subrange(20 + 6 * k, 24 + 6 * k))),
        port: u16_from_be(s.subrange(24 + 6 * k, 26 + 6 * k)),
    }
}

/// What one decode step yields on buffered bytes `s`.
///
/// Until the 20-byte header and all `leechers + seeders` entries are
/// buffered, asks for the deficit (capped at `usize::MAX`), so a caller keeps
/// reading on a short datagram fill. Negative counts and an action other than
/// 1 are rejected once enough bytes are present to decide.
pub open spec fn spec_decode_announce_response(s: Seq<u8>) -> SpecDecoded<
    TrackerAnnounceResponseModel,
    TrackerError,
> {
    if s.len() < 20 {
        SpecDecoded::Incomplete(20 - s.len())
    } else {
        let action = i32_from_bits(u32_from_be(s.subrange(0, 4)));
        let transaction_id = i32_from_bits(u32_from_be(s.subrange(4, 8)));
        let interval = i32_from_bits(u32_from_be(s.subrange(8, 12)));
        let leechers = i32_from_bits(u32_from_be(s.subrange(12, 16)));
        let seeders = i32_from_bits(u32_from_be(s.subrange(16, 20)));
        if leechers < 0 || seeders < 0 {
            SpecDecoded::Invalid(TrackerError::InvalidBodyInTrackerResponse)
        } else {
            let count = leechers + seeders;
            if s.len() < 20 + 6 * count {
                SpecDecoded::Incomplete(
                    if 20 + 6 * count - s.len() > usize::MAX {
                        usize::MAX as int
                    } else {
                        20 + 6 * count - s.len()
                    },
                )
            } else if action != 1 {
                SpecDecoded::Invalid(TrackerError::InvalidBodyInTrackerResponse)
            } else {
                SpecDecoded::Parsed(
                    TrackerAnnounceResponseModel {
                        action,
                        transaction_id,
                        interval,
                        leechers,
                        seeders,
                        peers: Seq::new(count as nat, |k: int| spec_peer_entry(s, k)),
                    },
                    20 + 6 * count,
                )
            }
        }
    }
}

impl TrackerAnnounceResponse {
    pub fn decode(buf: &Vec<u8>) -> (r: DecodeOutcome<TrackerAnnounceResponse, TrackerError>)
        ensures
            crate::decoded_matches(r, spec_decode_announce_response(buf@)),
    {
        if buf.len() < 20 {
            return DecodeOutcome::Incomplete(20 - buf.len());
        }
        let action = i32_of_bits(read_u32_be(buf, 0));
        let transaction_id = i32_of_bits(read_u32_be(buf, 4));
        let interval = i32_of_bits(read_u32_be(buf, 8));
        let leechers = i32_of_bits(read_u32_be(buf, 12));
        let seeders = i32_of_bits(read_u32_be(buf, 16));
        if leechers < 0 || seeders < 0 {
            return DecodeOutcome::Invalid(TrackerError::InvalidBodyInTrackerResponse);
        }
        let count: u64 = (leechers as u64) + (seeders as u64);
        let need: u64 = 20 + 6 * count;
        let have: u64 = buf.len() as u64;
        if have < need {
            let deficit = need - have;
            let capped = if deficit > (usize::MAX as u64) {
                usize::MAX
            } else {
                deficit as usize
            };
            return DecodeOutcome::Incomplete(capped);
        }
        if action != 1 {
            return DecodeOutcome::Invalid(TrackerError::InvalidBodyInTrackerResponse);
        }
        let count_usize = count as usize;
        let mut peers: Vec<Peer> = Vec::new();
        let mut k: usize = 0;
        while k < count_usize
            invariant
                0 <= k <= count_usize,
                20 + 6 * count_usize <= buf.len(),
                peers@.len() == k,
                forall|j: int| 0 <= j < k ==> peers@[j] == spec_peer_entry(buf@, j),
            decreases count_usize - k,
        {
            let ip = i32_of_bits(read_u32_be(buf, 20 + 6 * k));
            let port = read_u16_be(buf, 24 + 6 * k);
            peers.push(Peer { ip, port });
            k = k + 1;
        }
        let total = (need as usize);
        proof {
            assert(peers@ =~= Seq::new(count as nat, |j: int| spec_peer_entry(buf@, j)));
        }
        DecodeOutcome::Parsed(
            TrackerAnnounceResponse { action, transaction_id, interval, leechers, seeders, peers },
            total,
        )
    }

    /// Normalizes into the facade's response shape: `complete` 0 by
    /// convention, `incomplete` the seeder count, and the peers as binary
    /// entries whose address keeps the 32-bit value.
    pub fn into_response(self) -> (r: TrackerResponse)
        requires
            self.interval >= 0,
            self.seeders >= 0,
        ensures
            r.complete == 0,
            r.incomplete == self.seeders as usize,
            r.interval == self.interval as usize,
            r.peers matches Peers::Binary(v) && v@.len() == self.peers@.len() && (forall|k: int|
                0 <= k < v@.len() ==> v@[k] == (BinaryPeer {
                    addr: i32_bits(self.peers@[k].ip),
                    port: self.peers@[k].port,
                })),
    {
        let n = self.peers.len();
        let mut v: Vec<BinaryPeer> = Vec::new();
        let mut k: usize = 0;
        while k < n
            invariant
                0 <= k <= n,
                n == self.peers@.len(),
                v@.len() == k,
                forall|j: int| 0 <= j < k ==> v@[j] == (BinaryPeer {
                    addr: i32_bits(self.peers@[j].ip),
                    port: self.peers@[j].port,
                }),
            decreases n - k,
        {
            let p = self.peers[k];
            v.push(BinaryPeer { addr: crate::byteorder::i32_to_bits(p.ip), port: p.port });
            k = k + 1;
        }
        TrackerResponse {
            complete: 0,
            incomplete: self.seeders as usize,
            interval: self.interval as usize,
            peers: Peers::Binary(v),
        }
    }
}

} // verus!
