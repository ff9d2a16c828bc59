use vstd::prelude::*;

use crate::util::{copy_range, range_eq};
use crate::{DecodeOutcome, SpecDecoded};

verus! {

/// Why a handshake was rejected.
#[derive(Debug, PartialEq, Eq, Structural)]
pub enum HandshakeError {
    /// The first byte was not 19, the length of the protocol name.
    WrongPrefix(u8),
    /// The 19 bytes after the prefix were not the protocol name.
    NoProtocolText,
}

/// The fixed 68-byte peer handshake codec.
pub struct HandshakeCodec;

/// A decoded handshake: the info hash and the peer id, 20 bytes each.
/// The protocol name and the 8 reserved bytes of the wire form are not
/// retained.
#[derive(Debug)]
pub struct Handshake {
    pub hash: Vec<u8>,
    pub peer_id: Vec<u8>,
}

/// Mathematical model of a handshake.
pub struct HandshakeModel {
    pub hash: Seq<u8>,
    pub peer_id: Seq<u8>,
}

impl View for Handshake {
    type V = HandshakeModel;

    open spec fn view(&self) -> HandshakeModel {
        HandshakeModel { hash: self.hash@, peer_id: self.peer_id@ }
    }
}

pub open spec fn handshake_wf(m: HandshakeModel) -> bool {
    m.hash.len() == 20 && m.peer_id.len() == 20
}

/// The 19 ASCII bytes of "BitTorrent protocol".
pub open spec fn spec_protocol_name() -> Seq<u8> {
    seq![
        66u8,
        105u8,
        116u8,
        84u8,
        111u8,
        114u8,
        114u8,
        101u8,
        110u8,
        116u8,
        32u8,
        112u8,
        114u8,
        111u8,
        116u8,
        111u8,
        99u8,
        111u8,
        108u8,
    ]
}

pub fn protocol_name() -> (r: Vec<u8>)
    ensures
        r@ == spec_protocol_name(),
{
    let r: Vec<u8> = vec![
        66u8,
        105u8,
        116u8,
        84u8,
        111u8,
        114u8,
        114u8,
        101u8,
        110u8,
        116u8,
        32u8,
        112u8,
        114u8,
        111u8,
        116u8,
        111u8,
        99u8,
        111u8,
        108u8,
    ];
    proof {
        assert(r@ =~= spec_protocol_name());
    }
    r
}

/// The 68-byte wire form of a handshake: length prefix 19, the protocol
/// name, 8 zeroed reserved bytes, the info hash, the peer id.
pub open spec fn spec_encode_handshake(m: HandshakeModel) -> Seq<u8> {
    seq![19u8] + spec_protocol_name() + seq![0u8, 0u8, 0u8, 0u8, 0u8, 0u8, 0u8, 0u8] + m.hash
        + m.peer_id
}

/// What one decode step yields on buffered bytes `s`: with fewer than 68
/// bytes, the missing count; then a rejection if the prefix byte is not 19 or
/// the protocol name mismatches; otherwise the handshake, 68 bytes consumed.
pub open spec fn spec_decode_handshake(s: Seq<u8>) -> SpecDecoded<HandshakeModel, HandshakeError> {
    if s.len() < 68 {
        SpecDecoded::Incomplete(68 - s.len())
    } else if s[0] != 19 {
        SpecDecoded::Invalid(HandshakeError::WrongPrefix(s[0]))
    } else if s.subrange(1, 20) != spec_protocol_name() {
        SpecDecoded::Invalid(HandshakeError::NoProtocolText)
    } else {
        SpecDecoded::Parsed(
            HandshakeModel { hash: s.subrange(28, 48), peer_id: s.subrange(48, 68) },
            68,
        )
    }
}

impl HandshakeCodec {
    /// Decodes one handshake from the front of `buf`, consuming 68 bytes on
    /// success and nothing otherwise.
    pub fn decode(buf: &Vec<u8>) -> (r: DecodeOutcome<Handshake, HandshakeError>)
        ensures
            crate::decoded_matches(r, spec_decode_handshake(buf@)),
    {
        if buf.len() < 68 {
            return DecodeOutcome::Incomplete(68 - buf.len());
        }
        let prefix = buf[0];
        if prefix != 19 {
            return DecodeOutcome::Invalid(HandshakeError::WrongPrefix(prefix));
        }
        let name = protocol_name();
        if !range_eq(buf, 1, &name) {
            proof {
                assert(buf@.subrange(1, 1 + spec_protocol_name().len() as int) =~= buf@.subrange(1, 20));
            }
            return DecodeOutcome::Invalid(HandshakeError::NoProtocolText);
        }
        proof {
            assert(buf@.subrange(1, 1 + spec_protocol_name().len() as int) =~= buf@.subrange(1, 20));
        }
        let hash = copy_range(buf, 28, 48);
        let peer_id = copy_range(buf, 48, 68);
        DecodeOutcome::Parsed(Handshake { hash, peer_id }, 68)
    }

    /// Encodes `h` into its 68-byte wire form.
    pub fn encode(h: &Handshake) -> (r: Vec<u8>)
        ensures
            r@ == spec_encode_handshake(h@),
            handshake_wf(h@) ==> r@.len() == 68,
    {
        let mut r: Vec<u8> = Vec::new();
        r.push(19);
        let mut name = protocol_name();
        r.append(&mut name);
        let mut i: usize = 0;
        while i < 8
            invariant
            // reserved bytes written so far

            0 <= i <= 8,
            r@ == seq![19u8] + spec_protocol_name() + Seq::new(i as nat, |j: int| 0u8),
            decreases 8 - i,
        {
            r.push(0);
            i = i + 1;
            proof {
                assert(r@ =~= seq![19u8] + spec_protocol_name() + Seq::new(i as nat, |j: int| 0u8));
            }
        }
        let mut hash = copy_range(&h.hash, 0, h.hash.len());
        r.append(&mut hash);
        let mut peer_id = copy_range(&h.peer_id, 0, h.peer_id.len());
        r.append(&mut peer_id);
        proof {
            assert(Seq::new(8nat, |j: int| 0u8) =~= seq![0u8, 0u8, 0u8, 0u8, 0u8, 0u8, 0u8, 0u8]);
            assert(h.hash@.subrange(0, h.hash@.len() as int) =~= h.hash@);
            assert(h.peer_id@.subrange(0, h.peer_id@.len() as int) =~= h.peer_id@);
            assert(r@ =~= spec_encode_handshake(h@));
        }
        r
    }
}

/// Law: decoding an encoded handshake gives the handshake back, consuming all
/// 68 bytes — the wire form is lossless in the hash and the peer id.
pub proof fn lemma_handshake_round_trip(m: HandshakeModel)
    requires
        handshake_wf(m),
    ensures
        spec_encode_handshake(m).len() == 68,
        spec_decode_handshake(spec_encode_handshake(m)) == SpecDecoded::<
            HandshakeModel,
            HandshakeError,
        >::Parsed(m, 68),
{
    let s = spec_encode_handshake(m);
    assert(s.len() == 68);
    assert(s[0] == 19);
    assert(s.subrange(1, 20) =~= spec_protocol_name());
    assert(s.subrange(28, 48) =~= m.hash);
    assert(s.subrange(48, 68) =~= m.peer_id);
    let d = spec_decode_handshake(s);
    match d {
        SpecDecoded::Parsed(dm, n) => {
            assert(dm == HandshakeModel { hash: m.hash, peer_id: m.peer_id });
            assert(dm == m);
        },
        _ => {
            assert(false);
        },
    }
}

} // verus!
