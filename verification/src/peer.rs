use vstd::prelude::*;

use crate::byteorder::{read_u32_be, u32_from_be, u32_to_be, write_u32_be};
use crate::util::copy_range;
use crate::{DecodeOutcome, SpecDecoded};

verus! {

/// One framed peer wire message.
#[derive(Debug, PartialEq, Eq)]
pub enum PeerMessage {
    KeepAlive,
    Choke,
    Unchoke,
    Interested,
    NotInterested,
    Have(u32),
    Bitfield(Vec<u8>),
    Request(u32, u32, u32),
    Piece(u32, u32, Vec<u8>),
    Cancel(u32, u32, u32),
}

/// Mathematical model of a peer wire message.
pub enum PeerMessageModel {
    KeepAlive,
    Choke,
    Unchoke,
    Interested,
    NotInterested,
    Have(u32),
    Bitfield(Seq<u8>),
    Request(u32, u32, u32),
    Piece(u32, u32, Seq<u8>),
    Cancel(u32, u32, u32),
}

impl View for PeerMessage {
    type V = PeerMessageModel;

    open spec fn view(&self) -> PeerMessageModel {
        match self {
            PeerMessage::KeepAlive => PeerMessageModel::KeepAlive,
            PeerMessage::Choke => PeerMessageModel::Choke,
            PeerMessage::Unchoke => PeerMessageModel::Unchoke,
            PeerMessage::Interested => PeerMessageModel::Interested,
            PeerMessage::NotInterested => PeerMessageModel::NotInterested,
            PeerMessage::Have(p) => PeerMessageModel::Have(*p),
            PeerMessage::Bitfield(b) => PeerMessageModel::Bitfield(b@),
            PeerMessage::Request(i, o, l) => PeerMessageModel::Request(*i, *o, *l),
            PeerMessage::Piece(i, o, blk) => PeerMessageModel::Piece(*i, *o, blk@),
            PeerMessage::Cancel(i, o, l) => PeerMessageModel::Cancel(*i, *o, *l),
        }
    }
}

/// Why a framed unit was rejected.
#[derive(Debug, PartialEq, Eq)]
pub enum PeerMessageError {
    /// The id byte is outside the known 0..=8 set; carries the offending byte.
    InvalidId(u8),
    /// A fixed-length message was declared with the wrong length; carries the
    /// id and the declared length.
    IncorrectLength(u8, u32),
}

/// The lengths of the variable parts fit the `u32` length prefix.
pub open spec fn msg_wf(m: PeerMessageModel) -> bool {
    match m {
        PeerMessageModel::Bitfield(b) => 1 + b.len() <= u32::MAX,
        PeerMessageModel::Piece(i, o, blk) => 9 + blk.len() <= u32::MAX,
        _ => true,
    }
}

/// The wire form of a message: a big-endian `u32` length prefix, then —
/// except for keep-alive, whose length is zero — the id byte and the body.
pub open spec fn spec_encode_msg(m: PeerMessageModel) -> Seq<u8> {
    match m {
        PeerMessageModel::KeepAlive => u32_to_be(0),
        PeerMessageModel::Choke => u32_to_be(1) + seq![0u8],
        PeerMessageModel::Unchoke => u32_to_be(1) + seq![1u8],
        PeerMessageModel::Interested => u32_to_be(1) + seq![2u8],
        PeerMessageModel::NotInterested => u32_to_be(1) + seq![3u8],
        PeerMessageModel::Have(p) => u32_to_be(5) + seq![4u8] + u32_to_be(p),
        PeerMessageModel::Bitfield(b) => u32_to_be((1 + b.len()) as u32) + seq![5u8] + b,
        PeerMessageModel::Request(i, o, l) => u32_to_be(13) + seq![6u8] + u32_to_be(i) + u32_to_be(
            o,
        ) + u32_to_be(l),
        PeerMessageModel::Piece(i, o, blk) => u32_to_be((9 + blk.len()) as u32) + seq![7u8]
            + u32_to_be(i) + u32_to_be(o) + blk,
        PeerMessageModel::Cancel(i, o, l) => u32_to_be(13) + seq![8u8] + u32_to_be(i) + u32_to_be(
            o,
        ) + u32_to_be(l),
    }
}

/// What one decode step yields on buffered bytes `s`.
///
/// With fewer than 4 bytes the length prefix is unknown: ask for the deficit.
/// A zero length is a keep-alive, 4 bytes consumed. Otherwise, until the full
/// frame of `4 + length` bytes is buffered, ask for exactly the deficit and
/// consume nothing. On a full frame, an unknown id byte or a fixed-length id
/// whose declared length differs from its required one is rejected; a valid
/// frame is consumed atomically, all `4 + length` bytes of it.
pub open spec fn spec_decode_msg(s: Seq<u8>) -> SpecDecoded<PeerMessageModel, PeerMessageError> {
    if s.len() < 4 {
        SpecDecoded::Incomplete(4 - s.len())
    } else {
        let len32 = u32_from_be(s.subrange(0, 4));
        let len = len32 as int;
        if len == 0 {
            SpecDecoded::Parsed(PeerMessageModel::KeepAlive, 4)
        } else if s.len() < 4 + len {
            SpecDecoded::Incomplete(4 + len - s.len())
        } else {
            let id = s[4];
            if id == 0 {
                if len == 1 {
                    SpecDecoded::Parsed(PeerMessageModel::Choke, 5)
                } else {
                    SpecDecoded::Invalid(PeerMessageError::IncorrectLength(0, len32))
                }
            } else if id == 1 {
                if len == 1 {
                    SpecDecoded::Parsed(PeerMessageModel::Unchoke, 5)
                } else {
                    SpecDecoded::Invalid(PeerMessageError::IncorrectLength(1, len32))
                }
            } else if id == 2 {
                if len == 1 {
                    SpecDecoded::Parsed(PeerMessageModel::Interested, 5)
                } else {
                    SpecDecoded::Invalid(PeerMessageError::IncorrectLength(2, len32))
                }
            } else if id == 3 {
                if len == 1 {
                    SpecDecoded::Parsed(PeerMessageModel::NotInterested, 5)
                } else {
                    SpecDecoded::Invalid(PeerMessageError::IncorrectLength(3, len32))
                }
            } else if id == 4 {
                if len == 5 {
                    SpecDecoded::Parsed(
                        PeerMessageModel::Have(u32_from_be(s.subrange(5, 9))),
                        9,
                    )
                } else {
                    SpecDecoded::Invalid(PeerMessageError::IncorrectLength(4, len32))
                }
            } else if id == 5 {
                SpecDecoded::Parsed(PeerMessageModel::Bitfield(s.subrange(5, 4 + len)), 4 + len)
            } else if id == 6 {
                if len == 13 {
                    SpecDecoded::Parsed(
                        PeerMessageModel::Request(
                            u32_from_be(s.subrange(5, 9)),
                            u32_from_be(s.subrange(9, 13)),
                            u32_from_be(s.subrange(13, 17)),
                        ),
                        17,
                    )
                } else {
                    SpecDecoded::Invalid(PeerMessageError::IncorrectLength(6, len32))
                }
            } else if id == 7 {
                if len >= 9 {
                    SpecDecoded::Parsed(
                        PeerMessageModel::Piece(
                            u32_from_be(s.subrange(5, 9)),
                            u32_from_be(s.subrange(9, 13)),
                            s.subrange(13, 4 + len),
                        ),
                        4 + len,
                    )
                } else {
                    SpecDecoded::Invalid(PeerMessageError::IncorrectLength(7, len32))
                }
            } else if id == 8 {
                if len == 13 {
                    SpecDecoded::Parsed(
                        PeerMessageModel::Cancel(
                            u32_from_be(s.subrange(5, 9)),
                            u32_from_be(s.subrange(9, 13)),
                            u32_from_be(s.subrange(13, 17)),
                        ),
                        17,
                    )
                } else {
                    SpecDecoded::Invalid(PeerMessageError::IncorrectLength(8, len32))
                }
            } else {
                SpecDecoded::Invalid(PeerMessageError::InvalidId(id))
            }
        }
    }
}

/// Per-connection session flags, defaulting to choked and not interested on
/// both sides. The codec itself never changes them: whichever component
/// processes decoded choke and interest messages does.
pub struct PeerCodec {
    pub am_choking: bool,
    pub am_interested: bool,
    pub peer_choking: bool,
    pub peer_interested: bool,
}

impl PeerCodec {
    pub fn new() -> (r: Self)
        ensures
            r.am_choking,
            !r.am_interested,
            r.peer_choking,
            !r.peer_interested,
    {
        Self { am_choking: true, am_interested: false, peer_choking: true, peer_interested: false }
    }

    /// Decodes one framed message from the front of `buf`, consuming the
    /// whole frame on success and nothing otherwise.
    pub fn decode(buf: &Vec<u8>) -> (r: DecodeOutcome<PeerMessage, PeerMessageError>)
        ensures
            crate::decoded_matches(r, spec_decode_msg(buf@)),
    {
        if buf.len() < 4 {
            return DecodeOutcome::Incomplete(4 - buf.len());
        }
        let len32 = read_u32_be(buf, 0);
        if len32 == 0 {
            return DecodeOutcome::Parsed(PeerMessage::KeepAlive, 4);
        }
        let have = buf.len() as u64;
        let want = 4u64 + (len32 as u64);
        if have < want {
            let deficit = (want - have) as usize;
            return DecodeOutcome::Incomplete(deficit);
        }
        let total = want as usize;
        let id = buf[4];
        match id {
            0 => {
                if len32 == 1 {
                    DecodeOutcome::Parsed(PeerMessage::Choke, 5)
                } else {
                    DecodeOutcome::Invalid(PeerMessageError::IncorrectLength(0, len32))
                }
            },
            1 => {
                if len32 == 1 {
                    DecodeOutcome::Parsed(PeerMessage::Unchoke, 5)
                } else {
                    DecodeOutcome::Invalid(PeerMessageError::IncorrectLength(1, len32))
                }
            },
            2 => {
                if len32 == 1 {
                    DecodeOutcome::Parsed(PeerMessage::Interested, 5)
                } else {
                    DecodeOutcome::Invalid(PeerMessageError::IncorrectLength(2, len32))
                }
            },
            3 => {
                if len32 == 1 {
                    DecodeOutcome::Parsed(PeerMessage::NotInterested, 5)
                } else {
                    DecodeOutcome::Invalid(PeerMessageError::IncorrectLength(3, len32))
                }
            },
            4 => {
                if len32 == 5 {
                    DecodeOutcome::Parsed(PeerMessage::Have(read_u32_be(buf, 5)), 9)
                } else {
                    DecodeOutcome::Invalid(PeerMessageError::IncorrectLength(4, len32))
                }
            },
            5 => {
                let bits = copy_range(buf, 5, total);
                DecodeOutcome::Parsed(PeerMessage::Bitfield(bits), total)
            },
            6 => {
                if len32 == 13 {
                    DecodeOutcome::Parsed(
                        PeerMessage::Request(
                            read_u32_be(buf, 5),
                            read_u32_be(buf, 9),
                            read_u32_be(buf, 13),
                        ),
                        17,
                    )
                } else {
                    DecodeOutcome::Invalid(PeerMessageError::IncorrectLength(6, len32))
                }
            },
            7 => {
                if len32 >= 9 {
                    let block = copy_range(buf, 13, total);
                    DecodeOutcome::Parsed(
                        PeerMessage::Piece(read_u32_be(buf, 5), read_u32_be(buf, 9), block),
                        total,
                    )
                } else {
                    DecodeOutcome::Invalid(PeerMessageError::IncorrectLength(7, len32))
                }
            },
            8 => {
                if len32 == 13 {
                    DecodeOutcome::Parsed(
                        PeerMessage::Cancel(
                            read_u32_be(buf, 5),
                            read_u32_be(buf, 9),
                            read_u32_be(buf, 13),
                        ),
                        17,
                    )
                } else {
                    DecodeOutcome::Invalid(PeerMessageError::IncorrectLength(8, len32))
                }
            },
            _ => DecodeOutcome::Invalid(PeerMessageError::InvalidId(id)),
        }
    }

    /// Encodes one message into its framed wire form, computing the length
    /// prefix from the payload's own size.
    pub fn encode(m: &PeerMessage) -> (r: Vec<u8>)
        requires
            msg_wf(m@),
        ensures
            r@ == spec_encode_msg(m@),
    {
        let mut r: Vec<u8> = Vec::new();
        match m {
            PeerMessage::KeepAlive => {
                write_u32_be(&mut r, 0);
            },
            PeerMessage::Choke => {
                write_u32_be(&mut r, 1);
                r.push(0);
            },
            PeerMessage::Unchoke => {
                write_u32_be(&mut r, 1);
                r.push(1);
            },
            PeerMessage::Interested => {
                write_u32_be(&mut r, 1);
                r.push(2);
            },
            PeerMessage::NotInterested => {
                write_u32_be(&mut r, 1);
                r.push(3);
            },
            PeerMessage::Have(p) => {
                write_u32_be(&mut r, 5);
                r.push(4);
                write_u32_be(&mut r, *p);
            },
            PeerMessage::Bitfield(bits) => {
                let len32 = (bits.len() + 1) as u32;
                write_u32_be(&mut r, len32);
                r.push(5);
                r.extend_from_slice(bits.as_slice());
            },
            PeerMessage::Request(i, o, l) => {
                write_u32_be(&mut r, 13);
                r.push(6);
                write_u32_be(&mut r, *i);
                write_u32_be(&mut r, *o);
                write_u32_be(&mut r, *l);
            },
            PeerMessage::Piece(i, o, block) => {
                let len32 = (block.len() + 9) as u32;
                write_u32_be(&mut r, len32);
                r.push(7);
                write_u32_be(&mut r, *i);
                write_u32_be(&mut r, *o);
                r.extend_from_slice(block.as_slice());
            },
            PeerMessage::Cancel(i, o, l) => {
                write_u32_be(&mut r, 13);
                r.push(8);
                write_u32_be(&mut r, *i);
                write_u32_be(&mut r, *o);
                write_u32_be(&mut r, *l);
            },
        }
        proof {
            assert(r@ =~= spec_encode_msg(m@));
        }
        r
    }
}

/// Law: decoding an encoded frame gives the message back and consumes the
/// whole frame — every variant round-trips, zero-length bitfields and blocks
/// included.
pub proof fn lemma_msg_round_trip(m: PeerMessageModel)
    requires
        msg_wf(m),
    ensures
        spec_decode_msg(spec_encode_msg(m)) == SpecDecoded::<
            PeerMessageModel,
            PeerMessageError,
        >::Parsed(m, spec_encode_msg(m).len() as int),
{
    let s = spec_encode_msg(m);
    match m {
        PeerMessageModel::KeepAlive => {
            crate::byteorder::lemma_u32_be_roundtrip(0);
            assert(s.subrange(0, 4) =~= u32_to_be(0));
        },
        PeerMessageModel::Choke => {
            crate::byteorder::lemma_u32_be_roundtrip(1);
            assert(s.subrange(0, 4) =~= u32_to_be(1));
            assert(s[4] == 0);
        },
        PeerMessageModel::Unchoke => {
            crate::byteorder::lemma_u32_be_roundtrip(1);
            assert(s.subrange(0, 4) =~= u32_to_be(1));
            assert(s[4] == 1);
        },
        PeerMessageModel::Interested => {
            crate::byteorder::lemma_u32_be_roundtrip(1);
            assert(s.subrange(0, 4) =~= u32_to_be(1));
            assert(s[4] == 2);
        },
        PeerMessageModel::NotInterested => {
            crate::byteorder::lemma_u32_be_roundtrip(1);
            assert(s.subrange(0, 4) =~= u32_to_be(1));
            assert(s[4] == 3);
        },
        PeerMessageModel::Have(p) => {
            crate::byteorder::lemma_u32_be_roundtrip(5);
            crate::byteorder::lemma_u32_be_roundtrip(p);
            assert(s.subrange(0, 4) =~= u32_to_be(5));
            assert(s[4] == 4);
            assert(s.subrange(5, 9) =~= u32_to_be(p));
        },
        PeerMessageModel::Bitfield(b) => {
            let len32 = (1 + b.len()) as u32;
            crate::byteorder::lemma_u32_be_roundtrip(len32);
            assert(s.subrange(0, 4) =~= u32_to_be(len32));
            assert(s[4] == 5);
            assert(s.subrange(5, 4 + len32 as int) =~= b);
        },
        PeerMessageModel::Request(i, o, l) => {
            crate::byteorder::lemma_u32_be_roundtrip(13);
            crate::byteorder::lemma_u32_be_roundtrip(i);
            crate::byteorder::lemma_u32_be_roundtrip(o);
            crate::byteorder::lemma_u32_be_roundtrip(l);
            assert(s.subrange(0, 4) =~= u32_to_be(13));
            assert(s[4] == 6);
            assert(s.subrange(5, 9) =~= u32_to_be(i));
            assert(s.subrange(9, 13) =~= u32_to_be(o));
            assert(s.subrange(13, 17) =~= u32_to_be(l));
        },
        PeerMessageModel::Piece(i, o, blk) => {
            let len32 = (9 + blk.len()) as u32;
            crate::byteorder::lemma_u32_be_roundtrip(len32);
            crate::byteorder::lemma_u32_be_roundtrip(i);
            crate::byteorder::lemma_u32_be_roundtrip(o);
            assert(s.subrange(0, 4) =~= u32_to_be(len32));
            assert(s[4] == 7);
            assert(s.subrange(5, 9) =~= u32_to_be(i));
            assert(s.subrange(9, 13) =~= u32_to_be(o));
            assert(s.subrange(13, 4 + len32 as int) =~= blk);
        },
        PeerMessageModel::Cancel(i, o, l) => {
            crate::byteorder::lemma_u32_be_roundtrip(13);
            crate::byteorder::lemma_u32_be_roundtrip(i);
            crate::byteorder::lemma_u32_be_roundtrip(o);
            crate::byteorder::lemma_u32_be_roundtrip(l);
            assert(s.subrange(0, 4) =~= u32_to_be(13));
            assert(s[4] == 8);
            assert(s.subrange(5, 9) =~= u32_to_be(i));
            assert(s.subrange(9, 13) =~= u32_to_be(o));
            assert(s.subrange(13, 17) =~= u32_to_be(l));
        },
    }
}

/// Law: feeding a valid frame one byte at a time never yields a message and
/// never errors before the final byte — every strict prefix of a complete
/// frame asks for more data.
pub proof fn lemma_partial_prefix(s: Seq<u8>, i: int)
    requires
        spec_decode_msg(s) matches SpecDecoded::Parsed(m, n) && n == s.len(),
        0 <= i < s.len(),
    ensures
        spec_decode_msg(s.take(i)) is Incomplete,
{
    let t = s.take(i);
    if i < 4 {
        assert(t.len() < 4);
    } else {
        assert(t.subrange(0, 4) =~= s.subrange(0, 4));
        let len = u32_from_be(s.subrange(0, 4)) as int;
        if len == 0 {
            assert(s.len() == 4);
            assert(false);
        } else {
            assert(s.len() == 4 + len);
            assert(t.len() < 4 + len);
        }
    }
}

} // verus!
