use vstd::prelude::*;

pub mod bencode;
pub mod byteorder;
pub mod handshake;
pub mod metainfo;
pub mod peer;
pub mod tracker;
pub mod util;

verus! {

/// Outcome of one step of an incremental decoder.
///
/// `Parsed(value, consumed)` carries the decoded value and how many input
/// bytes it covered; `Incomplete(needed)` asks the caller for at least
/// `needed` more bytes and is not an error; `Invalid(err)` reports a
/// malformed input.
#[derive(Debug, PartialEq, Eq)]
pub enum DecodeOutcome<T, E> {
    Parsed(T, usize),
    Incomplete(usize),
    Invalid(E),
}

/// Spec-level counterpart of `DecodeOutcome`, over the mathematical model of
/// the decoded value.
pub enum SpecDecoded<M, E> {
    Parsed(M, int),
    Incomplete(int),
    Invalid(E),
}

/// Whether the executable decode outcome `r` denotes the spec-level outcome
/// `s`, the decoded value compared through its view.
pub open spec fn decoded_matches<T: View, E>(
    r: DecodeOutcome<T, E>,
    s: SpecDecoded<T::V, E>,
) -> bool {
    match r {
        DecodeOutcome::Parsed(v, n) => s matches SpecDecoded::Parsed(m, k) && v@ == m && n as int
            == k,
        DecodeOutcome::Incomplete(n) => s matches SpecDecoded::Incomplete(k) && n as int == k,
        DecodeOutcome::Invalid(e) => s matches SpecDecoded::Invalid(f) && e == f,
    }
}

} // verus!
