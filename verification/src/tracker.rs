use vstd::prelude::*;

use crate::bencode::Bencode;
use crate::byteorder::{u16_from_be, u32_from_be};
use crate::metainfo::{dict_get, dict_lookup};
use crate::util::{ascii_string, dec_text, push_dec_u64};

pub mod udp;

verus! {

/// How a tracker exchange failed. Format and protocol-semantic failures are
/// distinct variants, never collapsed into a transport error, so that callers
/// can branch on them.
#[derive(Debug, PartialEq, Eq)]
pub enum TrackerError {
    /// The HTTP announce request could not be executed; carries the URL text.
    AnnounceRequestFailed(String),
    /// The HTTP announce request could not be built.
    BuildingRequestFailed,
    /// The tracker answered without a body.
    NoBodyInTrackerResponse,
    /// The tracker's body was not a well-formed response.
    InvalidBodyInTrackerResponse,
    /// The tracker rejected the announce; carries the decoded failure reason.
    TrackerReturnedError(String),
    /// The announce URL has a scheme other than http, https or udp.
    UnknownTrackerScheme(String),
    /// The UDP socket could not be bound.
    UdpBinding,
    /// The UDP socket could not be connected.
    UdpConnecting,
    /// Sending a UDP datagram failed.
    SendingUdpBytes,
    /// Receiving a UDP datagram failed.
    ReceivingUdpBytes,
    /// A UDP response carried a transaction id other than the request's:
    /// received, then expected.
    ReceivedIncorrectTransactionId(i32, i32),
}

/// One announce result, normalized over the HTTP and UDP forms.
#[derive(Debug, PartialEq, Eq)]
pub struct TrackerResponse {
    pub complete: usize,
    pub incomplete: usize,
    pub interval: usize,
    pub peers: Peers,
}

/// The two wire forms of the peer list.
#[derive(Debug, PartialEq, Eq)]
pub enum Peers {
    Dictionary(Vec<DictionaryPeer>),
    Binary(Vec<BinaryPeer>),
}

/// A peer given as a dictionary: id, ip or hostname, port.
#[derive(Debug, PartialEq, Eq)]
pub struct DictionaryPeer {
    pub peer_id: Vec<u8>,
    pub ip: PeerIp,
    pub port: u16,
}

/// A peer address as the dictionary form gives it: either a literal IPv4
/// address or a name to resolve.
#[derive(Debug, PartialEq, Eq)]
pub enum PeerIp {
    IpAddr(u8, u8, u8, u8),
    Dns(String),
}

/// A peer from the compact form: an IPv4 address kept as one 32-bit
/// big-endian value, and a port.
#[derive(Debug, PartialEq, Eq, Structural, Clone, Copy)]
pub struct BinaryPeer {
    pub addr: u32,
    pub port: u16,
}

// ---------------------------------------------------------------------------
// Compact peer lists.
// ---------------------------------------------------------------------------

/// The peer packed at entry `k` of a compact peer list.
pub open spec fn spec_compact_peer(s: Seq<u8>, k: int) -> BinaryPeer {
    BinaryPeer {
        addr: u32_from_be(s.subrange(6 * k, 6 * k + 4)),
        port: u16_from_be(s.subrange(6 * k + 4, 6 * k + 6)),
    }
}

/// Decodes a compact peer list: 6 bytes per peer, 4 of IPv4 address and 2 of
/// port, all big-endian. A byte length that is not a multiple of 6 is
/// rejected.
pub fn decode_compact_peers(bytes: &Vec<u8>) -> (r: Result<Vec<BinaryPeer>, TrackerError>)
    ensures
        bytes@.len() % 6 == 0 ==> (r matches Ok(v) && v@.len() == bytes@.len() / 6 && (forall|
            k: int,
        |
            0 <= k < v@.len() ==> v@[k] == spec_compact_peer(bytes@, k))),
        bytes@.len() % 6 != 0 ==> r == Err::<
            Vec<BinaryPeer>,
            TrackerError,
        >(TrackerError::InvalidBodyInTrackerResponse),
{
    if bytes.len() % 6 != 0 {
        return Err(TrackerError::InvalidBodyInTrackerResponse);
    }
    let count = bytes.len() / 6;
    proof {
        assert(6 * (bytes@.len() / 6) == bytes@.len());
    }
    let mut v: Vec<BinaryPeer> = Vec::new();
    let mut k: usize = 0;
    while k < count
        invariant
            0 <= k <= count,
            count == bytes@.len() / 6,
            6 * count == bytes@.len(),
            bytes@.len() <= usize::MAX,
            v@.len() == k,
            forall|j: int| 0 <= j < k ==> v@[j] == spec_compact_peer(bytes@, j),
        decreases count - k,
    {
        let addr = crate::byteorder::read_u32_be(bytes, 6 * k);
        let port = crate::byteorder::read_u16_be(bytes, 6 * k + 4);
        v.push(BinaryPeer { addr, port });
        k = k + 1;
    }
    Ok(v)
}

// ---------------------------------------------------------------------------
// Percent-encoding of raw bytes for the announce query string.
// ---------------------------------------------------------------------------

/// Whether a byte passes through percent-encoding unescaped:
/// `0-9 A-Z a-z . - _ ~`.
pub open spec fn is_unreserved(b: u8) -> bool {
    (48 <= b <= 57) || (65 <= b <= 90) || (97 <= b <= 122) || b == 46 || b == 45 || b == 95 || b
        == 126
}

/// The uppercase hexadecimal digit of a value below 16.
pub open spec fn hex_upper(n: u8) -> u8
    recommends
        n < 16,
{
    if n < 10 {
        (48 + n) as u8
    } else {
        (55 + n) as u8
    }
}

/// How one byte percent-encodes: unreserved bytes pass through, a space
/// becomes '+', anything else becomes '%' and two uppercase hex digits.
pub open spec fn percent_byte(b: u8) -> Seq<u8> {
    if is_unreserved(b) {
        seq![b]
    } else if b == 32 {
        seq![43u8]
    } else {
        seq![37u8, hex_upper(b / 16), hex_upper(b % 16)]
    }
}

/// The percent-encoding of a byte string.
pub open spec fn spec_url_encode(s: Seq<u8>) -> Seq<u8>
    decreases s.len(),
{
    if s.len() == 0 {
        Seq::empty()
    } else {
        spec_url_encode(s.drop_last()) + percent_byte(s.last())
    }
}

/// Every byte of a sequence is ASCII.
pub open spec fn all_ascii(s: Seq<u8>) -> bool {
    forall|i: int| 0 <= i < s.len() ==> s[i] < 0x80
}

pub proof fn lemma_ascii_concat(a: Seq<u8>, b: Seq<u8>)
    requires
        all_ascii(a),
        all_ascii(b),
    ensures
        all_ascii(a + b),
{
    assert forall|i: int| 0 <= i < (a + b).len() implies (a + b)[i] < 0x80 by {
        if i < a.len() {
            assert((a + b)[i] == a[i]);
        } else {
            assert((a + b)[i] == b[i - a.len()]);
        }
    }
}

pub proof fn lemma_dec_text_ascii(n: int)
    ensures
        all_ascii(dec_text(n)),
    decreases n,
{
    if n > 9 {
        lemma_dec_text_ascii(n / 10);
        lemma_ascii_concat(dec_text(n / 10), seq![(48 + n % 10) as u8]);
    }
}

pub proof fn lemma_url_encode_ascii(s: Seq<u8>)
    ensures
        all_ascii(spec_url_encode(s)),
    decreases s.len(),
{
    if s.len() > 0 {
        lemma_url_encode_ascii(s.drop_last());
        lemma_ascii_concat(spec_url_encode(s.drop_last()), percent_byte(s.last()));
    }
}

/// Appends the percent-encoding of `content`.
fn push_url_encode(out: &mut Vec<u8>, content: &Vec<u8>)
    ensures
        final(out)@ == old(out)@ + spec_url_encode(content@),
{
    let n = content.len();
    let mut i: usize = 0;
    while i < n
        invariant
            0 <= i <= n,
            n == content@.len(),
            out@ == old(out)@ + spec_url_encode(content@.take(i as int)),
        decreases n - i,
    {
        let b = content[i];
        if (48 <= b && b <= 57) || (65 <= b && b <= 90) || (97 <= b && b <= 122) || b == 46 || b
            == 45 || b == 95 || b == 126 {
            out.push(b);
        } else if b == 32 {
            out.push(43);
        } else {
            out.push(37);
            let hi = b / 16;
            let lo = b % 16;
            out.push(if hi < 10 { 48 + hi } else { 55 + hi });
            out.push(if lo < 10 { 48 + lo } else { 55 + lo });
        }
        i = i + 1;
        proof {
            assert(content@.take(i as int).drop_last() =~= content@.take(i - 1));
            assert(content@.take(i as int).last() == content@[i - 1]);
            assert(out@ =~= old(out)@ + spec_url_encode(content@.take(i as int)));
        }
    }
    proof {
        assert(content@.take(n as int) =~= content@);
    }
}

/// Percent-encodes raw bytes into query-string text, under the raw-byte rule:
/// unreserved bytes pass through, a space becomes '+', every other byte
/// becomes '%' and two uppercase hex digits.
pub fn url_encode_bytes(content: &Vec<u8>) -> (r: String)
    ensures
        r@ == spec_url_encode(content@).map_values(|b: u8| b as char),
{
    let mut out: Vec<u8> = Vec::new();
    push_url_encode(&mut out, content);
    proof {
        lemma_url_encode_ascii(content@);
    }
    ascii_string(out)
}

// ---------------------------------------------------------------------------
// The announce query string.
// ---------------------------------------------------------------------------

pub open spec fn query_lit_peer_id() -> Seq<u8> {
    seq![112u8, 101u8, 101u8, 114u8, 95u8, 105u8, 100u8, 61u8]
}

pub open spec fn query_lit_port() -> Seq<u8> {
    seq![38u8, 112u8, 111u8, 114u8, 116u8, 61u8]
}

pub open spec fn query_lit_fixed() -> Seq<u8> {
    seq![
        38u8,
        117u8,
        112u8,
        108u8,
        111u8,
        97u8,
        100u8,
        101u8,
        100u8,
        61u8,
        48u8,
        38u8,
        100u8,
        111u8,
        119u8,
        110u8,
        108u8,
        111u8,
        97u8,
        100u8,
        101u8,
        100u8,
        61u8,
        48u8,
        38u8,
        99u8,
        111u8,
        109u8,
        112u8,
        97u8,
        99u8,
        116u8,
        61u8,
        49u8,
        38u8,
        108u8,
        101u8,
        102u8,
        116u8,
        61u8,
    ]
}

pub open spec fn query_lit_info_hash() -> Seq<u8> {
    seq![38u8, 105u8, 110u8, 102u8, 111u8, 95u8, 104u8, 97u8, 115u8, 104u8, 61u8]
}

/// The full announce query:
/// `peer_id=<pe>&port=<port>&uploaded=0&downloaded=0&compact=1&left=<left>&info_hash=<pe>`,
/// the two 20-byte tokens percent-encoded under the raw-byte rule.
pub open spec fn spec_announce_query(
    info_hash: Seq<u8>,
    peer_id: Seq<u8>,
    port: u16,
    left: u64,
) -> Seq<u8> {
    query_lit_peer_id() + spec_url_encode(peer_id) + query_lit_port() + dec_text(port as int)
        + query_lit_fixed() + dec_text(left as int) + query_lit_info_hash() + spec_url_encode(
        info_hash,
    )
}

/// Builds the announce query string for one HTTP announce: identity, port,
/// zero progress counters, compact mode, and the info hash appended last as
/// raw percent-encoded bytes.
pub fn build_announce_query(info_hash: &Vec<u8>, peer_id: &Vec<u8>, port: u16, left: u64) -> (r:
    String)
    ensures
        r@ == spec_announce_query(info_hash@, peer_id@, port, left).map_values(|b: u8| b as char),
{
    let mut out: Vec<u8> = Vec::new();
    let mut lit1: Vec<u8> = vec![112u8, 101u8, 101u8, 114u8, 95u8, 105u8, 100u8, 61u8];
    out.append(&mut lit1);
    proof {
        assert(out@ =~= query_lit_peer_id());
    }
    push_url_encode(&mut out, peer_id);
    let mut lit2: Vec<u8> = vec![38u8, 112u8, 111u8, 114u8, 116u8, 61u8];
    proof {
        assert(lit2@ =~= query_lit_port());
    }
    out.append(&mut lit2);
    push_dec_u64(&mut out, port as u64);
    let ghost mid = out@;
    let mut lit3a: Vec<u8> = vec![
        38u8,
        117u8,
        112u8,
        108u8,
        111u8,
        97u8,
        100u8,
        101u8,
        100u8,
        61u8,
        48u8,
        38u8,
        100u8,
        111u8,
        119u8,
        110u8,
        108u8,
        111u8,
        97u8,
        100u8,
    ];
    out.append(&mut lit3a);
    let mut lit3b: Vec<u8> = vec![
        101u8,
        100u8,
        61u8,
        48u8,
        38u8,
        99u8,
        111u8,
        109u8,
        112u8,
        97u8,
        99u8,
        116u8,
        61u8,
        49u8,
        38u8,
        108u8,
        101u8,
        102u8,
        116u8,
        61u8,
    ];
    out.append(&mut lit3b);
    proof {
        assert(out@ =~= mid + query_lit_fixed());
    }
    push_dec_u64(&mut out, left);
    let mut lit4: Vec<u8> = vec![
        38u8,
        105u8,
        110u8,
        102u8,
        111u8,
        95u8,
        104u8,
        97u8,
        115u8,
        104u8,
        61u8,
    ];
    proof {
        assert(lit4@ =~= query_lit_info_hash());
    }
    out.append(&mut lit4);
    push_url_encode(&mut out, info_hash);
    proof {
        assert(out@ =~= spec_announce_query(info_hash@, peer_id@, port, left));
        lemma_url_encode_ascii(peer_id@);
        lemma_url_encode_ascii(info_hash@);
        lemma_dec_text_ascii(port as int);
        lemma_dec_text_ascii(left as int);
        assert(all_ascii(query_lit_peer_id()));
        assert(all_ascii(query_lit_port()));
        assert(all_ascii(query_lit_fixed()));
        assert(all_ascii(query_lit_info_hash()));
        lemma_ascii_concat(query_lit_peer_id(), spec_url_encode(peer_id@));
        lemma_ascii_concat(
            query_lit_peer_id() + spec_url_encode(peer_id@),
            query_lit_port(),
        );
        lemma_ascii_concat(
            query_lit_peer_id() + spec_url_encode(peer_id@) + query_lit_port(),
            dec_text(port as int),
        );
        lemma_ascii_concat(
            query_lit_peer_id() + spec_url_encode(peer_id@) + query_lit_port() + dec_text(
                port as int,
            ),
            query_lit_fixed(),
        );
        lemma_ascii_concat(
            query_lit_peer_id() + spec_url_encode(peer_id@) + query_lit_port() + dec_text(
                port as int,
            ) + query_lit_fixed(),
            dec_text(left as int),
        );
        lemma_ascii_concat(
            query_lit_peer_id() + spec_url_encode(peer_id@) + query_lit_port() + dec_text(
                port as int,
            ) + query_lit_fixed() + dec_text(left as int),
            query_lit_info_hash(),
        );
        lemma_ascii_concat(
            query_lit_peer_id() + spec_url_encode(peer_id@) + query_lit_port() + dec_text(
                port as int,
            ) + query_lit_fixed() + dec_text(left as int) + query_lit_info_hash(),
            spec_url_encode(info_hash@),
        );
    }
    ascii_string(out)
}

// ---------------------------------------------------------------------------
// The bencoded announce response.
// ---------------------------------------------------------------------------

pub open spec fn key_failure_reason() -> Seq<u8> {
    seq![
        102u8,
        97u8,
        105u8,
        108u8,
        117u8,
        114u8,
        101u8,
        32u8,
        114u8,
        101u8,
        97u8,
        115u8,
        111u8,
        110u8,
    ]
}

pub open spec fn key_complete() -> Seq<u8> {
    seq![99u8, 111u8, 109u8, 112u8, 108u8, 101u8, 116u8, 101u8]
}

pub open spec fn key_incomplete() -> Seq<u8> {
    seq![105u8, 110u8, 99u8, 111u8, 109u8, 112u8, 108u8, 101u8, 116u8, 101u8]
}

pub open spec fn key_interval() -> Seq<u8> {
    seq![105u8, 110u8, 116u8, 101u8, 114u8, 118u8, 97u8, 108u8]
}

pub open spec fn key_peers() -> Seq<u8> {
    seq![112u8, 101u8, 101u8, 114u8, 115u8]
}

pub open spec fn key_peer_id() -> Seq<u8> {
    seq![112u8, 101u8, 101u8, 114u8, 32u8, 105u8, 100u8]
}

pub open spec fn key_ip() -> Seq<u8> {
    seq![105u8, 112u8]
}

pub open spec fn key_port() -> Seq<u8> {
    seq![112u8, 111u8, 114u8, 116u8]
}

fn key_failure_reason_vec() -> (r: Vec<u8>)
    ensures
        r@ == key_failure_reason(),
{
    let r: Vec<u8> = vec![
        102u8,
        97u8,
        105u8,
        108u8,
        117u8,
        114u8,
        101u8,
        32u8,
        114u8,
        101u8,
        97u8,
        115u8,
        111u8,
        110u8,
    ];
    proof {
        assert(r@ =~= key_failure_reason());
    }
    r
}

fn key_complete_vec() -> (r: Vec<u8>)
    ensures
        r@ == key_complete(),
{
    let r: Vec<u8> = vec![99u8, 111u8, 109u8, 112u8, 108u8, 101u8, 116u8, 101u8];
    proof {
        assert(r@ =~= key_complete());
    }
    r
}

fn key_incomplete_vec() -> (r: Vec<u8>)
    ensures
        r@ == key_incomplete(),
{
    let r: Vec<u8> = vec![105u8, 110u8, 99u8, 111u8, 109u8, 112u8, 108u8, 101u8, 116u8, 101u8];
    proof {
        assert(r@ =~= key_incomplete());
    }
    r
}

fn key_interval_vec() -> (r: Vec<u8>)
    ensures
        r@ == key_interval(),
{
    let r: Vec<u8> = vec![105u8, 110u8, 116u8, 101u8, 114u8, 118u8, 97u8, 108u8];
    proof {
        assert(r@ =~= key_interval());
    }
    r
}

fn key_peers_vec() -> (r: Vec<u8>)
    ensures
        r@ == key_peers(),
{
    let r: Vec<u8> = vec![112u8, 101u8, 101u8, 114u8, 115u8];
    proof {
        assert(r@ =~= key_peers());
    }
    r
}

fn key_peer_id_vec() -> (r: Vec<u8>)
    ensures
        r@ == key_peer_id(),
{
    let r: Vec<u8> = vec![112u8, 101u8, 101u8, 114u8, 32u8, 105u8, 100u8];
    proof {
        assert(r@ =~= key_peer_id());
    }
    r
}

fn key_ip_vec() -> (r: Vec<u8>)
    ensures
        r@ == key_ip(),
{
    let r: Vec<u8> = vec![105u8, 112u8];
    proof {
        assert(r@ =~= key_ip());
    }
    r
}

fn key_port_vec() -> (r: Vec<u8>)
    ensures
        r@ == key_port(),
{
    let r: Vec<u8> = vec![112u8, 111u8, 114u8, 116u8];
    proof {
        assert(r@ =~= key_port());
    }
    r
}

/// The dotted-quad text of an IPv4 address, in canonical decimal.
pub open spec fn ipv4_text(a: u8, b: u8, c: u8, d: u8) -> Seq<u8> {
    dec_text(a as int) + seq![46u8] + dec_text(b as int) + seq![46u8] + dec_text(c as int)
        + seq![46u8] + dec_text(d as int)
}

/// Where the four groups of a dotted-quad text lie.
pub proof fn lemma_ipv4_layout(s: Seq<u8>, a: u8, b: u8, c: u8, d: u8)
    requires
        s == ipv4_text(a, b, c, d),
    ensures
        ({
            let ta = dec_text(a as int);
            let tb = dec_text(b as int);
            let tc = dec_text(c as int);
            let td = dec_text(d as int);
            let e1 = ta.len() as int;
            let e2 = e1 + 1 + tb.len();
            let e3 = e2 + 1 + tc.len();
            let e4 = e3 + 1 + td.len();
            &&& s.len() == e4
            &&& ta == s.subrange(0, e1)
            &&& e1 < s.len() && s[e1] == 46
            &&& tb == s.subrange(e1 + 1, e2)
            &&& e2 < s.len() && s[e2] == 46
            &&& tc == s.subrange(e2 + 1, e3)
            &&& e3 < s.len() && s[e3] == 46
            &&& td == s.subrange(e3 + 1, e4)
        }),
{
    let ta = dec_text(a as int);
    let tb = dec_text(b as int);
    let tc = dec_text(c as int);
    let td = dec_text(d as int);
    crate::bencode::lemma_dec_text_digits(a as int);
    crate::bencode::lemma_dec_text_digits(b as int);
    crate::bencode::lemma_dec_text_digits(c as int);
    crate::bencode::lemma_dec_text_digits(d as int);
    let e1 = ta.len() as int;
    let e2 = e1 + 1 + tb.len();
    let e3 = e2 + 1 + tc.len();
    let e4 = e3 + 1 + td.len();
    assert(ta =~= s.subrange(0, e1)) by {
        assert forall|i: int| 0 <= i < ta.len() implies #[trigger] ta[i] == s.subrange(0, e1)[i] by {
            assert(s[i] == ta[i]);
        }
    }
    assert(tb =~= s.subrange(e1 + 1, e2)) by {
        assert forall|i: int| 0 <= i < tb.len() implies #[trigger] tb[i] == s.subrange(
            e1 + 1,
            e2,
        )[i] by {
            assert(s[e1 + 1 + i] == tb[i]);
        }
    }
    assert(tc =~= s.subrange(e2 + 1, e3)) by {
        assert forall|i: int| 0 <= i < tc.len() implies #[trigger] tc[i] == s.subrange(
            e2 + 1,
            e3,
        )[i] by {
            assert(s[e2 + 1 + i] == tc[i]);
        }
    }
    assert(td =~= s.subrange(e3 + 1, e4)) by {
        assert forall|i: int| 0 <= i < td.len() implies #[trigger] td[i] == s.subrange(
            e3 + 1,
            e4,
        )[i] by {
            assert(s[e3 + 1 + i] == td[i]);
        }
    }
}

/// Law: dotted-quad texts name addresses uniquely — equal canonical texts
/// mean equal quads. With `peer_ip_models`, a peer whose ip text is some
/// quad's canonical text is classified as exactly that address.
pub proof fn lemma_ipv4_text_injective(
    a1: u8,
    b1: u8,
    c1: u8,
    d1: u8,
    a2: u8,
    b2: u8,
    c2: u8,
    d2: u8,
)
    requires
        ipv4_text(a1, b1, c1, d1) == ipv4_text(a2, b2, c2, d2),
    ensures
        a1 == a2 && b1 == b2 && c1 == c2 && d1 == d2,
{
    let s = ipv4_text(a1, b1, c1, d1);
    lemma_ipv4_layout(s, a1, b1, c1, d1);
    lemma_ipv4_layout(s, a2, b2, c2, d2);
    let e1a = dec_text(a1 as int).len() as int;
    let e1b = dec_text(a2 as int).len() as int;
    crate::bencode::lemma_dec_text_unique(s, 0, a1 as int, e1a, a2 as int, e1b);
    let e2a = e1a + 1 + dec_text(b1 as int).len() as int;
    let e2b = e1b + 1 + dec_text(b2 as int).len() as int;
    crate::bencode::lemma_dec_text_unique(s, e1a + 1, b1 as int, e2a, b2 as int, e2b);
    let e3a = e2a + 1 + dec_text(c1 as int).len() as int;
    let e3b = e2b + 1 + dec_text(c2 as int).len() as int;
    crate::bencode::lemma_dec_text_unique(s, e2a + 1, c1 as int, e3a, c2 as int, e3b);
    let e4a = e3a + 1 + dec_text(d1 as int).len() as int;
    let e4b = e3b + 1 + dec_text(d2 as int).len() as int;
    crate::bencode::lemma_dec_text_unique(s, e3a + 1, d1 as int, e4a, d2 as int, e4b);
}

/// Reads a dotted-quad IPv4 address out of its text: four canonical decimal
/// groups up to 255, '.'-separated, spanning the whole buffer. On success the
/// buffer is exactly the canonical text of the returned quad; on `None`, the
/// buffer is no address's canonical text.
#[verifier::rlimit(100)]
pub fn parse_ipv4(s: &Vec<u8>) -> (r: Option<(u8, u8, u8, u8)>)
    ensures
        r matches Some(q) ==> s@ == ipv4_text(q.0, q.1, q.2, q.3),
        r is None ==> forall|a: u8, b: u8, c: u8, d: u8| s@ != ipv4_text(a, b, c, d),
{
    let (a, e1) = match crate::bencode::parse_digits(s, 0) {
        Ok(x) => x,
        Err(_) => {
            proof {
                assert forall|qa: u8, qb: u8, qc: u8, qd: u8| s@ != ipv4_text(qa, qb, qc, qd) by {
                    if s@ == ipv4_text(qa, qb, qc, qd) {
                        lemma_ipv4_layout(s@, qa, qb, qc, qd);
                        let h1 = dec_text(qa as int).len() as int;
                        let a64 = qa as u64;
                        assert(dec_text(a64 as int) == s@.subrange(0, h1));
                        assert(crate::bencode::digit_boundary(s@, h1));
                        assert(false);
                    }
                }
            }
            return Option::None;
        },
    };
    if a > 255 || e1 == s.len() || s[e1] != 46 {
        proof {
            assert forall|qa: u8, qb: u8, qc: u8, qd: u8| s@ != ipv4_text(qa, qb, qc, qd) by {
                if s@ == ipv4_text(qa, qb, qc, qd) {
                    lemma_ipv4_layout(s@, qa, qb, qc, qd);
                    let h1 = dec_text(qa as int).len() as int;
                    crate::bencode::lemma_dec_text_unique(
                        s@,
                        0,
                        a as int,
                        e1 as int,
                        qa as int,
                        h1,
                    );
                    assert(false);
                }
            }
        }
        return Option::None;
    }
    let (b, e2) = match crate::bencode::parse_digits(s, e1 + 1) {
        Ok(x) => x,
        Err(_) => {
            proof {
                assert forall|qa: u8, qb: u8, qc: u8, qd: u8| s@ != ipv4_text(qa, qb, qc, qd) by {
                    if s@ == ipv4_text(qa, qb, qc, qd) {
                        lemma_ipv4_layout(s@, qa, qb, qc, qd);
                        let h1 = dec_text(qa as int).len() as int;
                        crate::bencode::lemma_dec_text_unique(
                            s@,
                            0,
                            a as int,
                            e1 as int,
                            qa as int,
                            h1,
                        );
                        let h2 = h1 + 1 + dec_text(qb as int).len() as int;
                        let b64 = qb as u64;
                        assert(dec_text(b64 as int) == s@.subrange(e1 + 1, h2));
                        assert(crate::bencode::digit_boundary(s@, h2));
                        assert(false);
                    }
                }
            }
            return Option::None;
        },
    };
    if b > 255 || e2 == s.len() || s[e2] != 46 {
        proof {
            assert forall|qa: u8, qb: u8, qc: u8, qd: u8| s@ != ipv4_text(qa, qb, qc, qd) by {
                if s@ == ipv4_text(qa, qb, qc, qd) {
                    lemma_ipv4_layout(s@, qa, qb, qc, qd);
                    let h1 = dec_text(qa as int).len() as int;
                    crate::bencode::lemma_dec_text_unique(
                        s@,
                        0,
                        a as int,
                        e1 as int,
                        qa as int,
                        h1,
                    );
                    let h2 = h1 + 1 + dec_text(qb as int).len() as int;
                    crate::bencode::lemma_dec_text_unique(
                        s@,
                        e1 + 1,
                        b as int,
                        e2 as int,
                        qb as int,
                        h2,
                    );
                    assert(false);
                }
            }
        }
        return Option::None;
    }
    let (c, e3) = match crate::bencode::parse_digits(s, e2 + 1) {
        Ok(x) => x,
        Err(_) => {
            proof {
                assert forall|qa: u8, qb: u8, qc: u8, qd: u8| s@ != ipv4_text(qa, qb, qc, qd) by {
                    if s@ == ipv4_text(qa, qb, qc, qd) {
                        lemma_ipv4_layout(s@, qa, qb, qc, qd);
                        let h1 = dec_text(qa as int).len() as int;
                        crate::bencode::lemma_dec_text_unique(
                            s@,
                            0,
                            a as int,
                            e1 as int,
                            qa as int,
                            h1,
                        );
                        let h2 = h1 + 1 + dec_text(qb as int).len() as int;
                        crate::bencode::lemma_dec_text_unique(
                            s@,
                            e1 + 1,
                            b as int,
                            e2 as int,
                            qb as int,
                            h2,
                        );
                        let h3 = h2 + 1 + dec_text(qc as int).len() as int;
                        let c64 = qc as u64;
                        assert(dec_text(c64 as int) == s@.subrange(e2 + 1, h3));
                        assert(crate::bencode::digit_boundary(s@, h3));
                        assert(false);
                    }
                }
            }
            return Option::None;
        },
    };
    if c > 255 || e3 == s.len() || s[e3] != 46 {
        proof {
            assert forall|qa: u8, qb: u8, qc: u8, qd: u8| s@ != ipv4_text(qa, qb, qc, qd) by {
                if s@ == ipv4_text(qa, qb, qc, qd) {
                    lemma_ipv4_layout(s@, qa, qb, qc, qd);
                    let h1 = dec_text(qa as int).len() as int;
                    crate::bencode::lemma_dec_text_unique(
                        s@,
                        0,
                        a as int,
                        e1 as int,
                        qa as int,
                        h1,
                    );
                    let h2 = h1 + 1 + dec_text(qb as int).len() as int;
                    crate::bencode::lemma_dec_text_unique(
                        s@,
                        e1 + 1,
                        b as int,
                        e2 as int,
                        qb as int,
                        h2,
                    );
                    let h3 = h2 + 1 + dec_text(qc as int).len() as int;
                    crate::bencode::lemma_dec_text_unique(
                        s@,
                        e2 + 1,
                        c as int,
                        e3 as int,
                        qc as int,
                        h3,
                    );
                    assert(false);
                }
            }
        }
        return Option::None;
    }
    let (d, e4) = match crate::bencode::parse_digits(s, e3 + 1) {
        Ok(x) => x,
        Err(_) => {
            proof {
                assert forall|qa: u8, qb: u8, qc: u8, qd: u8| s@ != ipv4_text(qa, qb, qc, qd) by {
                    if s@ == ipv4_text(qa, qb, qc, qd) {
                        lemma_ipv4_layout(s@, qa, qb, qc, qd);
                        let h1 = dec_text(qa as int).len() as int;
                        crate::bencode::lemma_dec_text_unique(
                            s@,
                            0,
                            a as int,
                            e1 as int,
                            qa as int,
                            h1,
                        );
                        let h2 = h1 + 1 + dec_text(qb as int).len() as int;
                        crate::bencode::lemma_dec_text_unique(
                            s@,
                            e1 + 1,
                            b as int,
                            e2 as int,
                            qb as int,
                            h2,
                        );
                        let h3 = h2 + 1 + dec_text(qc as int).len() as int;
                        crate::bencode::lemma_dec_text_unique(
                            s@,
                            e2 + 1,
                            c as int,
                            e3 as int,
                            qc as int,
                            h3,
                        );
                        let h4 = h3 + 1 + dec_text(qd as int).len() as int;
                        let d64 = qd as u64;
                        assert(dec_text(d64 as int) == s@.subrange(e3 + 1, h4));
                        assert(crate::bencode::digit_boundary(s@, h4));
                        assert(false);
                    }
                }
            }
            return Option::None;
        },
    };
    if d > 255 || e4 != s.len() {
        proof {
            assert forall|qa: u8, qb: u8, qc: u8, qd: u8| s@ != ipv4_text(qa, qb, qc, qd) by {
                if s@ == ipv4_text(qa, qb, qc, qd) {
                    lemma_ipv4_layout(s@, qa, qb, qc, qd);
                    let h1 = dec_text(qa as int).len() as int;
                    crate::bencode::lemma_dec_text_unique(
                        s@,
                        0,
                        a as int,
                        e1 as int,
                        qa as int,
                        h1,
                    );
                    let h2 = h1 + 1 + dec_text(qb as int).len() as int;
                    crate::bencode::lemma_dec_text_unique(
                        s@,
                        e1 + 1,
                        b as int,
                        e2 as int,
                        qb as int,
                        h2,
                    );
                    let h3 = h2 + 1 + dec_text(qc as int).len() as int;
                    crate::bencode::lemma_dec_text_unique(
                        s@,
                        e2 + 1,
                        c as int,
                        e3 as int,
                        qc as int,
                        h3,
                    );
                    let h4 = h3 + 1 + dec_text(qd as int).len() as int;
                    crate::bencode::lemma_dec_text_unique(
                        s@,
                        e3 + 1,
                        d as int,
                        e4 as int,
                        qd as int,
                        h4,
                    );
                    assert(false);
                }
            }
        }
        return Option::None;
    }
    proof {
        assert(s@.subrange(e1 as int, e1 + 1) =~= seq![46u8]);
        assert(s@.subrange(e2 as int, e2 + 1) =~= seq![46u8]);
        assert(s@.subrange(e3 as int, e3 + 1) =~= seq![46u8]);
        assert(s@.subrange(0, e4 as int) =~= s@);
        assert(s@ =~= ipv4_text(a as u8, b as u8, c as u8, d as u8));
    }
    Some((a as u8, b as u8, c as u8, d as u8))
}

/// How a parsed peer address reflects its text: either the canonical
/// dotted-quad of the quad it carries, or a name kept verbatim.
pub open spec fn peer_ip_models(pi: PeerIp, bytes: Seq<u8>) -> bool {
    match pi {
        PeerIp::IpAddr(a, b, c, d) => bytes == ipv4_text(a, b, c, d),
        PeerIp::Dns(s) => vstd::utf8::encode_utf8(s@) == bytes && vstd::utf8::valid_utf8(bytes)
            && (forall|a: u8, b: u8, c: u8, d: u8| bytes != ipv4_text(a, b, c, d)),
    }
}

/// A peer dictionary: a `peer id` byte string, an `ip` UTF-8 text, and a
/// `port` in range.
pub open spec fn dict_peer_ok(v: Bencode) -> bool {
    &&& v matches Bencode::Dict(pd)
    &&& dict_lookup(pd@, key_peer_id()) matches Some(Bencode::Bytes(id))
    &&& dict_lookup(pd@, key_ip()) matches Some(Bencode::Bytes(ip)) && vstd::utf8::valid_utf8(ip@)
    &&& dict_lookup(pd@, key_port()) matches Some(Bencode::Int(p)) && 0 <= p && p <= 65535
}

/// How a parsed `DictionaryPeer` reflects its dictionary.
pub open spec fn dict_peer_models(d: DictionaryPeer, v: Bencode) -> bool {
    &&& v matches Bencode::Dict(pd)
    &&& dict_lookup(pd@, key_peer_id()) matches Some(Bencode::Bytes(id)) && d.peer_id@ == id@
    &&& dict_lookup(pd@, key_ip()) matches Some(Bencode::Bytes(ip)) && peer_ip_models(d.ip, ip@)
    &&& dict_lookup(pd@, key_port()) matches Some(Bencode::Int(p)) && d.port == p
}

impl DictionaryPeer {
    /// Reads one peer out of its dictionary. The `ip` text is kept as a
    /// literal IPv4 address when it parses as one, and as a name to resolve
    /// otherwise.
    #[verifier::loop_isolation(false)]
    pub fn from_bencode(v: &Bencode) -> (r: Result<DictionaryPeer, TrackerError>)
        ensures
            r is Ok <==> dict_peer_ok(*v),
            r matches Ok(d) ==> dict_peer_models(d, *v),
    {
        let pd = match v {
            Bencode::Dict(pd) => pd,
            _ => {
                return Err(TrackerError::InvalidBodyInTrackerResponse);
            },
        };
        let peer_id: Vec<u8> = match dict_get(pd, &key_peer_id_vec()) {
            Some(Bencode::Bytes(id)) => {
                let copied = crate::util::copy_range(id, 0, id.len());
                proof {
                    assert(id@.subrange(0, id@.len() as int) =~= id@);
                }
                copied
            },
            _ => {
                return Err(TrackerError::InvalidBodyInTrackerResponse);
            },
        };
        let ip: PeerIp = match dict_get(pd, &key_ip_vec()) {
            Some(Bencode::Bytes(ipb)) => {
                match crate::metainfo::utf8_string(ipb) {
                    Some(text) => {
                        match parse_ipv4(ipb) {
                            Some(q) => PeerIp::IpAddr(q.0, q.1, q.2, q.3),
                            Option::None => PeerIp::Dns(text),
                        }
                    },
                    Option::None => {
                        return Err(TrackerError::InvalidBodyInTrackerResponse);
                    },
                }
            },
            _ => {
                return Err(TrackerError::InvalidBodyInTrackerResponse);
            },
        };
        let port: u16 = match dict_get(pd, &key_port_vec()) {
            Some(Bencode::Int(p)) => {
                if *p < 0 || *p > 65535 {
                    return Err(TrackerError::InvalidBodyInTrackerResponse);
                }
                *p as u16
            },
            _ => {
                return Err(TrackerError::InvalidBodyInTrackerResponse);
            },
        };
        Ok(DictionaryPeer { peer_id, ip, port })
    }
}

/// A well-formed success response: no failure reason, the three counters in
/// machine range, and a peer list in either the dictionary or the compact
/// form.
pub open spec fn tracker_response_ok(v: Bencode) -> bool {
    &&& v matches Bencode::Dict(pairs)
    &&& dict_lookup(pairs@, key_failure_reason()) is None
    &&& dict_lookup(pairs@, key_complete()) matches Some(Bencode::Int(c)) && 0 <= c && c
        <= usize::MAX
    &&& dict_lookup(pairs@, key_incomplete()) matches Some(Bencode::Int(ic)) && 0 <= ic && ic
        <= usize::MAX
    &&& dict_lookup(pairs@, key_interval()) matches Some(Bencode::Int(iv)) && 0 <= iv && iv
        <= usize::MAX
    &&& match dict_lookup(pairs@, key_peers()) {
        Some(Bencode::Bytes(b)) => b@.len() % 6 == 0,
        Some(Bencode::List(l)) => forall|k: int|
            0 <= k < l@.len() ==> dict_peer_ok(#[trigger] l@[k]),
        _ => false,
    }
}

/// How a decoded response reflects its bencoded form.
pub open spec fn tracker_response_models(t: TrackerResponse, v: Bencode) -> bool {
    &&& v matches Bencode::Dict(pairs)
    &&& dict_lookup(pairs@, key_complete()) matches Some(Bencode::Int(c)) && t.complete == c
    &&& dict_lookup(pairs@, key_incomplete()) matches Some(Bencode::Int(ic)) && t.incomplete == ic
    &&& dict_lookup(pairs@, key_interval()) matches Some(Bencode::Int(iv)) && t.interval == iv
    &&& match dict_lookup(pairs@, key_peers()) {
        Some(Bencode::Bytes(b)) => t.peers matches Peers::Binary(bp) && bp@.len() == b@.len() / 6
            && (forall|k: int| 0 <= k < bp@.len() ==> bp@[k] == spec_compact_peer(b@, k)),
        Some(Bencode::List(l)) => t.peers matches Peers::Dictionary(dp) && dp@.len() == l@.len()
            && (forall|k: int| 0 <= k < l@.len() ==> dict_peer_models(#[trigger] dp@[k], l@[k])),
        _ => false,
    }
}

/// Whether the tracker rejected the announce: a `failure reason` text is
/// present.
pub open spec fn tracker_failure_reason(v: Bencode) -> Option<Seq<u8>> {
    match v {
        Bencode::Dict(pairs) => match dict_lookup(pairs@, key_failure_reason()) {
            Some(Bencode::Bytes(f)) => Some(f@),
            _ => Option::None,
        },
        _ => Option::None,
    }
}

/// Decodes a tracker's bencoded announce response: either a failure reason,
/// surfaced as a tracker-rejection error with the decoded text, or a success
/// dictionary whose `peers` field discriminates between the dictionary form
/// and the compact binary form.
#[verifier::loop_isolation(false)]
pub fn response_from_bencode(v: &Bencode) -> (r: Result<TrackerResponse, TrackerError>)
    ensures
        r is Ok <==> tracker_response_ok(*v),
        r matches Ok(t) ==> tracker_response_models(t, *v),
        match tracker_failure_reason(*v) {
            Some(f) => vstd::utf8::valid_utf8(f) ==> (r matches Err(
                TrackerError::TrackerReturnedError(s),
            ) && vstd::utf8::encode_utf8(s@) == f),
            Option::None => true,
        },
{
    let pairs = match v {
        Bencode::Dict(pairs) => pairs,
        _ => {
            return Err(TrackerError::InvalidBodyInTrackerResponse);
        },
    };
    match dict_get(pairs, &key_failure_reason_vec()) {
        Some(Bencode::Bytes(f)) => {
            match crate::metainfo::utf8_string(f) {
                Some(reason) => {
                    return Err(TrackerError::TrackerReturnedError(reason));
                },
                Option::None => {
                    return Err(TrackerError::InvalidBodyInTrackerResponse);
                },
            }
        },
        Some(_) => {
            return Err(TrackerError::InvalidBodyInTrackerResponse);
        },
        Option::None => {},
    }
    let complete: usize = match dict_get(pairs, &key_complete_vec()) {
        Some(Bencode::Int(c)) => {
            if *c < 0 || (*c as u64) > (usize::MAX as u64) {
                return Err(TrackerError::InvalidBodyInTrackerResponse);
            }
            *c as usize
        },
        _ => {
            return Err(TrackerError::InvalidBodyInTrackerResponse);
        },
    };
    let incomplete: usize = match dict_get(pairs, &key_incomplete_vec()) {
        Some(Bencode::Int(c)) => {
            if *c < 0 || (*c as u64) > (usize::MAX as u64) {
                return Err(TrackerError::InvalidBodyInTrackerResponse);
            }
            *c as usize
        },
        _ => {
            return Err(TrackerError::InvalidBodyInTrackerResponse);
        },
    };
    let interval: usize = match dict_get(pairs, &key_interval_vec()) {
        Some(Bencode::Int(c)) => {
            if *c < 0 || (*c as u64) > (usize::MAX as u64) {
                return Err(TrackerError::InvalidBodyInTrackerResponse);
            }
            *c as usize
        },
        _ => {
            return Err(TrackerError::InvalidBodyInTrackerResponse);
        },
    };
    let peers: Peers = match dict_get(pairs, &key_peers_vec()) {
        Some(Bencode::Bytes(b)) => {
            match decode_compact_peers(b) {
                Ok(bp) => Peers::Binary(bp),
                Err(e) => {
                    return Err(e);
                },
            }
        },
        Some(Bencode::List(l)) => {
            let n = l.len();
            let mut dp: Vec<DictionaryPeer> = Vec::new();
            let mut k: usize = 0;
            while k < n
                invariant
                    0 <= k <= n,
                    n == l@.len(),
                    dp@.len() == k,
                    forall|j: int|
                        0 <= j < k ==> dict_peer_ok(#[trigger] l@[j]) && dict_peer_models(
                            dp@[j],
                            l@[j],
                        ),
                decreases n - k,
            {
                let d = match DictionaryPeer::from_bencode(&l[k]) {
                    Ok(d) => d,
                    Err(e) => {
                        return Err(e);
                    },
                };
                dp.push(d);
                k = k + 1;
            }
            Peers::Dictionary(dp)
        },
        _ => {
            return Err(TrackerError::InvalidBodyInTrackerResponse);
        },
    };
    Ok(TrackerResponse { complete, incomplete, interval, peers })
}

/// Validity of a peer dictionary is determined by its canonical bytes.
pub proof fn lemma_dict_peer_ok_enc_inv(w1: Bencode, w2: Bencode)
    requires
        crate::bencode::enc(w1) == crate::bencode::enc(w2),
        dict_peer_ok(w1),
    ensures
        dict_peer_ok(w2),
{
    crate::bencode::lemma_enc_inv(w1, w2);
    match (w1, w2) {
        (Bencode::Dict(p1), Bencode::Dict(p2)) => {
            crate::metainfo::lemma_dict_lookup_enc(p1@, p2@, key_peer_id());
            match (dict_lookup(p1@, key_peer_id()), dict_lookup(p2@, key_peer_id())) {
                (Some(x1), Some(x2)) => {
                    crate::bencode::lemma_enc_inv(x1, x2);
                },
                _ => {
                    assert(false);
                },
            }
            crate::metainfo::lemma_dict_lookup_enc(p1@, p2@, key_ip());
            match (dict_lookup(p1@, key_ip()), dict_lookup(p2@, key_ip())) {
                (Some(x1), Some(x2)) => {
                    crate::bencode::lemma_enc_inv(x1, x2);
                },
                _ => {
                    assert(false);
                },
            }
            crate::metainfo::lemma_dict_lookup_enc(p1@, p2@, key_port());
            match (dict_lookup(p1@, key_port()), dict_lookup(p2@, key_port())) {
                (Some(x1), Some(x2)) => {
                    crate::bencode::lemma_enc_inv(x1, x2);
                },
                _ => {
                    assert(false);
                },
            }
        },
        _ => {
            assert(false);
        },
    }
}

/// Validity of a success response is determined by its canonical bytes.
pub proof fn lemma_tracker_response_ok_enc_inv(v1: Bencode, v2: Bencode)
    requires
        crate::bencode::enc(v1) == crate::bencode::enc(v2),
        tracker_response_ok(v1),
    ensures
        tracker_response_ok(v2),
{
    crate::bencode::lemma_enc_inv(v1, v2);
    match (v1, v2) {
        (Bencode::Dict(p1), Bencode::Dict(p2)) => {
            crate::metainfo::lemma_dict_lookup_enc(p1@, p2@, key_failure_reason());
            crate::metainfo::lemma_dict_lookup_enc(p1@, p2@, key_complete());
            match (dict_lookup(p1@, key_complete()), dict_lookup(p2@, key_complete())) {
                (Some(x1), Some(x2)) => {
                    crate::bencode::lemma_enc_inv(x1, x2);
                },
                _ => {
                    assert(false);
                },
            }
            crate::metainfo::lemma_dict_lookup_enc(p1@, p2@, key_incomplete());
            match (dict_lookup(p1@, key_incomplete()), dict_lookup(p2@, key_incomplete())) {
                (Some(x1), Some(x2)) => {
                    crate::bencode::lemma_enc_inv(x1, x2);
                },
                _ => {
                    assert(false);
                },
            }
            crate::metainfo::lemma_dict_lookup_enc(p1@, p2@, key_interval());
            match (dict_lookup(p1@, key_interval()), dict_lookup(p2@, key_interval())) {
                (Some(x1), Some(x2)) => {
                    crate::bencode::lemma_enc_inv(x1, x2);
                },
                _ => {
                    assert(false);
                },
            }
            crate::metainfo::lemma_dict_lookup_enc(p1@, p2@, key_peers());
            match (dict_lookup(p1@, key_peers()), dict_lookup(p2@, key_peers())) {
                (Some(x1), Some(x2)) => {
                    crate::bencode::lemma_enc_inv(x1, x2);
                    match (x1, x2) {
                        (Bencode::List(l1), Bencode::List(l2)) => {
                            assert forall|k: int|
                                0 <= k < l2@.len() implies dict_peer_ok(#[trigger] l2@[k]) by {
                                assert(dict_peer_ok(l1@[k]));
                                lemma_dict_peer_ok_enc_inv(l1@[k], l2@[k]);
                            }
                        },
                        (Bencode::Bytes(b1), Bencode::Bytes(b2)) => {},
                        _ => {
                            assert(false);
                        },
                    }
                },
                _ => {
                    assert(false);
                },
            }
        },
        _ => {
            assert(false);
        },
    }
}

/// A response's failure reason is determined by its canonical bytes.
pub proof fn lemma_failure_reason_enc_inv(v1: Bencode, v2: Bencode)
    requires
        crate::bencode::enc(v1) == crate::bencode::enc(v2),
    ensures
        tracker_failure_reason(v1) == tracker_failure_reason(v2),
{
    crate::bencode::lemma_enc_inv(v1, v2);
    match (v1, v2) {
        (Bencode::Dict(p1), Bencode::Dict(p2)) => {
            crate::metainfo::lemma_dict_lookup_enc(p1@, p2@, key_failure_reason());
            match (dict_lookup(p1@, key_failure_reason()), dict_lookup(p2@, key_failure_reason())) {
                (Some(x1), Some(x2)) => {
                    crate::bencode::lemma_enc_inv(x1, x2);
                    crate::bencode::lemma_enc_inv(x2, x1);
                },
                _ => {},
            }
        },
        _ => {
            crate::bencode::lemma_enc_inv(v2, v1);
        },
    }
}

/// Decodes a whole bencoded announce body: it decodes if and only if a
/// well-formed success response's canonical serialization is the body itself,
/// and a body carrying a failure reason is surfaced as the tracker's own
/// rejection with the decoded text.
pub fn parse_tracker_response(body: &Vec<u8>) -> (r: Result<TrackerResponse, TrackerError>)
    ensures
        r is Ok <==> exists|v: Bencode|
            crate::bencode::enc(v) == body@ && #[trigger] tracker_response_ok(v),
        r matches Ok(t) ==> exists|v: Bencode|
            crate::bencode::enc(v) == body@ && #[trigger] tracker_response_ok(v)
                && tracker_response_models(t, v),
        forall|v: Bencode|
            #[trigger] crate::bencode::enc(v) == body@ ==> match tracker_failure_reason(v) {
                Some(f) => vstd::utf8::valid_utf8(f) ==> (r matches Err(
                    TrackerError::TrackerReturnedError(st),
                ) && vstd::utf8::encode_utf8(st@) == f),
                Option::None => true,
            },
{
    proof {
        assert(body@.subrange(0, body@.len() as int) =~= body@);
    }
    let (v, end) = match crate::bencode::parse_value(body, 0) {
        Ok(x) => x,
        Err(_) => {
            proof {
                assert forall|w: Bencode| #[trigger] crate::bencode::enc(w) != body@ by {
                    if crate::bencode::enc(w) == body@ {
                        assert(crate::bencode::value_at(body@, 0, w, body@.len() as int));
                        assert(false);
                    }
                }
            }
            return Err(TrackerError::InvalidBodyInTrackerResponse);
        },
    };
    proof {
        assert(crate::bencode::value_at(body@, 0, v, end as int));
    }
    if end != body.len() {
        proof {
            assert forall|w: Bencode| #[trigger] crate::bencode::enc(w) != body@ by {
                if crate::bencode::enc(w) == body@ {
                    assert(crate::bencode::value_at(body@, 0, w, body@.len() as int));
                    crate::bencode::lemma_value_at_unique_end(
                        body@,
                        0,
                        v,
                        end as int,
                        w,
                        body@.len() as int,
                    );
                    assert(false);
                }
            }
        }
        return Err(TrackerError::InvalidBodyInTrackerResponse);
    }
    let ghost gv = v;
    proof {
        assert(crate::bencode::enc(gv) == body@);
        assert forall|w: Bencode|
            #[trigger] crate::bencode::enc(w) == body@ implies crate::bencode::enc(w)
            == crate::bencode::enc(gv) by {}
    }
    let t = match response_from_bencode(&v) {
        Ok(t) => t,
        Err(e) => {
            proof {
                assert(!(exists|w: Bencode|
                    crate::bencode::enc(w) == body@ && #[trigger] tracker_response_ok(w))) by {
                    if exists|w: Bencode|
                        crate::bencode::enc(w) == body@ && #[trigger] tracker_response_ok(w) {
                        let w = choose|w: Bencode|
                            crate::bencode::enc(w) == body@ && #[trigger] tracker_response_ok(w);
                        lemma_tracker_response_ok_enc_inv(w, gv);
                        assert(false);
                    }
                }
                assert forall|w: Bencode|
                    #[trigger] crate::bencode::enc(w) == body@ implies match tracker_failure_reason(
                    w,
                ) {
                    Some(f) => vstd::utf8::valid_utf8(f) ==> (Err::<
                        TrackerResponse,
                        TrackerError,
                    >(e) matches Err(TrackerError::TrackerReturnedError(st))
                        && vstd::utf8::encode_utf8(st@) == f),
                    Option::None => true,
                } by {
                    lemma_failure_reason_enc_inv(w, gv);
                }
            }
            return Err(e);
        },
    };
    proof {
        assert(crate::bencode::enc(gv) == body@ && tracker_response_ok(gv)
            && tracker_response_models(t, gv));
        assert forall|w: Bencode|
            #[trigger] crate::bencode::enc(w) == body@ implies match tracker_failure_reason(w) {
            Some(f) => vstd::utf8::valid_utf8(f) ==> (Ok::<TrackerResponse, TrackerError>(
                t,
            ) matches Err(TrackerError::TrackerReturnedError(st)) && vstd::utf8::encode_utf8(st@)
                == f),
            Option::None => true,
        } by {
            lemma_failure_reason_enc_inv(w, gv);
            assert(tracker_failure_reason(gv) is None);
        }
    }
    Ok(t)
}

// ---------------------------------------------------------------------------
// Scheme dispatch.
// ---------------------------------------------------------------------------

/// Where an announce URL dispatches, by its scheme.
#[derive(Debug, PartialEq, Eq, Structural, Clone, Copy)]
pub enum UrlScheme {
    Http,
    Https,
    Udp,
    Unknown,
}

pub open spec fn spec_scheme_kind(s: Seq<u8>) -> UrlScheme {
    if s == seq![104u8, 116u8, 116u8, 112u8] {
        UrlScheme::Http
    } else if s == seq![104u8, 116u8, 116u8, 112u8, 115u8] {
        UrlScheme::Https
    } else if s == seq![117u8, 100u8, 112u8] {
        UrlScheme::Udp
    } else {
        UrlScheme::Unknown
    }
}

/// Classifies an announce URL's scheme, given as its bytes: `http` and
/// `https` go to the HTTP client, `udp` to the UDP client, anything else is
/// unknown and must fail without a network attempt.
pub fn scheme_kind(scheme: &Vec<u8>) -> (r: UrlScheme)
    ensures
        r == spec_scheme_kind(scheme@),
{
    let http: Vec<u8> = vec![104u8, 116u8, 116u8, 112u8];
    let https: Vec<u8> = vec![104u8, 116u8, 116u8, 112u8, 115u8];
    let udp: Vec<u8> = vec![117u8, 100u8, 112u8];
    proof {
        assert(http@ =~= seq![104u8, 116u8, 116u8, 112u8]);
        assert(https@ =~= seq![104u8, 116u8, 116u8, 112u8, 115u8]);
        assert(udp@ =~= seq![117u8, 100u8, 112u8]);
    }
    if crate::util::bytes_eq(scheme, &http) {
        UrlScheme::Http
    } else if crate::util::bytes_eq(scheme, &https) {
        UrlScheme::Https
    } else if crate::util::bytes_eq(scheme, &udp) {
        UrlScheme::Udp
    } else {
        UrlScheme::Unknown
    }
}

// ---------------------------------------------------------------------------
// Peer id generation.
// ---------------------------------------------------------------------------

/// Relies on rand's `random`: draws a value of any type its standard
/// distribution covers. Nothing can be promised of the result.
pub assume_specification<T>[ rand::random::<T> ]() -> (r: T)
    where
        rand::distributions::Standard: rand::distributions::Distribution<T>,
;

/// The fixed 9-byte prefix of this client's peer ids: `-TA` and the version
/// digits, '-'-terminated.
pub open spec fn peer_id_prefix() -> Seq<u8> {
    seq![45u8, 84u8, 65u8, 48u8, 48u8, 48u8, 48u8, 48u8, 45u8]
}

/// Assembles a 20-byte peer id from the fixed client prefix and an 11-byte
/// random tail.
pub fn make_peer_id(tail: &Vec<u8>) -> (r: Vec<u8>)
    requires
        tail@.len() == 11,
    ensures
        r@ == peer_id_prefix() + tail@,
        r@.len() == 20,
{
    let mut r: Vec<u8> = vec![45u8, 84u8, 65u8, 48u8, 48u8, 48u8, 48u8, 48u8, 45u8];
    proof {
        assert(r@ =~= peer_id_prefix());
    }
    let mut t = crate::util::copy_range(tail, 0, tail.len());
    r.append(&mut t);
    proof {
        assert(tail@.subrange(0, tail@.len() as int) =~= tail@);
    }
    r
}

/// Draws a fresh 20-byte peer id: the fixed client prefix, then 11 random
/// bytes. Whatever the randomness returns, the prefix and the length hold.
pub fn generate_peer_id() -> (r: Vec<u8>)
    ensures
        r@.len() == 20,
        r@.subrange(0, 9) == peer_id_prefix(),
{
    let mut tail: Vec<u8> = Vec::new();
    let mut i: usize = 0;
    while i < 11
        invariant
            0 <= i <= 11,
            tail@.len() == i,
        decreases 11 - i,
    {
        tail.push(rand::random::<u8>());
        i = i + 1;
    }
    let r = make_peer_id(&tail);
    proof {
        assert(r@.subrange(0, 9) =~= peer_id_prefix());
    }
    r
}

} // verus!
