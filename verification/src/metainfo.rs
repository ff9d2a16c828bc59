use vstd::prelude::*;

use crate::bencode::{enc, parse_value, Bencode};
use crate::util::{bytes_eq, copy_range};
use vstd::utf8::{encode_utf8, valid_utf8};

use sha1::{Digest, Sha1};

verus! {

/// Why a torrent description was rejected.
#[derive(Debug, PartialEq, Eq, Structural, Clone, Copy)]
pub enum MetainfoError {
    /// The buffer is not well-formed bencode.
    Syntax,
    /// Bytes follow the top-level value.
    TrailingBytes,
    /// A required dictionary, key or value shape is missing or wrong.
    Structure,
    /// The `pieces` byte string is not a multiple of 20 bytes.
    PiecesLength,
    /// Neither or both of the single-file and multi-file shapes match.
    AmbiguousFileLayout,
    /// An integer field is negative or too large for this machine.
    IntOutOfRange,
    /// A text field is not valid UTF-8.
    BadText,
}

// ---------------------------------------------------------------------------
// Dictionary lookup.
// ---------------------------------------------------------------------------

/// The value bound to `key` in an ordered dictionary: the first match wins.
pub open spec fn dict_lookup(s: Seq<(Vec<u8>, Bencode)>, key: Seq<u8>) -> Option<Bencode>
    decreases s.len(),
{
    if s.len() == 0 {
        None
    } else if s[0].0@ == key {
        Some(s[0].1)
    } else {
        dict_lookup(s.drop_first(), key)
    }
}

pub proof fn lemma_dict_lookup_skip(s: Seq<(Vec<u8>, Bencode)>, key: Seq<u8>, i: int)
    requires
        0 <= i <= s.len(),
        forall|j: int| 0 <= j < i ==> s[j].0@ != key,
    ensures
        dict_lookup(s, key) == dict_lookup(s.skip(i), key),
    decreases i,
{
    if i == 0 {
        assert(s.skip(0int) =~= s);
    } else {
        assert(s[0].0@ != key);
        assert(forall|j: int| 0 <= j < i - 1 ==> (#[trigger] s.drop_first()[j]) == s[j + 1]);
        lemma_dict_lookup_skip(s.drop_first(), key, i - 1);
        assert(dict_lookup(s, key) == dict_lookup(s.drop_first(), key));
        assert(s.drop_first().skip(i - 1) =~= s.skip(i));
        assert(dict_lookup(s.drop_first().skip(i - 1), key) == dict_lookup(s.skip(i), key));
    }
}

/// Finds the first value bound to `key`.
pub fn dict_get<'a>(pairs: &'a Vec<(Vec<u8>, Bencode)>, key: &Vec<u8>) -> (r: Option<&'a Bencode>)
    ensures
        match r {
            Some(v) => dict_lookup(pairs@, key@) == Some(*v),
            None => dict_lookup(pairs@, key@) is None,
        },
{
    let n = pairs.len();
    let mut i: usize = 0;
    while i < n
        invariant
            0 <= i <= n,
            n == pairs@.len(),
            forall|j: int| 0 <= j < i ==> pairs@[j].0@ != key@,
        decreases n - i,
    {
        if bytes_eq(&pairs[i].0, key) {
            proof {
                lemma_dict_lookup_skip(pairs@, key@, i as int);
                assert(pairs@.skip(i as int)[0] == pairs@[i as int]);
            }
            return Some(&pairs[i].1);
        }
        i = i + 1;
    }
    proof {
        lemma_dict_lookup_skip(pairs@, key@, n as int);
        assert(pairs@.skip(n as int).len() == 0);
    }
    None
}

// ---------------------------------------------------------------------------
// The dictionary keys of the torrent format.
// ---------------------------------------------------------------------------

pub open spec fn key_announce() -> Seq<u8> {
    seq![97u8, 110u8, 110u8, 111u8, 117u8, 110u8, 99u8, 101u8]
}

pub open spec fn key_info() -> Seq<u8> {
    seq![105u8, 110u8, 102u8, 111u8]
}

pub open spec fn key_name() -> Seq<u8> {
    seq![110u8, 97u8, 109u8, 101u8]
}

pub open spec fn key_piece_length() -> Seq<u8> {
    seq![112u8, 105u8, 101u8, 99u8, 101u8, 32u8, 108u8, 101u8, 110u8, 103u8, 116u8, 104u8]
}

pub open spec fn key_pieces() -> Seq<u8> {
    seq![112u8, 105u8, 101u8, 99u8, 101u8, 115u8]
}

pub open spec fn key_length() -> Seq<u8> {
    seq![108u8, 101u8, 110u8, 103u8, 116u8, 104u8]
}

pub open spec fn key_files() -> Seq<u8> {
    seq![102u8, 105u8, 108u8, 101u8, 115u8]
}

pub open spec fn key_path() -> Seq<u8> {
    seq![112u8, 97u8, 116u8, 104u8]
}

// ---------------------------------------------------------------------------
// Data model.
// ---------------------------------------------------------------------------

/// A parsed torrent description: the announce URL and the piece layout.
#[derive(Debug, PartialEq, Eq)]
pub struct Metainfo {
    pub announce: String,
    pub info: Info,
}

/// The info dictionary: name, piece size, the per-piece hashes, and the file
/// layout. `raw` keeps the parsed dictionary value itself, so the canonical
/// bytes it came from can be re-serialized byte-exactly for hashing.
#[derive(Debug, PartialEq, Eq)]
pub struct Info {
    pub name: String,
    pub piece_length: usize,
    pub pieces: Pieces,
    pub key: Key,
    pub raw: Bencode,
}

/// The ordered per-piece hashes.
#[derive(Debug, PartialEq, Eq)]
pub struct Pieces(pub Vec<Piece>);

/// One 20-byte piece hash.
#[derive(Debug, PartialEq, Eq)]
pub struct Piece(pub Vec<u8>);

/// The file layout: a single file with its length, or an ordered list of
/// files.
#[derive(Debug, PartialEq, Eq)]
pub enum Key {
    KeyLength { length: usize },
    KeyFiles { files: Vec<File> },
}

/// One file of a multi-file torrent: its length and its path segments.
#[derive(Debug, PartialEq, Eq)]
pub struct File {
    pub length: usize,
    pub path: Vec<String>,
}

impl Pieces {
    /// How many pieces there are.
    pub fn count(&self) -> (r: usize)
        ensures
            r == self.0@.len(),
    {
        self.0.len()
    }
}

// ---------------------------------------------------------------------------
// Validity and modeling of the bencoded shapes.
// ---------------------------------------------------------------------------

/// A path segment: a UTF-8 byte string.
pub open spec fn path_seg_ok(v: Bencode) -> bool {
    v matches Bencode::Bytes(b) && valid_utf8(b@)
}

/// How one parsed path segment reflects its byte string.
pub open spec fn path_seg_models(seg: String, v: Bencode) -> bool {
    v matches Bencode::Bytes(b) && encode_utf8(seg@) == b@ && valid_utf8(b@)
}

/// A file entry: a dictionary with a machine-sized `length` and a `path`
/// list of UTF-8 byte strings.
pub open spec fn file_ok(v: Bencode) -> bool {
    &&& v matches Bencode::Dict(fd)
    &&& dict_lookup(fd@, key_length()) matches Some(Bencode::Int(l)) && 0 <= l && l <= usize::MAX
    &&& dict_lookup(fd@, key_path()) matches Some(Bencode::List(ps)) && (forall|k: int|
        0 <= k < ps@.len() ==> path_seg_ok(ps@[k]))
}

/// How a parsed `File` reflects its file entry.
pub open spec fn file_models(f: File, v: Bencode) -> bool {
    &&& v matches Bencode::Dict(fd)
    &&& dict_lookup(fd@, key_length()) matches Some(Bencode::Int(l)) && f.length == l
    &&& dict_lookup(fd@, key_path()) matches Some(Bencode::List(ps)) && f.path@.len() == ps@.len()
        && (forall|k: int|
        0 <= k < ps@.len() ==> path_seg_models(#[trigger] f.path@[k], ps@[k]))
}

/// The length a file entry declares, 0 when the entry is malformed.
pub open spec fn file_length_of(v: Bencode) -> int {
    match v {
        Bencode::Dict(fd) => match dict_lookup(fd@, key_length()) {
            Some(Bencode::Int(l)) => l as int,
            _ => 0,
        },
        _ => 0,
    }
}

/// The total declared length of a `files` list.
pub open spec fn files_total(fs: Seq<Bencode>) -> int
    decreases fs.len(),
{
    if fs.len() == 0 {
        0
    } else {
        file_length_of(fs[0]) + files_total(fs.drop_first())
    }
}

pub proof fn lemma_files_total_split(fs: Seq<Bencode>, j: int)
    requires
        0 <= j <= fs.len(),
    ensures
        files_total(fs) == files_total(fs.take(j)) + files_total(fs.skip(j)),
    decreases j,
{
    if j == 0 {
        assert(fs.take(0int) =~= Seq::<Bencode>::empty());
        assert(fs.skip(0int) =~= fs);
    } else {
        lemma_files_total_split(fs.drop_first(), j - 1);
        assert(fs.take(j).drop_first() =~= fs.drop_first().take(j - 1));
        assert(fs.skip(j) =~= fs.drop_first().skip(j - 1));
        assert(fs.take(j)[0] == fs[0]);
        assert(files_total(fs.take(j)) == file_length_of(fs[0]) + files_total(
            fs.drop_first().take(j - 1),
        ));
    }
}

pub proof fn lemma_files_total_nonneg(fs: Seq<Bencode>)
    requires
        forall|k: int| 0 <= k < fs.len() ==> file_ok(#[trigger] fs[k]),
    ensures
        files_total(fs) >= 0,
    decreases fs.len(),
{
    if fs.len() > 0 {
        assert(file_ok(fs[0]));
        assert(forall|k: int|
            0 <= k < fs.drop_first().len() ==> file_ok(#[trigger] fs.drop_first()[k]));
        lemma_files_total_nonneg(fs.drop_first());
    }
}

/// A valid info dictionary: a `name` text, a machine-sized `piece length`, a
/// `pieces` byte string holding whole 20-byte hashes, and exactly one of the
/// single-file (`length`) and multi-file (`files`) shapes, with a total that
/// this machine can address.
pub open spec fn info_ok(v: Bencode) -> bool {
    &&& v matches Bencode::Dict(ip)
    &&& dict_lookup(ip@, key_name()) matches Some(Bencode::Bytes(n)) && valid_utf8(n@)
    &&& dict_lookup(ip@, key_piece_length()) matches Some(Bencode::Int(pl)) && 0 <= pl && pl
        <= usize::MAX
    &&& dict_lookup(ip@, key_pieces()) matches Some(Bencode::Bytes(pb)) && pb@.len() % 20 == 0
    &&& match (dict_lookup(ip@, key_length()), dict_lookup(ip@, key_files())) {
        (Some(Bencode::Int(l)), Option::<Bencode>::None) => 0 <= l && l <= usize::MAX,
        (Option::<Bencode>::None, Some(Bencode::List(fs))) => (forall|k: int|
            0 <= k < fs@.len() ==> file_ok(#[trigger] fs@[k])) && files_total(fs@) <= usize::MAX,
        _ => false,
    }
}

/// How a parsed `Info` reflects its info dictionary. The parsed value keeps
/// the dictionary itself in `raw`.
pub open spec fn info_models(i: Info, v: Bencode) -> bool {
    &&& i.raw == v
    &&& v matches Bencode::Dict(ip)
    &&& dict_lookup(ip@, key_name()) matches Some(Bencode::Bytes(n)) && encode_utf8(i.name@) == n@
    &&& dict_lookup(ip@, key_piece_length()) matches Some(Bencode::Int(pl)) && i.piece_length == pl
    &&& dict_lookup(ip@, key_pieces()) matches Some(Bencode::Bytes(pb)) && i.pieces.0@.len() * 20
        == pb@.len() && (forall|k: int|
        0 <= k < i.pieces.0@.len() ==> (#[trigger] i.pieces.0@[k]).0@ == pb@.subrange(
            20 * k,
            20 * k + 20,
        ))
    &&& match i.key {
        Key::KeyLength { length } => dict_lookup(ip@, key_length()) matches Some(
            Bencode::Int(l),
        ) && length == l,
        Key::KeyFiles { files } => dict_lookup(ip@, key_files()) matches Some(Bencode::List(fs))
            && files@.len() == fs@.len() && (forall|k: int|
            0 <= k < fs@.len() ==> file_models(#[trigger] files@[k], fs@[k])),
    }
}

/// A valid torrent description: a dictionary with a UTF-8 `announce` URL and
/// a valid info dictionary.
pub open spec fn metainfo_ok(v: Bencode) -> bool {
    &&& v matches Bencode::Dict(pairs)
    &&& dict_lookup(pairs@, key_announce()) matches Some(Bencode::Bytes(a)) && valid_utf8(a@)
    &&& dict_lookup(pairs@, key_info()) matches Some(iv) && info_ok(iv)
}

/// How a parsed `Metainfo` reflects its bencoded form.
pub open spec fn metainfo_models(m: Metainfo, v: Bencode) -> bool {
    &&& v matches Bencode::Dict(pairs)
    &&& dict_lookup(pairs@, key_announce()) matches Some(Bencode::Bytes(a)) && encode_utf8(
        m.announce@,
    ) == a@
    &&& dict_lookup(pairs@, key_info()) matches Some(iv) && info_models(m.info, iv)
}

/// The `announce` entry is present as UTF-8 text.
pub open spec fn announce_ok(pairs: Seq<(Vec<u8>, Bencode)>) -> bool {
    dict_lookup(pairs, key_announce()) matches Some(Bencode::Bytes(a)) && valid_utf8(a@)
}

/// The `name` and `piece length` entries of an info dictionary are present
/// and well-formed.
pub open spec fn info_prefix_ok(ip: Seq<(Vec<u8>, Bencode)>) -> bool {
    &&& dict_lookup(ip, key_name()) matches Some(Bencode::Bytes(n)) && valid_utf8(n@)
    &&& dict_lookup(ip, key_piece_length()) matches Some(Bencode::Int(pl)) && 0 <= pl && pl
        <= usize::MAX
}

/// An info dictionary declares a bad piece buffer: present, but not whole
/// 20-byte hashes.
pub open spec fn info_pieces_bad(ip: Seq<(Vec<u8>, Bencode)>) -> bool {
    dict_lookup(ip, key_pieces()) matches Some(Bencode::Bytes(pb)) && pb@.len() % 20 != 0
}

/// An info dictionary's file layout is ambiguous: both or neither of the
/// single-file and multi-file keys are present.
pub open spec fn info_layout_ambiguous(ip: Seq<(Vec<u8>, Bencode)>) -> bool {
    ||| (dict_lookup(ip, key_length()) is Some && dict_lookup(ip, key_files()) is Some)
    ||| (dict_lookup(ip, key_length()) is None && dict_lookup(ip, key_files()) is None)
}

// ---------------------------------------------------------------------------
// Parsing.
// ---------------------------------------------------------------------------

/// Relies on `String::from_utf8`: succeeds exactly on valid UTF-8 and decodes
/// it to the characters that encode back to the same bytes.
#[verifier::external_body]
pub(crate) fn utf8_string(bytes: &Vec<u8>) -> (r: Option<String>)
    ensures
        r matches Some(s) ==> encode_utf8(s@) == bytes@,
        r is Some <==> valid_utf8(bytes@),
{
    String::from_utf8(bytes.clone()).ok()
}

fn key_announce_vec() -> (r: Vec<u8>)
    ensures
        r@ == key_announce(),
{
    let r: Vec<u8> = vec![97u8, 110u8, 110u8, 111u8, 117u8, 110u8, 99u8, 101u8];
    proof {
        assert(r@ =~= key_announce());
    }
    r
}

fn key_info_vec() -> (r: Vec<u8>)
    ensures
        r@ == key_info(),
{
    let r: Vec<u8> = vec![105u8, 110u8, 102u8, 111u8];
    proof {
        assert(r@ =~= key_info());
    }
    r
}

fn key_name_vec() -> (r: Vec<u8>)
    ensures
        r@ == key_name(),
{
    let r: Vec<u8> = vec![110u8, 97u8, 109u8, 101u8];
    proof {
        assert(r@ =~= key_name());
    }
    r
}

fn key_piece_length_vec() -> (r: Vec<u8>)
    ensures
        r@ == key_piece_length(),
{
    let r: Vec<u8> = vec![
        112u8,
        105u8,
        101u8,
        99u8,
        101u8,
        32u8,
        108u8,
        101u8,
        110u8,
        103u8,
        116u8,
        104u8,
    ];
    proof {
        assert(r@ =~= key_piece_length());
    }
    r
}

fn key_pieces_vec() -> (r: Vec<u8>)
    ensures
        r@ == key_pieces(),
{
    let r: Vec<u8> = vec![112u8, 105u8, 101u8, 99u8, 101u8, 115u8];
    proof {
        assert(r@ =~= key_pieces());
    }
    r
}

fn key_length_vec() -> (r: Vec<u8>)
    ensures
        r@ == key_length(),
{
    let r: Vec<u8> = vec![108u8, 101u8, 110u8, 103u8, 116u8, 104u8];
    proof {
        assert(r@ =~= key_length());
    }
    r
}

fn key_files_vec() -> (r: Vec<u8>)
    ensures
        r@ == key_files(),
{
    let r: Vec<u8> = vec![102u8, 105u8, 108u8, 101u8, 115u8];
    proof {
        assert(r@ =~= key_files());
    }
    r
}

fn key_path_vec() -> (r: Vec<u8>)
    ensures
        r@ == key_path(),
{
    let r: Vec<u8> = vec![112u8, 97u8, 116u8, 104u8];
    proof {
        assert(r@ =~= key_path());
    }
    r
}

impl File {
    /// Reads one file entry out of its bencoded dictionary.
    #[verifier::loop_isolation(false)]
    pub fn from_bencode(v: &Bencode) -> (r: Result<File, MetainfoError>)
        ensures
            r is Ok <==> file_ok(*v),
            r matches Ok(f) ==> file_models(f, *v),
    {
        let fd = match v {
            Bencode::Dict(fd) => fd,
            _ => {
                return Err(MetainfoError::Structure);
            },
        };
        let length: usize = match dict_get(fd, &key_length_vec()) {
            Some(Bencode::Int(l)) => {
                if *l < 0 {
                    return Err(MetainfoError::IntOutOfRange);
                }
                if (*l as u64) > (usize::MAX as u64) {
                    return Err(MetainfoError::IntOutOfRange);
                }
                *l as usize
            },
            _ => {
                return Err(MetainfoError::Structure);
            },
        };
        let ps = match dict_get(fd, &key_path_vec()) {
            Some(Bencode::List(ps)) => ps,
            _ => {
                return Err(MetainfoError::Structure);
            },
        };
        let n = ps.len();
        let mut path: Vec<String> = Vec::new();
        let mut k: usize = 0;
        while k < n
            invariant
                0 <= k <= n,
                n == ps@.len(),
                path@.len() == k,
                forall|j: int| 0 <= j < k ==> path_seg_models(#[trigger] path@[j], ps@[j]),
            decreases n - k,
        {
            match &ps[k] {
                Bencode::Bytes(b) => {
                    proof {
                        assert(ps@[k as int] == Bencode::Bytes(*b));
                    }
                    let ghost bv = b@;
                    match utf8_string(b) {
                        Some(s) => {
                            let ghost sv = s@;
                            path.push(s);
                            proof {
                                assert(path@[k as int]@ == sv);
                                assert(encode_utf8(sv) == bv);
                                assert(valid_utf8(bv));
                                assert(path_seg_models(path@[k as int], ps@[k as int]));
                            }
                        },
                        None => {
                            return Err(MetainfoError::BadText);
                        },
                    }
                },
                _ => {
                    return Err(MetainfoError::Structure);
                },
            }
            k = k + 1;
        }
        proof {
            assert forall|j: int| 0 <= j < ps@.len() implies path_seg_ok(ps@[j]) by {
                assert(path_seg_models(path@[j], ps@[j]));
            }
        }
        Ok(File { length, path })
    }
}

/// Relies on the sha1 crate's `Sha1` digest: the 20-byte SHA-1 of the input,
/// a function of the bytes alone.
#[verifier::external_body]
fn sha1_digest(data: &Vec<u8>) -> (r: Vec<u8>)
    ensures
        r@ == sha1_of(data@),
        r@.len() == 20,
{
    let mut hasher = Sha1::new();
    hasher.update(data.as_slice());
    hasher.finalize().to_vec()
}

/// The 20-byte SHA-1 digest of a byte string.
pub uninterp spec fn sha1_of(b: Seq<u8>) -> Seq<u8>;

/// The declared length of one parsed file list.
pub open spec fn files_len_sum(fs: Seq<File>) -> int
    decreases fs.len(),
{
    if fs.len() == 0 {
        0
    } else {
        fs[0].length + files_len_sum(fs.drop_first())
    }
}

/// The total content length a file layout declares.
pub open spec fn spec_total_bytes(k: Key) -> int {
    match k {
        Key::KeyLength { length } => length as int,
        Key::KeyFiles { files } => files_len_sum(files@),
    }
}

pub proof fn lemma_files_len_sum_split(fs: Seq<File>, j: int)
    requires
        0 <= j <= fs.len(),
    ensures
        files_len_sum(fs) == files_len_sum(fs.take(j)) + files_len_sum(fs.skip(j)),
    decreases j,
{
    if j == 0 {
        assert(fs.take(0int) =~= Seq::<File>::empty());
        assert(fs.skip(0int) =~= fs);
    } else {
        lemma_files_len_sum_split(fs.drop_first(), j - 1);
        assert(fs.take(j).drop_first() =~= fs.drop_first().take(j - 1));
        assert(fs.skip(j) =~= fs.drop_first().skip(j - 1));
        assert(fs.take(j)[0] == fs[0]);
        assert(files_len_sum(fs.take(j)) == fs[0].length + files_len_sum(
            fs.drop_first().take(j - 1),
        ));
    }
}

pub proof fn lemma_files_len_sum_nonneg(fs: Seq<File>)
    ensures
        files_len_sum(fs) >= 0,
    decreases fs.len(),
{
    if fs.len() > 0 {
        lemma_files_len_sum_nonneg(fs.drop_first());
    }
}

impl Info {
    /// Reads the info dictionary out of its bencoded value, keeping the value
    /// itself for byte-exact re-serialization.
    #[verifier::loop_isolation(false)]
    pub fn from_bencode(v: Bencode) -> (r: Result<Info, MetainfoError>)
        ensures
            r is Ok <==> info_ok(v),
            r matches Ok(i) ==> info_models(i, v),
            (v matches Bencode::Dict(ip) && info_prefix_ok(ip@) && info_pieces_bad(ip@)) ==> r
                == Err::<Info, MetainfoError>(MetainfoError::PiecesLength),
            (v matches Bencode::Dict(ip) && info_prefix_ok(ip@) && !info_pieces_bad(ip@)
                && (dict_lookup(ip@, key_pieces()) matches Some(Bencode::Bytes(pb)))
                && info_layout_ambiguous(ip@)) ==> r == Err::<
                Info,
                MetainfoError,
            >(MetainfoError::AmbiguousFileLayout),
    {
        let ip = match &v {
            Bencode::Dict(ip) => ip,
            _ => {
                return Err(MetainfoError::Structure);
            },
        };
        let name: String = match dict_get(ip, &key_name_vec()) {
            Some(Bencode::Bytes(n)) => {
                match utf8_string(n) {
                    Some(s) => s,
                    None => {
                        return Err(MetainfoError::BadText);
                    },
                }
            },
            _ => {
                return Err(MetainfoError::Structure);
            },
        };
        let piece_length: usize = match dict_get(ip, &key_piece_length_vec()) {
            Some(Bencode::Int(pl)) => {
                if *pl < 0 {
                    return Err(MetainfoError::IntOutOfRange);
                }
                if (*pl as u64) > (usize::MAX as u64) {
                    return Err(MetainfoError::IntOutOfRange);
                }
                *pl as usize
            },
            _ => {
                return Err(MetainfoError::Structure);
            },
        };
        let pieces: Pieces = match dict_get(ip, &key_pieces_vec()) {
            Some(Bencode::Bytes(pb)) => {
                if pb.len() % 20 != 0 {
                    return Err(MetainfoError::PiecesLength);
                }
                let n = pb.len() / 20;
                proof {
                    assert(20 * (pb@.len() / 20) == pb@.len());
                }
                let mut chunks: Vec<Piece> = Vec::new();
                let mut k: usize = 0;
                while k < n
                    invariant
                        0 <= k <= n,
                        n == pb@.len() / 20,
                        20 * n == pb@.len(),
                        pb@.len() <= usize::MAX,
                        chunks@.len() == k,
                        forall|j: int|
                            0 <= j < k ==> (#[trigger] chunks@[j]).0@ == pb@.subrange(
                                20 * j,
                                20 * j + 20,
                            ),
                    decreases n - k,
                {
                    let piece = Piece(copy_range(pb, 20 * k, 20 * k + 20));
                    chunks.push(piece);
                    k = k + 1;
                }
                Pieces(chunks)
            },
            _ => {
                return Err(MetainfoError::Structure);
            },
        };
        let lv = dict_get(ip, &key_length_vec());
        let fv = dict_get(ip, &key_files_vec());
        let key: Key = match (lv, fv) {
            (Some(Bencode::Int(l)), Option::None) => {
                if *l < 0 {
                    return Err(MetainfoError::IntOutOfRange);
                }
                if (*l as u64) > (usize::MAX as u64) {
                    return Err(MetainfoError::IntOutOfRange);
                }
                Key::KeyLength { length: *l as usize }
            },
            (Option::None, Some(Bencode::List(fs))) => {
                let n = fs.len();
                let mut files: Vec<File> = Vec::new();
                let mut total: u64 = 0;
                let mut k: usize = 0;
                while k < n
                    invariant
                        0 <= k <= n,
                        n == fs@.len(),
                        files@.len() == k,
                        forall|j: int|
                            0 <= j < k ==> file_ok(#[trigger] fs@[j]) && file_models(
                                files@[j],
                                fs@[j],
                            ),
                        total == files_total(fs@.take(k as int)),
                        total <= usize::MAX,
                    decreases n - k,
                {
                    let f = match File::from_bencode(&fs[k]) {
                        Ok(f) => f,
                        Err(e) => {
                            return Err(e);
                        },
                    };
                    let l = f.length as u64;
                    proof {
                        assert(l == file_length_of(fs@[k as int]));
                        lemma_files_total_split(fs@.take(k + 1), k as int);
                        assert(fs@.take(k + 1).take(k as int) =~= fs@.take(k as int));
                        assert(fs@.take(k + 1).skip(k as int) =~= seq![fs@[k as int]]);
                        assert(seq![fs@[k as int]].drop_first() =~= Seq::<Bencode>::empty());
                        assert(files_total(Seq::<Bencode>::empty()) == 0);
                        assert(seq![fs@[k as int]][0] == fs@[k as int]);
                        assert(files_total(seq![fs@[k as int]]) == file_length_of(
                            fs@[k as int],
                        ));
                    }
                    if total > (usize::MAX as u64) - l {
                        proof {
                            assert(!info_ok(v)) by {
                                if info_ok(v) {
                                    assert(forall|j: int|
                                        0 <= j < fs@.len() ==> file_ok(#[trigger] fs@[j]));
                                    lemma_files_total_split(fs@, k + 1);
                                    assert(forall|j: int|
                                        0 <= j < fs@.skip(k + 1).len() ==> file_ok(
                                            #[trigger] fs@.skip(k + 1)[j],
                                        ));
                                    lemma_files_total_nonneg(fs@.skip(k + 1));
                                    assert(files_total(fs@) > usize::MAX);
                                }
                            }
                        }
                        return Err(MetainfoError::IntOutOfRange);
                    }
                    total = total + l;
                    files.push(f);
                    k = k + 1;
                }
                proof {
                    assert(fs@.take(n as int) =~= fs@);
                }
                Key::KeyFiles { files }
            },
            _ => {
                return Err(MetainfoError::AmbiguousFileLayout);
            },
        };
        Ok(Info { name, piece_length, pieces, key, raw: v })
    }

    /// Re-serializes the info dictionary canonically and hashes it: the
    /// 20-byte SHA-1 of the canonical bencode bytes. Because parsing is
    /// byte-exact, these are the very bytes the dictionary was read from.
    pub fn info_hash(&self) -> (r: Vec<u8>)
        ensures
            r@ == sha1_of(enc(self.raw)),
            r@.len() == 20,
    {
        let mut bytes: Vec<u8> = Vec::new();
        crate::bencode::encode_value(&self.raw, &mut bytes);
        sha1_digest(&bytes)
    }

    /// The total content length: the single file's length, or the sum of the
    /// file lengths.
    #[verifier::loop_isolation(false)]
    pub fn total_bytes(&self) -> (r: usize)
        requires
            spec_total_bytes(self.key) <= usize::MAX,
        ensures
            r == spec_total_bytes(self.key),
    {
        match &self.key {
            Key::KeyLength { length } => *length,
            Key::KeyFiles { files } => {
                let n = files.len();
                let mut total: usize = 0;
                let mut k: usize = 0;
                while k < n
                    invariant
                        0 <= k <= n,
                        n == files@.len(),
                        total == files_len_sum(files@.take(k as int)),
                        files_len_sum(files@) <= usize::MAX,
                    decreases n - k,
                {
                    proof {
                        lemma_files_len_sum_split(files@.take(k + 1), k as int);
                        assert(files@.take(k + 1).take(k as int) =~= files@.take(k as int));
                        assert(files@.take(k + 1).skip(k as int) =~= seq![files@[k as int]]);
                        assert(seq![files@[k as int]].drop_first() =~= Seq::<File>::empty());
                        assert(files_len_sum(Seq::<File>::empty()) == 0);
                        assert(seq![files@[k as int]][0] == files@[k as int]);
                        assert(files_len_sum(seq![files@[k as int]]) == files@[k as int].length);
                        lemma_files_len_sum_split(files@, k + 1);
                        lemma_files_len_sum_nonneg(files@.skip(k + 1));
                    }
                    total = total + files[k].length;
                    k = k + 1;
                }
                proof {
                    assert(files@.take(n as int) =~= files@);
                }
                total
            },
        }
    }

    /// How many pieces the content is divided into.
    pub fn piece_count(&self) -> (r: usize)
        ensures
            r == self.pieces.0@.len(),
    {
        self.pieces.count()
    }
}

impl Metainfo {
    /// Reads a torrent description out of its bencoded value.
    #[verifier::loop_isolation(false)]
    pub fn from_bencode(v: Bencode) -> (r: Result<Metainfo, MetainfoError>)
        ensures
            r is Ok <==> metainfo_ok(v),
            r matches Ok(m) ==> metainfo_models(m, v),
            (v matches Bencode::Dict(pairs) && announce_ok(pairs@) && (dict_lookup(
                pairs@,
                key_info(),
            ) matches Some(Bencode::Dict(ip)) && info_prefix_ok(ip@) && info_pieces_bad(ip@)))
                ==> r == Err::<Metainfo, MetainfoError>(MetainfoError::PiecesLength),
            (v matches Bencode::Dict(pairs) && announce_ok(pairs@) && (dict_lookup(
                pairs@,
                key_info(),
            ) matches Some(Bencode::Dict(ip)) && info_prefix_ok(ip@) && !info_pieces_bad(ip@)
                && (dict_lookup(ip@, key_pieces()) matches Some(Bencode::Bytes(pb)))
                && info_layout_ambiguous(ip@))) ==> r == Err::<
                Metainfo,
                MetainfoError,
            >(MetainfoError::AmbiguousFileLayout),
    {
        let mut pairs = match v {
            Bencode::Dict(pairs) => pairs,
            _ => {
                return Err(MetainfoError::Structure);
            },
        };
        let ghost pairs0 = pairs@;
        let announce: String = match dict_get(&pairs, &key_announce_vec()) {
            Some(Bencode::Bytes(a)) => {
                match utf8_string(a) {
                    Some(s) => s,
                    None => {
                        return Err(MetainfoError::BadText);
                    },
                }
            },
            _ => {
                return Err(MetainfoError::Structure);
            },
        };
        let ik = key_info_vec();
        let n = pairs.len();
        let mut i: usize = 0;
        while i < n
            invariant
                0 <= i <= n,
                n == pairs@.len(),
                pairs@ == pairs0,
                forall|j: int| 0 <= j < i ==> pairs@[j].0@ != key_info(),
            decreases n - i,
        {
            if bytes_eq(&pairs[i].0, &ik) {
                break ;
            }
            i = i + 1;
        }
        if i == n {
            proof {
                lemma_dict_lookup_skip(pairs0, key_info(), n as int);
                assert(pairs0.skip(n as int).len() == 0);
            }
            return Err(MetainfoError::Structure);
        }
        proof {
            lemma_dict_lookup_skip(pairs0, key_info(), i as int);
            assert(pairs0.skip(i as int)[0] == pairs0[i as int]);
            assert(dict_lookup(pairs0, key_info()) == Some(pairs0[i as int].1));
        }
        let entry = pairs.remove(i);
        let info = match Info::from_bencode(entry.1) {
            Ok(info) => info,
            Err(e) => {
                return Err(e);
            },
        };
        Ok(Metainfo { announce, info })
    }

    /// Parses a bencoded torrent buffer whole: the buffer must hold exactly
    /// one valid torrent dictionary, and it parses if and only if such a
    /// dictionary's canonical serialization is the buffer itself. On success
    /// the parsed value re-serializes to the input bytes.
    pub fn parse(data: &Vec<u8>) -> (r: Result<Metainfo, MetainfoError>)
        ensures
            r is Ok <==> exists|v: Bencode| enc(v) == data@ && #[trigger] metainfo_ok(v),
            r matches Ok(m) ==> exists|v: Bencode|
                enc(v) == data@ && #[trigger] metainfo_ok(v) && metainfo_models(m, v),
            (forall|v: Bencode, e: int| !crate::bencode::value_at(data@, 0, v, e)) ==> r == Err::<
                Metainfo,
                MetainfoError,
            >(MetainfoError::Syntax),
            (exists|v: Bencode, e: int|
                e < data@.len() && #[trigger] crate::bencode::value_at(data@, 0, v, e)) ==> r
                == Err::<Metainfo, MetainfoError>(MetainfoError::TrailingBytes),
    {
        proof {
            assert(data@.subrange(0, data@.len() as int) =~= data@);
        }
        let (v, end) = match crate::bencode::parse_value(data, 0) {
            Ok(x) => x,
            Err(_) => {
                proof {
                    assert(!(exists|w: Bencode| enc(w) == data@ && #[trigger] metainfo_ok(w)))
                        by {
                        if exists|w: Bencode| enc(w) == data@ && #[trigger] metainfo_ok(w) {
                            let w = choose|w: Bencode|
                                enc(w) == data@ && #[trigger] metainfo_ok(w);
                            assert(crate::bencode::value_at(data@, 0, w, data@.len() as int));
                            assert(false);
                        }
                    }
                }
                return Err(MetainfoError::Syntax);
            },
        };
        proof {
            assert(crate::bencode::value_at(data@, 0, v, end as int));
        }
        if end != data.len() {
            proof {
                assert(!(exists|w: Bencode| enc(w) == data@ && #[trigger] metainfo_ok(w))) by {
                    if exists|w: Bencode| enc(w) == data@ && #[trigger] metainfo_ok(w) {
                        let w = choose|w: Bencode| enc(w) == data@ && #[trigger] metainfo_ok(w);
                        assert(crate::bencode::value_at(data@, 0, w, data@.len() as int));
                        crate::bencode::lemma_value_at_unique_end(
                            data@,
                            0,
                            v,
                            end as int,
                            w,
                            data@.len() as int,
                        );
                        assert(false);
                    }
                }
            }
            return Err(MetainfoError::TrailingBytes);
        }
        let ghost gv = v;
        proof {
            assert(enc(gv) == data@);
            assert(!(exists|w: Bencode, e: int|
                e < data@.len() && #[trigger] crate::bencode::value_at(data@, 0, w, e))) by {
                if exists|w: Bencode, e: int|
                    e < data@.len() && #[trigger] crate::bencode::value_at(data@, 0, w, e) {
                    let (w, e) = choose|w: Bencode, e: int|
                        e < data@.len() && #[trigger] crate::bencode::value_at(data@, 0, w, e);
                    crate::bencode::lemma_value_at_unique_end(
                        data@,
                        0,
                        gv,
                        data@.len() as int,
                        w,
                        e,
                    );
                    assert(false);
                }
            }
        }
        let m = match Metainfo::from_bencode(v) {
            Ok(m) => m,
            Err(e) => {
                proof {
                    assert(!(exists|w: Bencode| enc(w) == data@ && #[trigger] metainfo_ok(w)))
                        by {
                        if exists|w: Bencode| enc(w) == data@ && #[trigger] metainfo_ok(w) {
                            let w = choose|w: Bencode|
                                enc(w) == data@ && #[trigger] metainfo_ok(w);
                            lemma_metainfo_ok_enc_inv(w, gv);
                            assert(false);
                        }
                    }
                }
                return Err(e);
            },
        };
        proof {
            assert(enc(gv) == data@ && metainfo_ok(gv) && metainfo_models(m, gv));
        }
        Ok(m)
    }

    /// The piece layout.
    pub fn info(&self) -> (r: &Info)
        ensures
            r == &self.info,
    {
        &self.info
    }

    /// The tracker announce URL.
    pub fn announce_url(&self) -> (r: &str)
        ensures
            r@ == self.announce@,
    {
        self.announce.as_str()
    }
}

pub proof fn lemma_files_len_sum_eq(files: Seq<File>, fs: Seq<Bencode>)
    requires
        files.len() == fs.len(),
        forall|i: int| 0 <= i < fs.len() ==> file_models(#[trigger] files[i], fs[i]),
    ensures
        files_len_sum(files) == files_total(fs),
    decreases files.len(),
{
    if files.len() > 0 {
        assert(file_models(files[0], fs[0]));
        assert(files[0].length == file_length_of(fs[0]));
        assert(forall|i: int|
            0 <= i < fs.drop_first().len() ==> (#[trigger] files.drop_first()[i]) == files[i + 1]
                && fs.drop_first()[i] == fs[i + 1]);
        lemma_files_len_sum_eq(files.drop_first(), fs.drop_first());
    }
}

/// Law: a parsed info dictionary's total is addressable on this machine, so
/// `total_bytes` is callable on everything `from_bencode` accepts.
pub proof fn lemma_total_bytes_in_range(i: &Info, v: Bencode)
    requires
        info_models(*i, v),
        info_ok(v),
    ensures
        0 <= spec_total_bytes(i.key) <= usize::MAX,
{
    match i.key {
        Key::KeyLength { length } => {},
        Key::KeyFiles { files } => {
            match v {
                Bencode::Dict(ip) => {
                    match dict_lookup(ip@, key_files()) {
                        Some(Bencode::List(fs)) => {
                            lemma_files_len_sum_eq(files@, fs@);
                            lemma_files_len_sum_nonneg(files@);
                        },
                        _ => {
                            assert(false);
                        },
                    }
                },
                _ => {
                    assert(false);
                },
            }
        },
    }
}

/// Dictionaries that bind, entry by entry, the same keys to values with the
/// same canonical bytes agree on every lookup, up to canonical bytes.
pub proof fn lemma_dict_lookup_enc(
    l1: Seq<(Vec<u8>, Bencode)>,
    l2: Seq<(Vec<u8>, Bencode)>,
    key: Seq<u8>,
)
    requires
        l1.len() == l2.len(),
        forall|i: int|
            0 <= i < l1.len() ==> (#[trigger] l1[i]).0@ == l2[i].0@ && enc(l1[i].1) == enc(
                l2[i].1,
            ),
    ensures
        match (dict_lookup(l1, key), dict_lookup(l2, key)) {
            (Some(w1), Some(w2)) => enc(w1) == enc(w2),
            (Option::None, Option::None) => true,
            _ => false,
        },
    decreases l1.len(),
{
    if l1.len() > 0 {
        assert(l1[0].0@ == l2[0].0@ && enc(l1[0].1) == enc(l2[0].1));
        if l1[0].0@ != key {
            assert(forall|i: int|
                0 <= i < l1.drop_first().len() ==> (#[trigger] l1.drop_first()[i]) == l1[i + 1]
                    && l2.drop_first()[i] == l2[i + 1]);
            lemma_dict_lookup_enc(l1.drop_first(), l2.drop_first(), key);
        }
    }
}

/// The declared length of a file entry is determined by its canonical bytes.
pub proof fn lemma_file_length_of_enc_inv(w1: Bencode, w2: Bencode)
    requires
        enc(w1) == enc(w2),
    ensures
        file_length_of(w1) == file_length_of(w2),
{
    crate::bencode::lemma_enc_inv(w1, w2);
    match (w1, w2) {
        (Bencode::Dict(p1), Bencode::Dict(p2)) => {
            lemma_dict_lookup_enc(p1@, p2@, key_length());
            match (dict_lookup(p1@, key_length()), dict_lookup(p2@, key_length())) {
                (Some(x1), Some(x2)) => {
                    crate::bencode::lemma_enc_inv(x1, x2);
                    crate::bencode::lemma_enc_inv(x2, x1);
                },
                _ => {},
            }
        },
        _ => {
            crate::bencode::lemma_enc_inv(w2, w1);
        },
    }
}

pub proof fn lemma_files_total_enc_pointwise(fs1: Seq<Bencode>, fs2: Seq<Bencode>)
    requires
        fs1.len() == fs2.len(),
        forall|i: int| 0 <= i < fs1.len() ==> enc(#[trigger] fs1[i]) == enc(fs2[i]),
    ensures
        files_total(fs1) == files_total(fs2),
    decreases fs1.len(),
{
    if fs1.len() > 0 {
        assert(enc(fs1[0]) == enc(fs2[0]));
        lemma_file_length_of_enc_inv(fs1[0], fs2[0]);
        assert(forall|i: int|
            0 <= i < fs1.drop_first().len() ==> (#[trigger] fs1.drop_first()[i]) == fs1[i + 1]
                && fs2.drop_first()[i] == fs2[i + 1]);
        lemma_files_total_enc_pointwise(fs1.drop_first(), fs2.drop_first());
    }
}

/// Validity of a file entry is determined by its canonical bytes.
pub proof fn lemma_file_ok_enc_inv(w1: Bencode, w2: Bencode)
    requires
        enc(w1) == enc(w2),
        file_ok(w1),
    ensures
        file_ok(w2),
{
    crate::bencode::lemma_enc_inv(w1, w2);
    match (w1, w2) {
        (Bencode::Dict(p1), Bencode::Dict(p2)) => {
            lemma_dict_lookup_enc(p1@, p2@, key_length());
            match (dict_lookup(p1@, key_length()), dict_lookup(p2@, key_length())) {
                (Some(x1), Some(x2)) => {
                    crate::bencode::lemma_enc_inv(x1, x2);
                },
                _ => {
                    assert(false);
                },
            }
            lemma_dict_lookup_enc(p1@, p2@, key_path());
            match (dict_lookup(p1@, key_path()), dict_lookup(p2@, key_path())) {
                (Some(x1), Some(x2)) => {
                    crate::bencode::lemma_enc_inv(x1, x2);
                    match (x1, x2) {
                        (Bencode::List(s1), Bencode::List(s2)) => {
                            assert forall|k: int|
                                0 <= k < s2@.len() implies path_seg_ok(#[trigger] s2@[k]) by {
                                assert(path_seg_ok(s1@[k]));
                                crate::bencode::lemma_enc_inv(s1@[k], s2@[k]);
                            }
                        },
                        _ => {
                            assert(false);
                        },
                    }
                },
                _ => {
                    assert(false);
                },
            }
        },
        _ => {
            assert(false);
        },
    }
}

/// Validity of an info dictionary is determined by its canonical bytes.
pub proof fn lemma_info_ok_enc_inv(v1: Bencode, v2: Bencode)
    requires
        enc(v1) == enc(v2),
        info_ok(v1),
    ensures
        info_ok(v2),
{
    crate::bencode::lemma_enc_inv(v1, v2);
    match (v1, v2) {
        (Bencode::Dict(p1), Bencode::Dict(p2)) => {
            lemma_dict_lookup_enc(p1@, p2@, key_name());
            match (dict_lookup(p1@, key_name()), dict_lookup(p2@, key_name())) {
                (Some(x1), Some(x2)) => {
                    crate::bencode::lemma_enc_inv(x1, x2);
                },
                _ => {
                    assert(false);
                },
            }
            lemma_dict_lookup_enc(p1@, p2@, key_piece_length());
            match (dict_lookup(p1@, key_piece_length()), dict_lookup(p2@, key_piece_length())) {
                (Some(x1), Some(x2)) => {
                    crate::bencode::lemma_enc_inv(x1, x2);
                },
                _ => {
                    assert(false);
                },
            }
            lemma_dict_lookup_enc(p1@, p2@, key_pieces());
            match (dict_lookup(p1@, key_pieces()), dict_lookup(p2@, key_pieces())) {
                (Some(x1), Some(x2)) => {
                    crate::bencode::lemma_enc_inv(x1, x2);
                },
                _ => {
                    assert(false);
                },
            }
            lemma_dict_lookup_enc(p1@, p2@, key_length());
            lemma_dict_lookup_enc(p1@, p2@, key_files());
            match (dict_lookup(p1@, key_length()), dict_lookup(p1@, key_files())) {
                (Some(x1), Option::None) => {
                    match (dict_lookup(p2@, key_length()), dict_lookup(p2@, key_files())) {
                        (Some(x2), Option::None) => {
                            crate::bencode::lemma_enc_inv(x1, x2);
                        },
                        _ => {
                            assert(false);
                        },
                    }
                },
                (Option::None, Some(x1)) => {
                    match (dict_lookup(p2@, key_length()), dict_lookup(p2@, key_files())) {
                        (Option::None, Some(x2)) => {
                            crate::bencode::lemma_enc_inv(x1, x2);
                            match (x1, x2) {
                                (Bencode::List(fs1), Bencode::List(fs2)) => {
                                    assert forall|k: int|
                                        0 <= k < fs2@.len() implies file_ok(#[trigger] fs2@[k]) by {
                                        assert(file_ok(fs1@[k]));
                                        lemma_file_ok_enc_inv(fs1@[k], fs2@[k]);
                                    }
                                    lemma_files_total_enc_pointwise(fs1@, fs2@);
                                },
                                _ => {
                                    assert(false);
                                },
                            }
                        },
                        _ => {
                            assert(false);
                        },
                    }
                },
                _ => {
                    assert(false);
                },
            }
        },
        _ => {
            assert(false);
        },
    }
}

/// Law: validity of a torrent description is determined by its canonical
/// bytes — byte-equal torrents are accepted or rejected together.
pub proof fn lemma_metainfo_ok_enc_inv(v1: Bencode, v2: Bencode)
    requires
        enc(v1) == enc(v2),
        metainfo_ok(v1),
    ensures
        metainfo_ok(v2),
{
    crate::bencode::lemma_enc_inv(v1, v2);
    match (v1, v2) {
        (Bencode::Dict(p1), Bencode::Dict(p2)) => {
            lemma_dict_lookup_enc(p1@, p2@, key_announce());
            match (dict_lookup(p1@, key_announce()), dict_lookup(p2@, key_announce())) {
                (Some(x1), Some(x2)) => {
                    crate::bencode::lemma_enc_inv(x1, x2);
                },
                _ => {
                    assert(false);
                },
            }
            lemma_dict_lookup_enc(p1@, p2@, key_info());
            match (dict_lookup(p1@, key_info()), dict_lookup(p2@, key_info())) {
                (Some(iv1), Some(iv2)) => {
                    lemma_info_ok_enc_inv(iv1, iv2);
                },
                _ => {
                    assert(false);
                },
            }
        },
        _ => {
            assert(false);
        },
    }
}

/// Law: the info hash is deterministic over the torrent's bytes — two parsed
/// torrents whose bencoded forms serialize to the same bytes hold info
/// dictionaries with the same canonical bytes, and so the same SHA-1 hash.
/// Together with `Metainfo::parse`, whose ensures ties the parsed value's
/// serialization to the input bytes themselves, hashing the same torrent
/// twice yields the same 20 bytes.
pub proof fn lemma_info_hash_deterministic(m1: &Metainfo, m2: &Metainfo, v1: Bencode, v2: Bencode)
    requires
        metainfo_models(*m1, v1),
        metainfo_models(*m2, v2),
        enc(v1) == enc(v2),
    ensures
        enc(m1.info.raw) == enc(m2.info.raw),
        sha1_of(enc(m1.info.raw)) == sha1_of(enc(m2.info.raw)),
{
    match (v1, v2) {
        (Bencode::Dict(p1), Bencode::Dict(p2)) => {
            let x1 = crate::bencode::enc_pairs(p1@) + seq![101u8] + Seq::<u8>::empty();
            let x2 = crate::bencode::enc_pairs(p2@) + seq![101u8] + Seq::<u8>::empty();
            assert(enc(v1) =~= seq![100u8] + x1);
            assert(enc(v2) =~= seq![100u8] + x2);
            crate::bencode::lemma_concat_cancel_left(seq![100u8], x1, x2);
            crate::bencode::lemma_enc_pairs_prefix_free(
                p1@,
                p2@,
                Seq::<u8>::empty(),
                Seq::<u8>::empty(),
            );
            lemma_dict_lookup_enc(p1@, p2@, key_info());
        },
        _ => {
            assert(false);
        },
    }
}

} // verus!
