//! Metadata model of a descriptor, its canonical content hash, the
//! directory-service request and response formats, and the piece/fragment
//! arithmetic with the assembler that turns fragments back into one piece.
use vstd::prelude::*;

use crate::bencode::{
    decode_bencoded_value, encode, spec_dec_digits, spec_encode, spec_encode_bytes,
    spec_int_bytes, BencodeValue, DecodeError,
};
use sha1::Digest;

verus! {

/// The default fragment (block) size requested over the wire.
pub const DEFAULT_BLOCK_SIZE: u32 = 16384;

/// Where a descriptor failed to produce a metadata model.
#[derive(Debug, Clone, Copy, PartialEq, Eq, Structural)]
pub enum MetadataError {
    Decode(DecodeError),
    MissingField,
    InvalidField,
    InvalidPieceHashTable,
}

/// Where a directory-service response failed to parse.
#[derive(Debug, Clone, Copy, PartialEq, Eq, Structural)]
pub enum DirectoryError {
    Decode(DecodeError),
    MissingField,
    InvalidField,
    InvalidPeerList,
}

/// Progress of a whole download.
#[derive(Debug, Clone, Copy, PartialEq, Eq, Structural)]
pub enum TorrentState {
    Init,
    Downloading,
    Seeding,
    Complete,
}

/// Progress of one piece or fragment.
#[derive(Debug, Clone, Copy, PartialEq, Eq, Structural)]
pub enum DownloadState {
    Zero,
    Partial,
    Complete,
}

/// One piece of the target file.
#[derive(Debug, PartialEq, Eq)]
pub struct Piece {
    pub index: u32,
    pub state: DownloadState,
    pub n_blocks: u32,
}

/// One received fragment of a piece; `index` is its ordinal in the piece.
#[derive(Debug, PartialEq, Eq)]
pub struct Block {
    pub index: u32,
    pub state: DownloadState,
    pub bytes: Vec<u8>,
}

/// The content-describing section of a descriptor.
#[derive(Debug, PartialEq, Eq)]
pub struct Info {
    pub length: u32,
    pub name: Vec<u8>,
    pub piece_length: u32,
    pub pieces: Vec<u8>,
}

/// A parsed descriptor: the coordinator address and the content section.
#[derive(Debug, PartialEq, Eq)]
pub struct TorrentFile {
    pub announce: Vec<u8>,
    pub info: Info,
}

/// One download: the descriptor plus the piece table derived from it.
#[derive(Debug, PartialEq, Eq)]
pub struct Torrent {
    pub torrent_file: TorrentFile,
    pub n_pieces: u32,
    pub pieces: Vec<Piece>,
}

pub open spec fn spec_key_announce() -> Seq<u8> {
    seq![97u8, 110u8, 110u8, 111u8, 117u8, 110u8, 99u8, 101u8]
}

pub open spec fn spec_key_info() -> Seq<u8> {
    seq![105u8, 110u8, 102u8, 111u8]
}

pub open spec fn spec_key_name() -> Seq<u8> {
    seq![110u8, 97u8, 109u8, 101u8]
}

pub open spec fn spec_key_length() -> Seq<u8> {
    seq![108u8, 101u8, 110u8, 103u8, 116u8, 104u8]
}

pub open spec fn spec_key_piece_length() -> Seq<u8> {
    seq![112u8, 105u8, 101u8, 99u8, 101u8, 32u8, 108u8, 101u8, 110u8, 103u8, 116u8, 104u8]
}

pub open spec fn spec_key_pieces() -> Seq<u8> {
    seq![112u8, 105u8, 101u8, 99u8, 101u8, 115u8]
}

pub open spec fn spec_key_interval() -> Seq<u8> {
    seq![105u8, 110u8, 116u8, 101u8, 114u8, 118u8, 97u8, 108u8]
}

pub open spec fn spec_key_peers() -> Seq<u8> {
    seq![112u8, 101u8, 101u8, 114u8, 115u8]
}

fn key_announce() -> (r: Vec<u8>)
    ensures
        r@ == spec_key_announce(),
{
    let r = vec![97u8, 110u8, 110u8, 111u8, 117u8, 110u8, 99u8, 101u8];
    proof {
        assert(r@ =~= spec_key_announce());
    }
    r
}

fn key_info() -> (r: Vec<u8>)
    ensures
        r@ == spec_key_info(),
{
    let r = vec![105u8, 110u8, 102u8, 111u8];
    proof {
        assert(r@ =~= spec_key_info());
    }
    r
}

fn key_name() -> (r: Vec<u8>)
    ensures
        r@ == spec_key_name(),
{
    let r = vec![110u8, 97u8, 109u8, 101u8];
    proof {
        assert(r@ =~= spec_key_name());
    }
    r
}

fn key_length() -> (r: Vec<u8>)
    ensures
        r@ == spec_key_length(),
{
    let r = vec![108u8, 101u8, 110u8, 103u8, 116u8, 104u8];
    proof {
        assert(r@ =~= spec_key_length());
    }
    r
}

fn key_piece_length() -> (r: Vec<u8>)
    ensures
        r@ == spec_key_piece_length(),
{
    let r = vec![112u8, 105u8, 101u8, 99u8, 101u8, 32u8, 108u8, 101u8, 110u8, 103u8, 116u8, 104u8];
    proof {
        assert(r@ =~= spec_key_piece_length());
    }
    r
}

fn key_pieces() -> (r: Vec<u8>)
    ensures
        r@ == spec_key_pieces(),
{
    let r = vec![112u8, 105u8, 101u8, 99u8, 101u8, 115u8];
    proof {
        assert(r@ =~= spec_key_pieces());
    }
    r
}

fn key_interval() -> (r: Vec<u8>)
    ensures
        r@ == spec_key_interval(),
{
    let r = vec![105u8, 110u8, 116u8, 101u8, 114u8, 118u8, 97u8, 108u8];
    proof {
        assert(r@ =~= spec_key_interval());
    }
    r
}

fn key_peers() -> (r: Vec<u8>)
    ensures
        r@ == spec_key_peers(),
{
    let r = vec![112u8, 101u8, 101u8, 114u8, 115u8];
    proof {
        assert(r@ =~= spec_key_peers());
    }
    r
}

/// First match for `key` among the pairs of a decoded map.
pub open spec fn spec_pairs_get(s: Seq<(Vec<u8>, BencodeValue)>, key: Seq<u8>) -> Option<
    BencodeValue,
>
    decreases s.len(),
{
    if s.len() == 0 {
        None
    } else if s[0].0@ == key {
        Some(s[0].1)
    } else {
        spec_pairs_get(s.drop_first(), key)
    }
}

/// Lookup in a decoded value: only maps hold entries.
pub open spec fn spec_lookup(v: BencodeValue, key: Seq<u8>) -> Option<BencodeValue> {
    match v {
        BencodeValue::Dict(d) => spec_pairs_get(d@, key),
        _ => None,
    }
}

#[verifier::loop_isolation(false)]
fn vec_bytes_eq(a: &Vec<u8>, b: &Vec<u8>) -> (r: bool)
    ensures
        r == (a@ =~= b@),
{
    if a.len() != b.len() {
        return false;
    }
    let mut i: usize = 0;
    while i < a.len()
        invariant
            i <= a@.len(),
            a@.len() == b@.len(),
            forall|j: int| 0 <= j < i ==> a@[j] == b@[j],
        decreases a@.len() - i,
    {
        if a[i] != b[i] {
            return false;
        }
        i = i + 1;
    }
    proof {
        assert(a@ =~= b@);
    }
    true
}

#[verifier::loop_isolation(false)]
fn copy_bytes(v: &Vec<u8>) -> (r: Vec<u8>)
    ensures
        r@ == v@,
{
    let mut out: Vec<u8> = Vec::new();
    let mut i: usize = 0;
    while i < v.len()
        invariant
            i <= v@.len(),
            out@ == v@.subrange(0, i as int),
        decreases v@.len() - i,
    {
        out.push(v[i]);
        proof {
            assert(out@ =~= v@.subrange(0, i as int + 1));
        }
        i = i + 1;
    }
    proof {
        assert(v@.subrange(0, v@.len() as int) =~= v@);
    }
    out
}

/// First entry of a decoded map under `key`, if any.
#[verifier::loop_isolation(false)]
fn dict_get<'a>(pairs: &'a Vec<(Vec<u8>, BencodeValue)>, key: &Vec<u8>) -> (r: Option<
    &'a BencodeValue,
>)
    ensures
        match r {
            Some(b) => spec_pairs_get(pairs@, key@) == Some(*b),
            None => spec_pairs_get(pairs@, key@) is None,
        },
{
    let mut i: usize = 0;
    proof {
        assert(pairs@.skip(0) =~= pairs@);
    }
    while i < pairs.len()
        invariant
            i <= pairs@.len(),
            spec_pairs_get(pairs@, key@) == spec_pairs_get(pairs@.skip(i as int), key@),
        decreases pairs@.len() - i,
    {
        proof {
            assert(pairs@.skip(i as int)[0] == pairs@[i as int]);
        }
        if vec_bytes_eq(&pairs[i].0, key) {
            return Some(&pairs[i].1);
        }
        proof {
            assert(pairs@.skip(i as int).drop_first() =~= pairs@.skip(i as int + 1));
        }
        i = i + 1;
    }
    proof {
        assert(pairs@.skip(pairs@.len() as int).len() == 0);
    }
    None
}

/// The content section is usable: all four fields present, with the right
/// types and ranges, and a hash table that is a whole number of 20-byte
/// entries.
pub open spec fn spec_info_valid(iv: BencodeValue) -> bool {
    &&& (spec_lookup(iv, spec_key_name()) matches Some(BencodeValue::Bytes(_)))
    &&& (spec_lookup(iv, spec_key_length()) matches Some(BencodeValue::Int(l)) && 0 <= l
        <= 0xffff_ffffi64)
    &&& (spec_lookup(iv, spec_key_piece_length()) matches Some(BencodeValue::Int(p)) && 1 <= p
        <= 0xffff_ffffi64)
    &&& (spec_lookup(iv, spec_key_pieces()) matches Some(BencodeValue::Bytes(b)) && b@.len() % 20
        == 0)
}

/// The whole descriptor is usable.
pub open spec fn spec_torrent_valid(v: BencodeValue) -> bool {
    &&& (spec_lookup(v, spec_key_announce()) matches Some(BencodeValue::Bytes(_)))
    &&& (spec_lookup(v, spec_key_info()) matches Some(iv) && spec_info_valid(iv))
}

/// The parsed fields are exactly the decoded entries of the content section.
pub open spec fn spec_info_matches(iv: BencodeValue, info: Info) -> bool {
    &&& (spec_lookup(iv, spec_key_name()) matches Some(BencodeValue::Bytes(n)) && n@ == info.name@)
    &&& (spec_lookup(iv, spec_key_length()) matches Some(BencodeValue::Int(l)) && l == info.length
        as i64)
    &&& (spec_lookup(iv, spec_key_piece_length()) matches Some(BencodeValue::Int(p)) && p
        == info.piece_length as i64)
    &&& (spec_lookup(iv, spec_key_pieces()) matches Some(BencodeValue::Bytes(b)) && b@
        == info.pieces@)
}

/// Everything before the hash-table check is present and well typed, but the
/// table's length is not a whole number of 20-byte entries.
pub open spec fn spec_bad_hash_table(v: BencodeValue) -> bool {
    &&& (spec_lookup(v, spec_key_announce()) matches Some(BencodeValue::Bytes(_)))
    &&& (spec_lookup(v, spec_key_info()) matches Some(iv) && {
        &&& (spec_lookup(iv, spec_key_name()) matches Some(BencodeValue::Bytes(_)))
        &&& (spec_lookup(iv, spec_key_length()) matches Some(BencodeValue::Int(l)) && 0 <= l
            <= 0xffff_ffffi64)
        &&& (spec_lookup(iv, spec_key_piece_length()) matches Some(BencodeValue::Int(p)) && 1 <= p
            <= 0xffff_ffffi64)
        &&& (spec_lookup(iv, spec_key_pieces()) matches Some(BencodeValue::Bytes(b)) && b@.len()
            % 20 != 0)
    })
}

impl TorrentFile {
    /// Build the metadata model from a decoded descriptor: the coordinator
    /// address and the four content fields, validated.
    pub fn from_value(v: &BencodeValue) -> (r: Result<TorrentFile, MetadataError>)
        ensures
            r is Ok <==> spec_torrent_valid(*v),
            r matches Ok(tf) ==> {
                &&& (spec_lookup(*v, spec_key_announce()) matches Some(BencodeValue::Bytes(a)) && a@
                    == tf.announce@)
                &&& (spec_lookup(*v, spec_key_info()) matches Some(iv) && spec_info_matches(
                    iv,
                    tf.info,
                ))
            },
            spec_bad_hash_table(*v) <==> r == Err::<TorrentFile, MetadataError>(
                MetadataError::InvalidPieceHashTable,
            ),
    {
        let d = match v {
            BencodeValue::Dict(d) => d,
            _ => {
                return Err(MetadataError::MissingField);
            },
        };
        let announce = match dict_get(d, &key_announce()) {
            Some(BencodeValue::Bytes(a)) => copy_bytes(a),
            Some(_) => {
                return Err(MetadataError::InvalidField);
            },
            None => {
                return Err(MetadataError::MissingField);
            },
        };
        let di = match dict_get(d, &key_info()) {
            Some(BencodeValue::Dict(di)) => di,
            Some(_) => {
                return Err(MetadataError::InvalidField);
            },
            None => {
                return Err(MetadataError::MissingField);
            },
        };
        let ghost iv = spec_lookup(*v, spec_key_info()).unwrap();
        let name = match dict_get(di, &key_name()) {
            Some(BencodeValue::Bytes(n)) => copy_bytes(n),
            Some(_) => {
                return Err(MetadataError::InvalidField);
            },
            None => {
                return Err(MetadataError::MissingField);
            },
        };
        let length: u32 = match dict_get(di, &key_length()) {
            Some(BencodeValue::Int(l)) => {
                if 0 <= *l && *l <= 0xffff_ffffi64 {
                    *l as u32
                } else {
                    return Err(MetadataError::InvalidField);
                }
            },
            Some(_) => {
                return Err(MetadataError::InvalidField);
            },
            None => {
                return Err(MetadataError::MissingField);
            },
        };
        let piece_length: u32 = match dict_get(di, &key_piece_length()) {
            Some(BencodeValue::Int(p)) => {
                if 1 <= *p && *p <= 0xffff_ffffi64 {
                    *p as u32
                } else {
                    return Err(MetadataError::InvalidField);
                }
            },
            Some(_) => {
                return Err(MetadataError::InvalidField);
            },
            None => {
                return Err(MetadataError::MissingField);
            },
        };
        let pieces = match dict_get(di, &key_pieces()) {
            Some(BencodeValue::Bytes(b)) => {
                if b.len() % 20 == 0 {
                    copy_bytes(b)
                } else {
                    return Err(MetadataError::InvalidPieceHashTable);
                }
            },
            Some(_) => {
                return Err(MetadataError::InvalidField);
            },
            None => {
                return Err(MetadataError::MissingField);
            },
        };
        Ok(TorrentFile { announce, info: Info { length, name, piece_length, pieces } })
    }
}

/// The 20-byte digest of a byte sequence, as the cryptographic hash
/// computes it; a pure function of the input bytes.
pub uninterp spec fn sha1_of(s: Seq<u8>) -> Seq<u8>;

/// Relies on sha1's `Sha1` through the `Digest` API: the 20-byte digest is a
/// pure function of the input bytes alone.
#[verifier::external_body]
fn sha1_digest(data: &Vec<u8>) -> (r: [u8; 20])
    ensures
        r@ == sha1_of(data@),
{
    let digest = sha1::Sha1::digest(data.as_slice());
    let mut out = [0u8; 20];
    out.copy_from_slice(&digest);
    out
}

/// The canonical encoding of the content section: a map of its four fields
/// with the keys in raw byte order.
pub open spec fn spec_info_encoding(i: Info) -> Seq<u8> {
    seq![100u8] + spec_encode_bytes(spec_key_length()) + (seq![105u8] + spec_int_bytes(
        i.length as int,
    ) + seq![101u8]) + spec_encode_bytes(spec_key_name()) + spec_encode_bytes(i.name@)
        + spec_encode_bytes(spec_key_piece_length()) + (seq![105u8] + spec_int_bytes(
        i.piece_length as int,
    ) + seq![101u8]) + spec_encode_bytes(spec_key_pieces()) + spec_encode_bytes(i.pieces@) + seq![
        101u8,
    ]
}

impl Info {
    /// The content hash: the 160-bit digest of the canonical re-encoding of
    /// the content section. This identifies the content network-wide.
    pub fn hash(&self) -> (r: [u8; 20])
        ensures
            r@ == sha1_of(spec_info_encoding(*self)),
    {
        let mut pairs: Vec<(Vec<u8>, BencodeValue)> = Vec::new();
        pairs.push((key_length(), BencodeValue::Int(self.length as i64)));
        pairs.push((key_name(), BencodeValue::Bytes(copy_bytes(&self.name))));
        pairs.push((key_piece_length(), BencodeValue::Int(self.piece_length as i64)));
        pairs.push((key_pieces(), BencodeValue::Bytes(copy_bytes(&self.pieces))));
        let value = BencodeValue::Dict(pairs);
        let encoded = encode(&value);
        proof {
            lemma_info_encoding(value, *self);
        }
        sha1_digest(&encoded)
    }
}

/// Unfolds the generic encoder over the four-field content map into the
/// canonical byte layout.
proof fn lemma_info_encoding(value: BencodeValue, i: Info)
    requires
        value matches BencodeValue::Dict(pairs) && {
            &&& pairs@.len() == 4
            &&& pairs@[0].0@ == spec_key_length()
            &&& pairs@[0].1 == BencodeValue::Int(i.length as i64)
            &&& pairs@[1].0@ == spec_key_name()
            &&& (pairs@[1].1 matches BencodeValue::Bytes(n) && n@ == i.name@)
            &&& pairs@[2].0@ == spec_key_piece_length()
            &&& pairs@[2].1 == BencodeValue::Int(i.piece_length as i64)
            &&& pairs@[3].0@ == spec_key_pieces()
            &&& (pairs@[3].1 matches BencodeValue::Bytes(b) && b@ == i.pieces@)
        },
    ensures
        spec_encode(value) == spec_info_encoding(i),
{
    let pairs = value->Dict_0;
    let s = pairs@;
    let s1 = s.drop_first();
    let s2 = s1.drop_first();
    let s3 = s2.drop_first();
    let s4 = s3.drop_first();
    assert(s1[0] == s[1] && s2[0] == s[2] && s3[0] == s[3]);
    assert(s4.len() == 0);
    assert(crate::bencode::spec_encode_pairs(s4) == Seq::<u8>::empty());
    assert(crate::bencode::spec_encode_pairs(s3) == spec_encode_bytes(s[3].0@) + spec_encode(
        s[3].1,
    ) + crate::bencode::spec_encode_pairs(s4));
    assert(crate::bencode::spec_encode_pairs(s2) == spec_encode_bytes(s[2].0@) + spec_encode(
        s[2].1,
    ) + crate::bencode::spec_encode_pairs(s3));
    assert(crate::bencode::spec_encode_pairs(s1) == spec_encode_bytes(s[1].0@) + spec_encode(
        s[1].1,
    ) + crate::bencode::spec_encode_pairs(s2));
    assert(crate::bencode::spec_encode_pairs(s) == spec_encode_bytes(s[0].0@) + spec_encode(s[0].1)
        + crate::bencode::spec_encode_pairs(s1));
    assert(spec_encode(value) == seq![100u8] + crate::bencode::spec_encode_pairs(s) + seq![101u8]);
    assert(spec_encode(s[0].1) == seq![105u8] + spec_int_bytes(i.length as int) + seq![101u8]);
    assert(spec_encode(s[2].1) == seq![105u8] + spec_int_bytes(i.piece_length as int) + seq![
        101u8,
    ]);
    assert(spec_encode(s[1].1) == spec_encode_bytes(i.name@));
    assert(spec_encode(s[3].1) == spec_encode_bytes(i.pieces@));
    assert(spec_encode(value) =~= spec_info_encoding(i));
}

/// Law: the content hash is deterministic. Two content sections whose
/// fields hold the same values have the same canonical encoding, and so the
/// same 20-byte digest.
pub proof fn lemma_content_hash_deterministic(a: Info, b: Info)
    requires
        a.length == b.length,
        a.name@ == b.name@,
        a.piece_length == b.piece_length,
        a.pieces@ == b.pieces@,
    ensures
        sha1_of(spec_info_encoding(a)) == sha1_of(spec_info_encoding(b)),
{
    assert(spec_info_encoding(a) =~= spec_info_encoding(b));
}


/// Number of chunks of size `csize` needed to cover `total` bytes.
pub open spec fn spec_chunk_count(total: int, csize: int) -> int {
    (total + csize - 1) / csize
}

/// Size of chunk `i`: the full `csize` for every chunk but the last, the
/// remainder (or the full size when the remainder is zero) for the last.
pub open spec fn spec_chunk_size(total: int, csize: int, i: int) -> int {
    if i == spec_chunk_count(total, csize) - 1 {
        total - (spec_chunk_count(total, csize) - 1) * csize
    } else {
        csize
    }
}

/// Law: the chunks of a span partition it exactly. Every chunk before the
/// last has the full chunk size; the last carries the remainder of the
/// division, or a full chunk when the remainder is zero; the sizes sum to
/// the whole span. This holds both for the pieces of the file (chunk size =
/// piece length) and for the fragments of a piece (chunk size = the default
/// fragment size).
pub proof fn lemma_chunk_partition(total: int, csize: int)
    requires
        total >= 0,
        csize >= 1,
    ensures
        total == 0 ==> spec_chunk_count(total, csize) == 0,
        total >= 1 ==> 1 <= spec_chunk_count(total, csize) <= total,
        forall|j: int|
            0 <= j < spec_chunk_count(total, csize) - 1 ==> spec_chunk_size(total, csize, j)
                == csize,
        total >= 1 ==> 1 <= spec_chunk_size(total, csize, spec_chunk_count(total, csize) - 1)
            <= csize,
        total >= 1 ==> (spec_chunk_count(total, csize) - 1) * csize + spec_chunk_size(
            total,
            csize,
            spec_chunk_count(total, csize) - 1,
        ) == total,
        total >= 1 ==> spec_chunk_size(total, csize, spec_chunk_count(total, csize) - 1) == (
        if total % csize == 0 {
            csize
        } else {
            total % csize
        }),
{
    let n = spec_chunk_count(total, csize);
    let x = total + csize - 1;
    vstd::arithmetic::div_mod::lemma_fundamental_div_mod(x, csize);
    vstd::arithmetic::div_mod::lemma_mod_bound(x, csize);
    let r = x % csize;
    assert(x == csize * n + r);
    assert(0 <= r < csize);
    if total == 0 {
        assert(csize * n == csize - 1 - r);
        assert(n == 0) by (nonlinear_arith)
            requires
                csize * n == csize - 1 - r,
                0 <= r < csize,
                csize >= 1,
        ;
    } else {
        assert(n * csize >= total) by (nonlinear_arith)
            requires
                csize * n + r == total + csize - 1,
                0 <= r < csize,
        ;
        assert((n - 1) * csize == n * csize - csize) by (nonlinear_arith);
        assert((n - 1) * csize < total) by (nonlinear_arith)
            requires
                csize * n + r == total + csize - 1,
                0 <= r < csize,
        ;
        assert(n >= 1) by (nonlinear_arith)
            requires
                n * csize >= total,
                total >= 1,
                csize >= 1,
        ;
        assert(n - 1 <= (n - 1) * csize) by (nonlinear_arith)
            requires
                n >= 1,
                csize >= 1,
        ;
        let last = total - (n - 1) * csize;
        assert(1 <= last <= csize);
        if last == csize {
            assert(total == n * csize);
            vstd::arithmetic::div_mod::lemma_fundamental_div_mod_converse(total, csize, n, 0);
            assert(total % csize == 0);
        } else {
            vstd::arithmetic::div_mod::lemma_fundamental_div_mod_converse(
                total,
                csize,
                n - 1,
                last,
            );
            assert(total % csize == last);
        }
    }
}

/// Chunks of size `csize` needed to cover `total` bytes.
pub fn chunk_count(total: u32, csize: u32) -> (r: u32)
    requires
        csize >= 1,
    ensures
        r as int == spec_chunk_count(total as int, csize as int),
{
    proof {
        lemma_chunk_partition(total as int, csize as int);
    }
    let n = ((total as u64) + (csize as u64) - 1) / (csize as u64);
    n as u32
}

/// Size of chunk `i` of a span of `total` bytes cut into `csize` chunks.
pub fn chunk_size_at(total: u32, csize: u32, i: u32) -> (r: u32)
    requires
        csize >= 1,
        (i as int) < spec_chunk_count(total as int, csize as int),
    ensures
        r as int == spec_chunk_size(total as int, csize as int, i as int),
        1 <= r <= csize,
{
    proof {
        lemma_chunk_partition(total as int, csize as int);
    }
    let n = chunk_count(total, csize);
    if i == n - 1 {
        let used = ((n - 1) as u64) * (csize as u64);
        proof {
            assert(((n - 1) as u64) * (csize as u64) == (n as int - 1) * (csize as int))
                by (nonlinear_arith)
                requires
                    n >= 1,
            ;
        }
        (total as u64 - used) as u32
    } else {
        csize
    }
}

/// The piece table of a download is exactly what its descriptor dictates.
pub open spec fn spec_torrent_wf(t: Torrent) -> bool {
    let total = t.torrent_file.info.length as int;
    let plen = t.torrent_file.info.piece_length as int;
    &&& t.torrent_file.info.piece_length >= 1
    &&& t.torrent_file.info.pieces@.len() % 20 == 0
    &&& t.n_pieces as int == spec_chunk_count(total, plen)
    &&& t.pieces@.len() == t.n_pieces as int
    &&& forall|i: int|
        0 <= i < t.pieces@.len() ==> {
            &&& (#[trigger] t.pieces@[i]).index == i
            &&& t.pieces@[i].n_blocks as int == spec_chunk_count(
                spec_chunk_size(total, plen, i),
                DEFAULT_BLOCK_SIZE as int,
            )
            &&& t.pieces@[i].state is Zero
        }
}

impl Torrent {
    /// Parse a raw descriptor and derive its piece table: one piece per
    /// piece-length span of the target, each cut into default-size
    /// fragments with the final remainders sized exactly.
    pub fn from_bytes(file: &Vec<u8>) -> (r: Result<Torrent, MetadataError>)
        ensures
            r matches Ok(t) ==> spec_torrent_wf(t),
            r matches Ok(t) ==> exists|v: BencodeValue, n: int|
                #![trigger spec_encode(v), file@.subrange(0, n)]
                {
                &&& 0 < n <= file@.len()
                &&& spec_encode(v) == file@.subrange(0, n)
                &&& spec_torrent_valid(v)
                &&& (spec_lookup(v, spec_key_announce()) matches Some(BencodeValue::Bytes(a)) && a@
                    == t.torrent_file.announce@)
                &&& (spec_lookup(v, spec_key_info()) matches Some(iv) && spec_info_matches(
                    iv,
                    t.torrent_file.info,
                ))
            },
            r matches Err(e) ==> !(e matches MetadataError::Decode(_)) ==> exists|
                v: BencodeValue,
                n: int,
            |
                #![trigger spec_encode(v), file@.subrange(0, n)]
                {
                &&& 0 < n <= file@.len()
                &&& spec_encode(v) == file@.subrange(0, n)
                &&& !spec_torrent_valid(v)
                &&& (spec_bad_hash_table(v) <==> e == MetadataError::InvalidPieceHashTable)
            },
            ((exists|v: BencodeValue, n: int| crate::bencode::encoding_at(file@, 0, n, v))
                && (forall|v: BencodeValue, n: int|
                crate::bencode::encoding_at(file@, 0, n, v) ==> spec_torrent_valid(v))) ==> r
                is Ok,
    {
        let (value, n) = match decode_bencoded_value(file) {
            Ok(p) => p,
            Err(e) => {
                return Err(MetadataError::Decode(e));
            },
        };
        let tf = match TorrentFile::from_value(&value) {
            Ok(tf) => tf,
            Err(e) => {
                proof {
                    let v0 = value;
                    let n0 = n as int;
                    assert({
                        &&& 0 < n0 <= file@.len()
                        &&& spec_encode(v0) == file@.subrange(0, n0)
                        &&& !spec_torrent_valid(v0)
                        &&& (spec_bad_hash_table(v0) <==> e == MetadataError::InvalidPieceHashTable)
                    });
                    assert(crate::bencode::encoding_at(file@, 0, n0, v0));
                }
                return Err(e);
            },
        };
        let total = tf.info.length;
        let plen = tf.info.piece_length;
        let n_pieces = chunk_count(total, plen);
        proof {
            lemma_chunk_partition(total as int, plen as int);
        }
        let mut pieces: Vec<Piece> = Vec::new();
        let mut index: u32 = 0;
        while index < n_pieces
            invariant
                plen >= 1,
                n_pieces as int == spec_chunk_count(total as int, plen as int),
                index <= n_pieces,
                pieces@.len() == index as int,
                forall|i: int|
                    0 <= i < pieces@.len() ==> {
                        &&& (#[trigger] pieces@[i]).index == i
                        &&& pieces@[i].n_blocks as int == spec_chunk_count(
                            spec_chunk_size(total as int, plen as int, i),
                            DEFAULT_BLOCK_SIZE as int,
                        )
                        &&& pieces@[i].state is Zero
                    },
            decreases n_pieces - index,
        {
            let psize = chunk_size_at(total, plen, index);
            let n_blocks = chunk_count(psize, DEFAULT_BLOCK_SIZE);
            pieces.push(Piece { index, state: DownloadState::Zero, n_blocks });
            index = index + 1;
        }
        let t = Torrent { torrent_file: tf, n_pieces, pieces };
        proof {
            let v0 = value;
            let n0 = n as int;
            assert({
                &&& 0 < n0 <= file@.len()
                &&& spec_encode(v0) == file@.subrange(0, n0)
                &&& spec_torrent_valid(v0)
                &&& (spec_lookup(v0, spec_key_announce()) matches Some(BencodeValue::Bytes(a)) && a@
                    == t.torrent_file.announce@)
                &&& (spec_lookup(v0, spec_key_info()) matches Some(iv) && spec_info_matches(
                    iv,
                    t.torrent_file.info,
                ))
            });
        }
        Ok(t)
    }

    /// The byte size of one piece: the piece length, except that the final
    /// piece carries the remainder of the target length.
    pub fn piece_size(&self, piece_index: u32) -> (r: u32)
        requires
            spec_torrent_wf(*self),
            piece_index < self.n_pieces,
        ensures
            r as int == spec_chunk_size(
                self.torrent_file.info.length as int,
                self.torrent_file.info.piece_length as int,
                piece_index as int,
            ),
            r >= 1,
    {
        chunk_size_at(self.torrent_file.info.length, self.torrent_file.info.piece_length,
            piece_index)
    }

    /// The expected 20-byte content hash of one piece, read from the
    /// descriptor's hash table.
    #[verifier::loop_isolation(false)]
    pub fn piece_hash(&self, piece_index: u32) -> (r: Vec<u8>)
        requires
            (piece_index as int + 1) * 20 <= self.torrent_file.info.pieces@.len(),
        ensures
            r@ == self.torrent_file.info.pieces@.subrange(
                piece_index as int * 20,
                piece_index as int * 20 + 20,
            ),
    {
        let table_len = self.torrent_file.info.pieces.len();
        proof {
            assert(table_len == self.torrent_file.info.pieces@.len());
        }
        let start = (piece_index as usize) * 20;
        let mut out: Vec<u8> = Vec::new();
        let mut i: usize = 0;
        while i < 20
            invariant
                i <= 20,
                start == piece_index as int * 20,
                start + 20 <= self.torrent_file.info.pieces@.len(),
                out@ == self.torrent_file.info.pieces@.subrange(start as int, start + i as int),
            decreases 20 - i,
        {
            out.push(self.torrent_file.info.pieces[start + i]);
            proof {
                assert(out@ =~= self.torrent_file.info.pieces@.subrange(
                    start as int,
                    start + i + 1int,
                ));
            }
            i = i + 1;
        }
        out
    }

    /// Begin collecting the fragments of one piece.
    pub fn start_piece(&self, piece_index: u32) -> (a: PieceAssembly)
        requires
            spec_torrent_wf(*self),
            piece_index < self.n_pieces,
        ensures
            spec_assembly_wf(a),
            a.piece_index == piece_index,
            a.piece_size as int == spec_chunk_size(
                self.torrent_file.info.length as int,
                self.torrent_file.info.piece_length as int,
                piece_index as int,
            ),
            a.next_block == 0,
            a.blocks@.len() == 0,
    {
        let piece_size = self.piece_size(piece_index);
        let n_blocks = chunk_count(piece_size, DEFAULT_BLOCK_SIZE);
        PieceAssembly { piece_index, piece_size, n_blocks, next_block: 0, blocks: Vec::new() }
    }
}

/// Whether a completed piece's bytes carry the expected 20-byte content
/// hash; the check the caller applies after assembly.
pub fn piece_hash_matches(piece: &Vec<u8>, expected: &Vec<u8>) -> (r: bool)
    ensures
        r == (expected@ =~= sha1_of(piece@)),
{
    let digest = sha1_digest(piece);
    if expected.len() != 20 {
        return false;
    }
    let mut i: usize = 0;
    while i < 20
        invariant
            i <= 20,
            expected@.len() == 20,
            digest@ == sha1_of(piece@),
            forall|j: int| 0 <= j < i ==> expected@[j] == digest@[j],
        decreases 20 - i,
    {
        if expected[i] != digest[i] {
            return false;
        }
        i = i + 1;
    }
    proof {
        assert(expected@ =~= digest@);
    }
    true
}

/// Why a fragment exchange failed.
#[derive(Debug, Clone, Copy, PartialEq, Eq, Structural)]
pub enum AssemblyError {
    MalformedPiecePayload,
    UnexpectedFragment,
}

/// Collects the fragments of one piece, requested strictly in order.
pub struct PieceAssembly {
    pub piece_index: u32,
    pub piece_size: u32,
    pub n_blocks: u32,
    pub next_block: u32,
    pub blocks: Vec<Block>,
}

/// Every collected fragment sits at its ordinal with exactly the size the
/// piece arithmetic dictates.
pub open spec fn spec_assembly_wf(a: PieceAssembly) -> bool {
    &&& a.piece_size >= 1
    &&& a.n_blocks as int == spec_chunk_count(a.piece_size as int, DEFAULT_BLOCK_SIZE as int)
    &&& a.next_block <= a.n_blocks
    &&& a.blocks@.len() <= a.next_block as int
    &&& a.next_block as int <= a.blocks@.len() + 1
    &&& forall|k: int|
        0 <= k < a.blocks@.len() ==> {
            &&& (#[trigger] a.blocks@[k]).index == k
            &&& a.blocks@[k].bytes@.len() == spec_chunk_size(
                a.piece_size as int,
                DEFAULT_BLOCK_SIZE as int,
                k,
            )
            &&& a.blocks@[k].state is Complete
        }
}

/// The collected fragments concatenated in ordinal order.
pub open spec fn spec_assembled(s: Seq<Block>) -> Seq<u8>
    decreases s.len(),
{
    if s.len() == 0 {
        Seq::empty()
    } else {
        spec_assembled(s.drop_last()) + s.last().bytes@
    }
}

impl PieceAssembly {
    /// The next fragment request, in increasing ordinal order: offset is the
    /// ordinal times the default fragment size, length is the exact
    /// fragment size. Returns nothing once every fragment was requested.
    pub fn next_request(&mut self) -> (r: Option<crate::peer::RequestPayload>)
        requires
            spec_assembly_wf(*old(self)),
            old(self).blocks@.len() == old(self).next_block as int,
        ensures
            spec_assembly_wf(*final(self)),
            final(self).piece_index == old(self).piece_index,
            final(self).piece_size == old(self).piece_size,
            final(self).n_blocks == old(self).n_blocks,
            final(self).blocks@ == old(self).blocks@,
            old(self).next_block < old(self).n_blocks ==> (r matches Some(p) && {
                &&& p.index == old(self).piece_index
                &&& p.begin as int == old(self).next_block as int * DEFAULT_BLOCK_SIZE as int
                &&& p.length@ == crate::peer::spec_u32_be(
                    spec_chunk_size(
                        old(self).piece_size as int,
                        DEFAULT_BLOCK_SIZE as int,
                        old(self).next_block as int,
                    ) as u32,
                )
                &&& final(self).next_block == old(self).next_block + 1
            }),
            old(self).next_block == old(self).n_blocks ==> (r is None && final(self).next_block
                == old(self).next_block),
    {
        if self.next_block >= self.n_blocks {
            return None;
        }
        proof {
            lemma_chunk_partition(self.piece_size as int, DEFAULT_BLOCK_SIZE as int);
        }
        let length = chunk_size_at(self.piece_size, DEFAULT_BLOCK_SIZE, self.next_block);
        let begin = self.next_block * DEFAULT_BLOCK_SIZE;
        let payload = crate::peer::RequestPayload {
            index: self.piece_index,
            begin,
            length: crate::peer::u32_to_be(length),
        };
        self.next_block = self.next_block + 1;
        Some(payload)
    }

    /// Judge one received frame while a fragment request is outstanding:
    /// anything but a fragment-response frame is drained; a fragment
    /// response must carry this piece's index, the awaited offset and the
    /// exact fragment size, and is then recorded at its ordinal.
    pub fn on_frame(&mut self, length: u32, id_byte: u8, payload: Vec<u8>) -> (r: Result<
        bool,
        AssemblyError,
    >)
        requires
            spec_assembly_wf(*old(self)),
            old(self).blocks@.len() + 1 == old(self).next_block as int,
            length >= 1,
            payload@.len() == length - 1,
        ensures
            spec_assembly_wf(*final(self)),
            final(self).piece_index == old(self).piece_index,
            final(self).piece_size == old(self).piece_size,
            final(self).n_blocks == old(self).n_blocks,
            final(self).next_block == old(self).next_block,
            id_byte != 7 ==> (r == Ok::<bool, AssemblyError>(false) && final(self).blocks@ == old(
                self,
            ).blocks@),
            id_byte == 7 && payload@.len() < 8 ==> (r == Err::<bool, AssemblyError>(
                AssemblyError::MalformedPiecePayload,
            ) && final(self).blocks@ == old(self).blocks@),
            id_byte == 7 && payload@.len() >= 8 ==> {
                let idx = crate::peer::spec_u32_from_be(
                    payload@[0],
                    payload@[1],
                    payload@[2],
                    payload@[3],
                );
                let beg = crate::peer::spec_u32_from_be(
                    payload@[4],
                    payload@[5],
                    payload@[6],
                    payload@[7],
                );
                let want = spec_chunk_size(
                    old(self).piece_size as int,
                    DEFAULT_BLOCK_SIZE as int,
                    old(self).blocks@.len() as int,
                );
                if idx == old(self).piece_index as int && beg == old(self).blocks@.len() as int
                    * DEFAULT_BLOCK_SIZE as int && payload@.len() - 8 == want {
                    &&& r == Ok::<bool, AssemblyError>(true)
                    &&& final(self).blocks@.len() == old(self).blocks@.len() + 1
                    &&& final(self).blocks@.subrange(0, old(self).blocks@.len() as int) == old(
                        self,
                    ).blocks@
                    &&& final(self).blocks@.last().index as int == old(self).blocks@.len()
                    &&& final(self).blocks@.last().bytes@ == payload@.subrange(
                        8,
                        payload@.len() as int,
                    )
                    &&& final(self).blocks@.last().state is Complete
                } else {
                    &&& r == Err::<bool, AssemblyError>(AssemblyError::UnexpectedFragment)
                    &&& final(self).blocks@ == old(self).blocks@
                }
            },
    {
        if id_byte != 7 {
            return Ok(false);
        }
        if payload.len() < 8 {
            return Err(AssemblyError::MalformedPiecePayload);
        }
        let piece = crate::peer::PiecePayload::from_bytes(payload);
        let ordinal = self.blocks.len() as u32;
        proof {
            lemma_chunk_partition(self.piece_size as int, DEFAULT_BLOCK_SIZE as int);
        }
        let want = chunk_size_at(self.piece_size, DEFAULT_BLOCK_SIZE, ordinal);
        if piece.index != self.piece_index {
            return Err(AssemblyError::UnexpectedFragment);
        }
        if piece.begin != ordinal * DEFAULT_BLOCK_SIZE {
            return Err(AssemblyError::UnexpectedFragment);
        }
        if piece.block_bytes.len() != want as usize {
            return Err(AssemblyError::UnexpectedFragment);
        }
        let block = Block {
            index: ordinal,
            state: DownloadState::Complete,
            bytes: piece.block_bytes,
        };
        self.blocks.push(block);
        proof {
            assert(final(self).blocks@.subrange(0, old(self).blocks@.len() as int) =~= old(
                self,
            ).blocks@);
        }
        Ok(true)
    }

    /// Whether every fragment was requested and received.
    pub fn is_complete(&self) -> (r: bool)
        ensures
            r == (self.next_block == self.n_blocks && self.blocks@.len() == self.n_blocks as int),
    {
        self.next_block == self.n_blocks && self.blocks.len() == self.n_blocks as usize
    }

    /// Concatenate the collected fragments, in ordinal order, into the
    /// piece's contiguous bytes; the result is exactly as long as the piece.
    #[verifier::loop_isolation(false)]
    pub fn assemble(&self) -> (r: Vec<u8>)
        requires
            spec_assembly_wf(*self),
            self.blocks@.len() == self.n_blocks as int,
        ensures
            r@ == spec_assembled(self.blocks@),
            r@.len() == self.piece_size as int,
    {
        proof {
            lemma_chunk_partition(self.piece_size as int, DEFAULT_BLOCK_SIZE as int);
        }
        let mut out: Vec<u8> = Vec::new();
        let mut k: usize = 0;
        proof {
            assert(self.blocks@.subrange(0, 0) =~= Seq::<Block>::empty());
        }
        while k < self.blocks.len()
            invariant
                k <= self.blocks@.len(),
                out@ == spec_assembled(self.blocks@.subrange(0, k as int)),
                out@.len() == (if k < self.blocks@.len() {
                    k as int * DEFAULT_BLOCK_SIZE as int
                } else {
                    self.piece_size as int
                }),
            decreases self.blocks@.len() - k,
        {
            let b = &self.blocks[k];
            let ghost pre = out@;
            let mut i: usize = 0;
            while i < b.bytes.len()
                invariant
                    i <= b.bytes@.len(),
                    out@ == pre + b.bytes@.subrange(0, i as int),
                decreases b.bytes@.len() - i,
            {
                out.push(b.bytes[i]);
                proof {
                    assert(out@ =~= pre + b.bytes@.subrange(0, i as int + 1));
                }
                i = i + 1;
            }
            proof {
                assert(b.bytes@.subrange(0, b.bytes@.len() as int) =~= b.bytes@);
                let sub = self.blocks@.subrange(0, k as int + 1);
                assert(sub.drop_last() =~= self.blocks@.subrange(0, k as int));
                assert(sub.last() == self.blocks@[k as int]);
                assert(out@ == spec_assembled(sub));
            }
            k = k + 1;
        }
        proof {
            assert(self.blocks@.subrange(0, self.blocks@.len() as int) =~= self.blocks@);
        }
        out
    }
}


/// A byte that every form encoder leaves unchanged: letters, digits,
/// `*`, `-`, `.`, `_`.
pub open spec fn is_urlsafe(b: u8) -> bool {
    ||| 48 <= b <= 57
    ||| 65 <= b <= 90
    ||| 97 <= b <= 122
    ||| b == 42u8
    ||| b == 45u8
    ||| b == 46u8
    ||| b == 95u8
}

pub open spec fn all_urlsafe(s: Seq<u8>) -> bool {
    forall|j: int| 0 <= j < s.len() ==> is_urlsafe(s[j])
}

/// The form-encoded rendering of key/value pairs whose bytes need no
/// escaping: `key=value` joined by `&`.
pub open spec fn spec_query_join(s: Seq<(Vec<u8>, Vec<u8>)>) -> Seq<u8>
    decreases s.len(),
{
    if s.len() == 0 {
        Seq::empty()
    } else if s.len() == 1 {
        s[0].0@ + seq![61u8] + s[0].1@
    } else {
        s[0].0@ + seq![61u8] + s[0].1@ + seq![38u8] + spec_query_join(s.drop_first())
    }
}

/// Relies on serde_urlencoded::to_string over a sequence of string pairs:
/// bytes in the unreserved set pass through unchanged, each pair is written
/// `key=value`, and pairs are joined with `&`. String pairs never fail to
/// serialise.
#[verifier::external_body]
fn urlencode_pairs(pairs: &Vec<(Vec<u8>, Vec<u8>)>) -> (r: Vec<u8>)
    requires
        forall|i: int|
            0 <= i < pairs@.len() ==> all_urlsafe((#[trigger] pairs@[i]).0@) && all_urlsafe(
                pairs@[i].1@,
            ),
    ensures
        r@ == spec_query_join(pairs@),
{
    let strs: Vec<(String, String)> = pairs.iter().map(
        |p: &(Vec<u8>, Vec<u8>)|
            (
                String::from_utf8_lossy(&p.0).into_owned(),
                String::from_utf8_lossy(&p.1).into_owned(),
            ),
    ).collect();
    match serde_urlencoded::to_string(&strs) {
        Ok(s) => s.into_bytes(),
        Err(_) => Vec::new(),
    }
}

/// The lowercase hex digit of a value below 16.
pub open spec fn spec_hex_digit(n: int) -> u8 {
    if n < 10 {
        (48 + n) as u8
    } else {
        (87 + n) as u8
    }
}

/// Two lowercase hex digits for each byte, in order.
pub open spec fn spec_hex_seq(s: Seq<u8>) -> Seq<u8>
    decreases s.len(),
{
    if s.len() == 0 {
        Seq::empty()
    } else {
        spec_hex_seq(s.drop_last()) + seq![
            spec_hex_digit(s.last() as int / 16),
            spec_hex_digit(s.last() as int % 16),
        ]
    }
}

/// Each byte rendered as `%` and two lowercase hex digits, in order.
pub open spec fn spec_percent_hex(s: Seq<u8>) -> Seq<u8>
    decreases s.len(),
{
    if s.len() == 0 {
        Seq::empty()
    } else {
        spec_percent_hex(s.drop_last()) + seq![
            37u8,
            spec_hex_digit(s.last() as int / 16),
            spec_hex_digit(s.last() as int % 16),
        ]
    }
}

/// Relies on hex::encode: two lowercase hex digits for each input byte, in
/// input order.
#[verifier::external_body]
fn hex_encode_bytes(data: &Vec<u8>) -> (r: Vec<u8>)
    ensures
        r@ == spec_hex_seq(data@),
{
    hex::encode(data).into_bytes()
}

/// The URL-escaped form of the content hash: every byte percent-escaped as
/// a two-digit hex pair, for exact byte fidelity through the directory
/// request.
#[verifier::loop_isolation(false)]
pub fn urlencode_info_hash(hash: &[u8; 20]) -> (r: Vec<u8>)
    ensures
        r@ == spec_percent_hex(hash@),
{
    let mut out: Vec<u8> = Vec::new();
    let mut i: usize = 0;
    proof {
        assert(hash@.subrange(0, 0) =~= Seq::<u8>::empty());
    }
    while i < 20
        invariant
            i <= 20,
            out@ == spec_percent_hex(hash@.subrange(0, i as int)),
        decreases 20 - i,
    {
        let b = hash[i];
        let mut one: Vec<u8> = Vec::new();
        one.push(b);
        let h = hex_encode_bytes(&one);
        proof {
            assert(one@.drop_last() =~= Seq::<u8>::empty());
            assert(spec_hex_seq(Seq::<u8>::empty()) == Seq::<u8>::empty());
            assert(one@.last() == b);
            assert(spec_hex_seq(one@) == spec_hex_seq(one@.drop_last()) + seq![
                spec_hex_digit(one@.last() as int / 16),
                spec_hex_digit(one@.last() as int % 16),
            ]);
            assert(spec_hex_seq(one@) =~= seq![
                spec_hex_digit(b as int / 16),
                spec_hex_digit(b as int % 16),
            ]);
        }
        out.push(37);
        out.push(h[0]);
        out.push(h[1]);
        proof {
            let sub = hash@.subrange(0, i as int + 1);
            assert(sub.drop_last() =~= hash@.subrange(0, i as int));
            assert(sub.last() == hash@[i as int]);
            assert(out@ =~= spec_percent_hex(sub));
        }
        i = i + 1;
    }
    proof {
        assert(hash@.subrange(0, 20) =~= hash@);
    }
    out
}

/// The 11 bytes of `&info_hash=`.
pub open spec fn spec_lit_info_hash() -> Seq<u8> {
    seq![38u8, 105u8, 110u8, 102u8, 111u8, 95u8, 104u8, 97u8, 115u8, 104u8, 61u8]
}

/// The six form-encoded request parameters, joined: the local identifier,
/// the listening port, the three byte counters (nothing uploaded or
/// downloaded, everything left), and the compact flag.
pub open spec fn spec_announce_params(info: Info, peer_id: Seq<u8>, port: u32) -> Seq<u8> {
    seq![112u8, 101u8, 101u8, 114u8, 95u8, 105u8, 100u8] + seq![61u8] + peer_id + seq![38u8] + (
    seq![112u8, 111u8, 114u8, 116u8] + seq![61u8] + spec_dec_digits(port as nat) + seq![38u8] + (
    seq![117u8, 112u8, 108u8, 111u8, 97u8, 100u8, 101u8, 100u8] + seq![61u8] + seq![48u8] + seq![
        38u8,
    ] + (seq![100u8, 111u8, 119u8, 110u8, 108u8, 111u8, 97u8, 100u8, 101u8, 100u8] + seq![61u8]
        + seq![48u8] + seq![38u8] + (seq![108u8, 101u8, 102u8, 116u8] + seq![61u8]
        + spec_dec_digits(info.length as nat) + seq![38u8] + (seq![
        99u8,
        111u8,
        109u8,
        112u8,
        97u8,
        99u8,
        116u8,
    ] + seq![61u8] + seq![49u8])))))
}

/// The exact query suffix of a directory request: a `?`, the six request
/// parameters, then the percent-escaped content hash under `info_hash`.
pub open spec fn spec_announce_suffix(info: Info, peer_id: Seq<u8>, port: u32) -> Seq<u8> {
    seq![63u8] + spec_announce_params(info, peer_id, port) + spec_lit_info_hash()
        + spec_percent_hex(sha1_of(spec_info_encoding(info)))
}

proof fn lemma_digits_urlsafe(n: nat)
    ensures
        all_urlsafe(spec_dec_digits(n)),
    decreases n,
{
    if n < 10 {
    } else {
        lemma_digits_urlsafe(n / 10);
        let s = spec_dec_digits(n / 10);
        let w = s.push((n % 10 + 48) as u8);
        assert forall|j: int| 0 <= j < w.len() implies is_urlsafe(w[j]) by {
            if j < s.len() {
                assert(is_urlsafe(s[j]));
            }
        }
    }
}

/// The query suffix of a directory request, byte for byte.
#[verifier::rlimit(100)]
#[verifier::spinoff_prover]
fn announce_suffix_bytes(info: &Info, peer_id: &Vec<u8>, port: u32) -> (r: Vec<u8>)
    requires
        all_urlsafe(peer_id@),
    ensures
        r@ == spec_announce_suffix(*info, peer_id@, port),
{
    let hash = info.hash();
    let mut pairs: Vec<(Vec<u8>, Vec<u8>)> = Vec::new();
    let kp = vec![112u8, 101u8, 101u8, 114u8, 95u8, 105u8, 100u8];
    let kport = vec![112u8, 111u8, 114u8, 116u8];
    let kup = vec![117u8, 112u8, 108u8, 111u8, 97u8, 100u8, 101u8, 100u8];
    let kdown = vec![100u8, 111u8, 119u8, 110u8, 108u8, 111u8, 97u8, 100u8, 101u8, 100u8];
    let kleft = vec![108u8, 101u8, 102u8, 116u8];
    let kcompact = vec![99u8, 111u8, 109u8, 112u8, 97u8, 99u8, 116u8];
    proof {
        lemma_digits_urlsafe(port as nat);
        lemma_digits_urlsafe(info.length as nat);
        lemma_digits_urlsafe(0);
        lemma_digits_urlsafe(1);
        assert(all_urlsafe(kp@));
        assert(all_urlsafe(kport@));
        assert(all_urlsafe(kup@));
        assert(all_urlsafe(kdown@));
        assert(all_urlsafe(kleft@));
        assert(all_urlsafe(kcompact@));
    }
    pairs.push((kp, copy_bytes(peer_id)));
    pairs.push((kport, crate::bencode::u64_dec_bytes(port as u64)));
    pairs.push((kup, crate::bencode::u64_dec_bytes(0)));
    pairs.push((kdown, crate::bencode::u64_dec_bytes(0)));
    pairs.push((kleft, crate::bencode::u64_dec_bytes(info.length as u64)));
    pairs.push((kcompact, crate::bencode::u64_dec_bytes(1)));
    let query = urlencode_pairs(&pairs);
    let escaped = urlencode_info_hash(&hash);
    let mut out: Vec<u8> = Vec::new();
    out.push(63);
    let ghost mid = out@;
    let mut i: usize = 0;
    while i < query.len()
        invariant
            i <= query@.len(),
            out@ == mid + query@.subrange(0, i as int),
        decreases query@.len() - i,
    {
        out.push(query[i]);
        proof {
            assert(out@ =~= mid + query@.subrange(0, i as int + 1));
        }
        i = i + 1;
    }
    proof {
        assert(query@.subrange(0, query@.len() as int) =~= query@);
    }
    out.push(38);
    out.push(105);
    out.push(110);
    out.push(102);
    out.push(111);
    out.push(95);
    out.push(104);
    out.push(97);
    out.push(115);
    out.push(104);
    out.push(61);
    proof {
        let s = pairs@;
        let s1 = s.drop_first();
        let s2 = s1.drop_first();
        let s3 = s2.drop_first();
        let s4 = s3.drop_first();
        let s5 = s4.drop_first();
        assert(s1[0] == s[1] && s2[0] == s[2] && s3[0] == s[3] && s4[0] == s[4] && s5[0] == s[5]);
        assert(s5.len() == 1);
        assert(spec_query_join(s5) == s[5].0@ + seq![61u8] + s[5].1@);
        assert(spec_query_join(s4) == s[4].0@ + seq![61u8] + s[4].1@ + seq![38u8]
            + spec_query_join(s5));
        assert(spec_query_join(s3) == s[3].0@ + seq![61u8] + s[3].1@ + seq![38u8]
            + spec_query_join(s4));
        assert(spec_query_join(s2) == s[2].0@ + seq![61u8] + s[2].1@ + seq![38u8]
            + spec_query_join(s3));
        assert(spec_query_join(s1) == s[1].0@ + seq![61u8] + s[1].1@ + seq![38u8]
            + spec_query_join(s2));
        assert(spec_query_join(s) == s[0].0@ + seq![61u8] + s[0].1@ + seq![38u8]
            + spec_query_join(s1));
        assert(spec_dec_digits(0) =~= seq![48u8]);
        assert(spec_dec_digits(1) =~= seq![49u8]);
        assert(query@ == spec_announce_params(*info, peer_id@, port));
        assert(mid =~= seq![63u8]);
        assert(out@ =~= mid + query@ + spec_lit_info_hash());
        assert(out@ == seq![63u8] + spec_announce_params(*info, peer_id@, port)
            + spec_lit_info_hash());
    }
    let ghost mid2 = out@;
    let mut i: usize = 0;
    while i < escaped.len()
        invariant
            i <= escaped@.len(),
            out@ == mid2 + escaped@.subrange(0, i as int),
        decreases escaped@.len() - i,
    {
        out.push(escaped[i]);
        proof {
            assert(out@ =~= mid2 + escaped@.subrange(0, i as int + 1));
        }
        i = i + 1;
    }
    proof {
        assert(escaped@.subrange(0, escaped@.len() as int) =~= escaped@);
    }
    out
}

/// The full directory-service request line: the coordinator address, then
/// the query carrying the local identifier, the listening port, the byte
/// counters, the compact flag and the percent-escaped content hash.
pub fn announce_url_bytes(tf: &TorrentFile, peer_id: &Vec<u8>, port: u32) -> (r: Vec<u8>)
    requires
        all_urlsafe(peer_id@),
    ensures
        r@ == tf.announce@ + spec_announce_suffix(tf.info, peer_id@, port),
{
    let suffix = announce_suffix_bytes(&tf.info, peer_id, port);
    let mut out = copy_bytes(&tf.announce);
    let ghost mid = out@;
    let mut i: usize = 0;
    while i < suffix.len()
        invariant
            i <= suffix@.len(),
            out@ == mid + suffix@.subrange(0, i as int),
        decreases suffix@.len() - i,
    {
        out.push(suffix[i]);
        proof {
            assert(out@ =~= mid + suffix@.subrange(0, i as int + 1));
        }
        i = i + 1;
    }
    proof {
        assert(suffix@.subrange(0, suffix@.len() as int) =~= suffix@);
    }
    out
}

/// A directory-service reply: the poll interval and the compact peer list.
#[derive(Debug, PartialEq, Eq)]
pub struct PeersResponse {
    pub interval: u32,
    pub peers: Vec<u8>,
}

/// The reply is usable: an interval in range and a peer list that is a
/// whole number of 6-byte entries.
pub open spec fn spec_peers_resp_valid(v: BencodeValue) -> bool {
    &&& (spec_lookup(v, spec_key_interval()) matches Some(BencodeValue::Int(l)) && 0 <= l
        <= 0xffff_ffffi64)
    &&& (spec_lookup(v, spec_key_peers()) matches Some(BencodeValue::Bytes(b)) && b@.len() % 6
        == 0)
}

/// Everything but the peer-list length is present and well typed, and the
/// list is not a whole number of 6-byte entries.
pub open spec fn spec_bad_peer_list(v: BencodeValue) -> bool {
    &&& (spec_lookup(v, spec_key_interval()) matches Some(BencodeValue::Int(l)) && 0 <= l
        <= 0xffff_ffffi64)
    &&& (spec_lookup(v, spec_key_peers()) matches Some(BencodeValue::Bytes(b)) && b@.len() % 6
        != 0)
}

impl PeersResponse {
    /// Read the reply fields out of a decoded response value.
    pub fn from_value(v: &BencodeValue) -> (r: Result<PeersResponse, DirectoryError>)
        ensures
            r is Ok <==> spec_peers_resp_valid(*v),
            r matches Ok(pr) ==> {
                &&& (spec_lookup(*v, spec_key_interval()) matches Some(BencodeValue::Int(l)) && l
                    == pr.interval as i64)
                &&& (spec_lookup(*v, spec_key_peers()) matches Some(BencodeValue::Bytes(b)) && b@
                    == pr.peers@)
                &&& pr.peers@.len() % 6 == 0
            },
            spec_bad_peer_list(*v) <==> r == Err::<PeersResponse, DirectoryError>(
                DirectoryError::InvalidPeerList,
            ),
    {
        let d = match v {
            BencodeValue::Dict(d) => d,
            _ => {
                return Err(DirectoryError::MissingField);
            },
        };
        let interval: u32 = match dict_get(d, &key_interval()) {
            Some(BencodeValue::Int(l)) => {
                if 0 <= *l && *l <= 0xffff_ffffi64 {
                    *l as u32
                } else {
                    return Err(DirectoryError::InvalidField);
                }
            },
            Some(_) => {
                return Err(DirectoryError::InvalidField);
            },
            None => {
                return Err(DirectoryError::MissingField);
            },
        };
        let peers = match dict_get(d, &key_peers()) {
            Some(BencodeValue::Bytes(b)) => {
                if b.len() % 6 == 0 {
                    copy_bytes(b)
                } else {
                    return Err(DirectoryError::InvalidPeerList);
                }
            },
            Some(_) => {
                return Err(DirectoryError::InvalidField);
            },
            None => {
                return Err(DirectoryError::MissingField);
            },
        };
        Ok(PeersResponse { interval, peers })
    }

    /// Decode a raw response body and read the reply fields out of it.
    pub fn from_bytes(bytes: &Vec<u8>) -> (r: Result<PeersResponse, DirectoryError>)
        ensures
            r matches Ok(pr) ==> pr.peers@.len() % 6 == 0,
            r matches Ok(pr) ==> exists|v: BencodeValue, n: int|
                #![trigger spec_encode(v), bytes@.subrange(0, n)]
                {
                    &&& 0 < n <= bytes@.len()
                    &&& spec_encode(v) == bytes@.subrange(0, n)
                    &&& spec_peers_resp_valid(v)
                    &&& (spec_lookup(v, spec_key_interval()) matches Some(BencodeValue::Int(l))
                        && l == pr.interval as i64)
                    &&& (spec_lookup(v, spec_key_peers()) matches Some(BencodeValue::Bytes(b))
                        && b@ == pr.peers@)
                },
            r matches Err(e) ==> !(e matches DirectoryError::Decode(_)) ==> exists|
                v: BencodeValue,
                n: int,
            |
                #![trigger spec_encode(v), bytes@.subrange(0, n)]
                {
                    &&& 0 < n <= bytes@.len()
                    &&& spec_encode(v) == bytes@.subrange(0, n)
                    &&& !spec_peers_resp_valid(v)
                    &&& (spec_bad_peer_list(v) <==> e == DirectoryError::InvalidPeerList)
                },
            ((exists|v: BencodeValue, n: int| crate::bencode::encoding_at(bytes@, 0, n, v))
                && (forall|v: BencodeValue, n: int|
                crate::bencode::encoding_at(bytes@, 0, n, v) ==> spec_peers_resp_valid(v))) ==> r
                is Ok,
    {
        let (value, n) = match decode_bencoded_value(bytes) {
            Ok(p) => p,
            Err(e) => {
                return Err(DirectoryError::Decode(e));
            },
        };
        let pr = match PeersResponse::from_value(&value) {
            Ok(pr) => pr,
            Err(e) => {
                proof {
                    let v0 = value;
                    let n0 = n as int;
                    assert({
                        &&& 0 < n0 <= bytes@.len()
                        &&& spec_encode(v0) == bytes@.subrange(0, n0)
                        &&& !spec_peers_resp_valid(v0)
                        &&& (spec_bad_peer_list(v0) <==> e == DirectoryError::InvalidPeerList)
                    });
                    assert(crate::bencode::encoding_at(bytes@, 0, n0, v0));
                }
                return Err(e);
            },
        };
        proof {
            let v0 = value;
            let n0 = n as int;
            assert({
                &&& 0 < n0 <= bytes@.len()
                &&& spec_encode(v0) == bytes@.subrange(0, n0)
                &&& spec_peers_resp_valid(v0)
                &&& (spec_lookup(v0, spec_key_interval()) matches Some(BencodeValue::Int(l)) && l
                    == pr.interval as i64)
                &&& (spec_lookup(v0, spec_key_peers()) matches Some(BencodeValue::Bytes(b)) && b@
                    == pr.peers@)
            });
        }
        Ok(pr)
    }
}

/// One remote participant's address: four address bytes and a port read
/// big-endian from a 6-byte entry.
#[derive(Debug, Clone, Copy, PartialEq, Eq, Structural)]
pub struct PeerAddr {
    pub ip0: u8,
    pub ip1: u8,
    pub ip2: u8,
    pub ip3: u8,
    pub port: u16,
}

/// Split a compact peer list into addresses: each 6-byte entry is four
/// address bytes then a big-endian port. A list that is not a whole number
/// of entries is rejected.
#[verifier::loop_isolation(false)]
pub fn parse_peer_addrs(peers: &Vec<u8>) -> (r: Result<Vec<PeerAddr>, DirectoryError>)
    ensures
        r is Ok <==> peers@.len() % 6 == 0,
        peers@.len() % 6 != 0 ==> r == Err::<Vec<PeerAddr>, DirectoryError>(
            DirectoryError::InvalidPeerList,
        ),
        r matches Ok(list) ==> {
            &&& list@.len() == peers@.len() / 6
            &&& forall|k: int|
                0 <= k < list@.len() ==> {
                    &&& (#[trigger] list@[k]).ip0 == peers@[6 * k]
                    &&& list@[k].ip1 == peers@[6 * k + 1]
                    &&& list@[k].ip2 == peers@[6 * k + 2]
                    &&& list@[k].ip3 == peers@[6 * k + 3]
                    &&& list@[k].port as int == crate::peer::spec_u16_from_be(
                        peers@[6 * k + 4],
                        peers@[6 * k + 5],
                    )
                }
        },
{
    if peers.len() % 6 != 0 {
        return Err(DirectoryError::InvalidPeerList);
    }
    let count = peers.len() / 6;
    let mut list: Vec<PeerAddr> = Vec::new();
    let mut k: usize = 0;
    while k < count
        invariant
            k <= count,
            count == peers@.len() / 6,
            peers@.len() % 6 == 0,
            list@.len() == k as int,
            forall|j: int|
                0 <= j < k ==> {
                    &&& (#[trigger] list@[j]).ip0 == peers@[6 * j]
                    &&& list@[j].ip1 == peers@[6 * j + 1]
                    &&& list@[j].ip2 == peers@[6 * j + 2]
                    &&& list@[j].ip3 == peers@[6 * j + 3]
                    &&& list@[j].port as int == crate::peer::spec_u16_from_be(
                        peers@[6 * j + 4],
                        peers@[6 * j + 5],
                    )
                },
        decreases count - k,
    {
        let base = 6 * k;
        let port = crate::peer::u16_from_be(peers[base + 4], peers[base + 5]);
        let addr = PeerAddr {
            ip0: peers[base],
            ip1: peers[base + 1],
            ip2: peers[base + 2],
            ip3: peers[base + 3],
            port,
        };
        list.push(addr);
        k = k + 1;
    }
    Ok(list)
}

} // verus!
