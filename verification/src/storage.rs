use vstd::bytes::{
    lemma_auto_spec_u16_to_from_le_bytes, lemma_auto_spec_u32_to_from_le_bytes,
    lemma_auto_spec_u64_to_from_le_bytes, spec_u16_from_le_bytes, spec_u16_to_le_bytes, spec_u32_from_le_bytes, spec_u32_to_le_bytes,
    spec_u64_from_le_bytes, spec_u64_to_le_bytes, u16_from_le_bytes, u16_to_le_bytes,
    u32_from_le_bytes, u32_to_le_bytes, u64_from_le_bytes, u64_to_le_bytes,
};
use vstd::prelude::*;
use vstd::slice::{slice_subrange, slice_to_vec};
use vstd::utf8::{
    decode_utf8, encode_utf8, encode_utf8_decode_utf8, encode_utf8_valid_utf8, valid_utf8,
};

use crate::collection::{Collection, CollectionView};
use crate::distance::DistanceMetric;
use crate::embedding::{Embedding, EmbeddingView};
use crate::errors::{decimal, error_message, io_error_kind, push_decimal, ErrorView, VectorDbError};
use crate::index::{
    check_vector, entries_view, entry_fits, has_id, ids_unique, index_wf, spec_add, IndexView,
};
use crate::metadata::{keys_sorted, key_lt, lemma_key_order, metadata_insert, pairs_view, Metadata};
use crate::validation::is_valid_collection_name;

verus! {

/// The extension of a collection file.
pub const COLLECTION_EXTENSION: &'static str = "vdb";

/// The extension that a write-ahead copy adds to a collection file's name.
pub const WAL_SUFFIX: &'static str = "wal";

/// The version of the file format.
pub const FILE_VERSION: u16 = 1;

// ---------------------------------------------------------------------
// The file format.
//
//   file      := "VDB1" u16(version) u64(dimension) u64(count) record*count
//   record    := u64(id) u64(n) u32*n u64(m) (string string)*m
//   string    := u64(byte length) UTF-8 bytes
//
// Integers are little-endian; a vector component is the bit pattern of an
// IEEE-754 single. Bytes after the last record are not read.
// ---------------------------------------------------------------------

/// The four bytes "VDB1" that open every collection file.
pub open spec fn file_magic() -> Seq<u8> {
    seq![86u8, 68u8, 66u8, 49u8]
}

/// A string as the file holds it.
pub open spec fn string_bytes(s: Seq<char>) -> Seq<u8> {
    spec_u64_to_le_bytes(encode_utf8(s).len() as u64) + encode_utf8(s)
}

/// The components of a vector as the file holds them.
pub open spec fn components_bytes(v: Seq<u32>) -> Seq<u8>
    decreases v.len(),
{
    if v.len() == 0 {
        Seq::empty()
    } else {
        components_bytes(v.drop_last()) + spec_u32_to_le_bytes(v.last())
    }
}

/// Metadata entries as the file holds them.
pub open spec fn pairs_bytes(m: Seq<(Seq<char>, Seq<char>)>) -> Seq<u8>
    decreases m.len(),
{
    if m.len() == 0 {
        Seq::empty()
    } else {
        pairs_bytes(m.drop_last()) + string_bytes(m.last().0) + string_bytes(m.last().1)
    }
}

/// One embedding as the file holds it.
pub open spec fn embedding_bytes(e: EmbeddingView) -> Seq<u8> {
    spec_u64_to_le_bytes(e.id) + spec_u64_to_le_bytes(e.vector.len() as u64) + components_bytes(
        e.vector,
    ) + spec_u64_to_le_bytes(e.metadata.len() as u64) + pairs_bytes(e.metadata)
}

/// A sequence of embeddings as the file holds them.
pub open spec fn entries_bytes(s: Seq<EmbeddingView>) -> Seq<u8>
    decreases s.len(),
{
    if s.len() == 0 {
        Seq::empty()
    } else {
        entries_bytes(s.drop_last()) + embedding_bytes(s.last())
    }
}

/// The bytes of the file that stores an index.
pub open spec fn collection_bytes(v: IndexView) -> Seq<u8> {
    file_magic() + spec_u16_to_le_bytes(1) + spec_u64_to_le_bytes(v.dimension as u64)
        + spec_u64_to_le_bytes(v.entries.len() as u64) + entries_bytes(v.entries)
}

/// The key and the value each encode in at most a machine word of bytes.
pub open spec fn pair_encodable(p: (Seq<char>, Seq<char>)) -> bool {
    encode_utf8(p.0).len() <= usize::MAX && encode_utf8(p.1).len() <= usize::MAX
}

/// Every length in the embedding fits a machine word.
pub open spec fn embedding_encodable(e: EmbeddingView) -> bool {
    &&& e.vector.len() <= usize::MAX
    &&& e.metadata.len() <= usize::MAX
    &&& forall|j: int| 0 <= j < e.metadata.len() ==> pair_encodable(#[trigger] e.metadata[j])
}

/// Every length in the index fits a machine word, as it does for any index
/// held in memory.
pub open spec fn encodable(v: IndexView) -> bool {
    &&& v.entries.len() <= usize::MAX
    &&& forall|i: int| 0 <= i < v.entries.len() ==> embedding_encodable(#[trigger] v.entries[i])
}

/// Why reading a file failed: an error of the library, or text that is not
/// UTF-8 (whose message the standard library writes).
pub enum DecodeFailure {
    Error(ErrorView),
    InvalidUtf8,
}

/// A step of reading: what was read and the bytes after it.
pub type Parsed<T> = Result<(T, Seq<u8>), DecodeFailure>;

/// The input ended early: an I/O error of the kind `UnexpectedEof`.
pub open spec fn eof<T>() -> Parsed<T> {
    Err(DecodeFailure::Error(ErrorView::Io(std::io::ErrorKind::UnexpectedEof)))
}

/// The file is corrupt, for the reason `msg`.
pub open spec fn corrupted<T>(msg: Seq<char>) -> Parsed<T> {
    Err(DecodeFailure::Error(ErrorView::CorruptedStorage(msg)))
}

pub open spec fn parse_u16(b: Seq<u8>) -> Parsed<u16> {
    if b.len() < 2 { eof() } else { Ok((spec_u16_from_le_bytes(b.take(2)), b.skip(2))) }
}

pub open spec fn parse_u32(b: Seq<u8>) -> Parsed<u32> {
    if b.len() < 4 { eof() } else { Ok((spec_u32_from_le_bytes(b.take(4)), b.skip(4))) }
}

pub open spec fn parse_u64(b: Seq<u8>) -> Parsed<u64> {
    if b.len() < 8 { eof() } else { Ok((spec_u64_from_le_bytes(b.take(8)), b.skip(8))) }
}

/// A length, which must fit a machine word; `what` names it in the message.
pub open spec fn parse_len(b: Seq<u8>, what: Seq<char>) -> Parsed<usize> {
    match parse_u64(b) {
        Err(f) => Err(f),
        Ok((x, rest)) => if x > usize::MAX {
            corrupted(what + " does not fit usize"@)
        } else {
            Ok((x as usize, rest))
        },
    }
}

pub open spec fn parse_string(b: Seq<u8>) -> Parsed<Seq<char>> {
    match parse_len(b, "string length"@) {
        Err(f) => Err(f),
        Ok((n, rest)) => if rest.len() < n {
            eof()
        } else if valid_utf8(rest.take(n as int)) {
            Ok((decode_utf8(rest.take(n as int)), rest.skip(n as int)))
        } else {
            Err(DecodeFailure::InvalidUtf8)
        },
    }
}

pub open spec fn parse_components(b: Seq<u8>, n: nat) -> Parsed<Seq<u32>>
    decreases n,
{
    if n == 0 {
        Ok((Seq::empty(), b))
    } else {
        match parse_components(b, (n - 1) as nat) {
            Err(f) => Err(f),
            Ok((v, rest)) => match parse_u32(rest) {
                Err(f) => Err(f),
                Ok((x, rest2)) => Ok((v.push(x), rest2)),
            },
        }
    }
}

/// `n` key/value pairs, each set into the metadata read so far.
pub open spec fn parse_pairs(b: Seq<u8>, n: nat) -> Parsed<Seq<(Seq<char>, Seq<char>)>>
    decreases n,
{
    if n == 0 {
        Ok((Seq::empty(), b))
    } else {
        match parse_pairs(b, (n - 1) as nat) {
            Err(f) => Err(f),
            Ok((m, rest)) => match parse_string(rest) {
                Err(f) => Err(f),
                Ok((key, rest2)) => match parse_string(rest2) {
                    Err(f) => Err(f),
                    Ok((value, rest3)) => Ok((metadata_insert(m, key, value), rest3)),
                },
            },
        }
    }
}

pub open spec fn parse_record(b: Seq<u8>) -> Parsed<EmbeddingView> {
    match parse_u64(b) {
        Err(f) => Err(f),
        Ok((id, r1)) => match parse_len(r1, "vector length"@) {
            Err(f) => Err(f),
            Ok((n, r2)) => match parse_components(r2, n as nat) {
                Err(f) => Err(f),
                Ok((vector, r3)) => match parse_len(r3, "metadata length"@) {
                    Err(f) => Err(f),
                    Ok((m, r4)) => match parse_pairs(r4, m as nat) {
                        Err(f) => Err(f),
                        Ok((metadata, r5)) => Ok((EmbeddingView { id, vector, metadata }, r5)),
                    },
                },
            },
        },
    }
}

/// `n` records, each added to the index read so far.
pub open spec fn parse_records(b: Seq<u8>, n: nat, start: IndexView) -> Parsed<IndexView>
    decreases n,
{
    if n == 0 {
        Ok((start, b))
    } else {
        match parse_records(b, (n - 1) as nat, start) {
            Err(f) => Err(f),
            Ok((index, rest)) => match parse_record(rest) {
                Err(f) => Err(f),
                Ok((e, rest2)) => match spec_add(index, e) {
                    Ok(index2) => Ok((index2, rest2)),
                    Err(err) => corrupted("failed to load embedding: "@ + error_message(err)),
                },
            },
        }
    }
}

/// The file header: the magic bytes, then the version, which must be 1.
pub open spec fn parse_header(b: Seq<u8>) -> Parsed<()> {
    if b.len() < 4 {
        eof()
    } else if b.take(4) != file_magic() {
        corrupted("invalid file magic"@)
    } else {
        match parse_u16(b.skip(4)) {
            Err(f) => Err(f),
            Ok((version, rest)) => if version != 1 {
                corrupted("unsupported file version "@ + decimal(version as nat))
            } else {
                Ok(((), rest))
            },
        }
    }
}

/// The empty index that a file of this dimension starts from.
pub open spec fn empty_index(dimension: usize) -> IndexView {
    IndexView { dimension, metric: DistanceMetric::Euclidean, entries: Seq::empty() }
}

/// The index that a collection file holds, or why it cannot be read.
pub open spec fn spec_decode(b: Seq<u8>) -> Result<IndexView, DecodeFailure> {
    match parse_header(b) {
        Err(f) => Err(f),
        Ok((_, r1)) => match parse_len(r1, "dimension"@) {
            Err(f) => Err(f),
            Ok((dimension, r2)) => match parse_len(r2, "entry count"@) {
                Err(f) => Err(f),
                Ok((count, r3)) => if dimension == 0 {
                    Err(DecodeFailure::Error(ErrorView::InvalidDimension))
                } else {
                    match parse_records(r3, count as nat, empty_index(dimension)) {
                        Err(f) => Err(f),
                        Ok((index, _)) => Ok(index),
                    }
                },
            },
        },
    }
}

/// An error of the library stands for a failure of reading.
pub open spec fn error_matches(e: VectorDbError, f: DecodeFailure) -> bool {
    match f {
        DecodeFailure::Error(v) => e@ == v,
        DecodeFailure::InvalidUtf8 => e is CorruptedStorage,
    }
}

/// A reading step at `pos` went as the spec step `expected` says.
pub open spec fn read_matches<T: View>(
    r: Result<(T, usize), VectorDbError>,
    bytes: Seq<u8>,
    expected: Parsed<T::V>,
) -> bool {
    match (r, expected) {
        (Ok((x, p)), Ok((y, rest))) => x@ == y && p <= bytes.len() && bytes.skip(p as int) == rest,
        (Err(e), Err(f)) => error_matches(e, f),
        _ => false,
    }
}

// ---------------------------------------------------------------------
// File names.
// ---------------------------------------------------------------------

/// The name of the file that stores collection `name`: `name.vdb`.
pub fn collection_file_name(name: &str) -> (f: String)
    ensures
        f@ == name@ + ".vdb"@,
{
    let mut f = String::from_str(name);
    f.append(".vdb");
    f
}

/// The name of the write-ahead copy of collection `name`: `name.vdb.wal`.
pub fn wal_file_name(name: &str) -> (f: String)
    ensures
        f@ == name@ + ".vdb.wal"@,
{
    let mut f = String::from_str(name);
    f.append(".vdb.wal");
    f
}

/// `file` ends with `suffix` and holds at least one character before it.
pub open spec fn has_proper_suffix(file: Seq<char>, suffix: Seq<char>) -> bool {
    file.len() > suffix.len() && file.skip(file.len() - suffix.len()) == suffix
}

/// The collection that a file of the storage root holds: for `name.vdb`
/// (with a non-empty `name`) it is `name`; any other file holds none.
pub open spec fn spec_collection_of_file(file: Seq<char>) -> Option<Seq<char>> {
    if has_proper_suffix(file, ".vdb"@) {
        Some(file.take(file.len() - 4))
    } else {
        None
    }
}

/// The position of the last `.` among the first `n` characters of `s`, or
/// `-1` when there is none.
pub open spec fn last_dot_before(s: Seq<char>, n: int) -> int
    decreases n,
{
    if n <= 0 {
        -1
    } else if s[n - 1] == '.' {
        n - 1
    } else {
        last_dot_before(s, n - 1)
    }
}

/// The stem of a file name `p` (one that holds no `/`), as
/// `Path::file_stem` takes it: none for `.` and `..`; else the part before
/// the last dot, or all of `p` when it has no dot or only a leading one.
pub open spec fn file_stem_of(p: Seq<char>) -> Option<Seq<char>> {
    let d = last_dot_before(p, p.len() as int);
    if p == "."@ || p == ".."@ {
        None
    } else if d <= 0 {
        Some(p)
    } else {
        Some(p.take(d))
    }
}

/// The collection that a write-ahead file `file` is replayed into: `None`
/// when `file` does not end in `.wal` after another character; else the
/// stem of what stands before `.wal` (`Some(None)` when it has none).
pub open spec fn spec_wal_collection(file: Seq<char>) -> Option<Option<Seq<char>>> {
    if has_proper_suffix(file, ".wal"@) {
        Some(file_stem_of(file.take(file.len() - 4)))
    } else {
        None
    }
}

/// Whether `s`, of `len` characters, ends with `suffix` after at least one
/// other character.
fn ends_with_proper(s: &str, len: usize, suffix: &str) -> (b: bool)
    requires
        len == s@.len(),
    ensures
        b == has_proper_suffix(s@, suffix@),
{
    let k = suffix.unicode_len();
    if len <= k {
        return false;
    }
    let start = len - k;
    let mut i: usize = 0;
    while i < k
        invariant
            k == suffix@.len(),
            len == s@.len(),
            start == len - k,
            i <= k,
            forall|j: int| 0 <= j < i ==> s@[start + j] == suffix@[j],
        decreases k - i,
    {
        if s.get_char(start + i) != suffix.get_char(i) {
            assert(s@.skip(start as int)[i as int] != suffix@[i as int]);
            return false;
        }
        i = i + 1;
    }
    assert(s@.skip(start as int) =~= suffix@);
    true
}

/// The collection stored in the file named `file_name` (see
/// [`spec_collection_of_file`]); `None` for a file that stores none.
pub fn collection_name_of_file(file_name: &str) -> (r: Option<String>)
    ensures
        match spec_collection_of_file(file_name@) {
            Some(name) => r matches Some(s) && s@ == name,
            None => r is None,
        },
{
    proof {
        reveal_strlit(".vdb");
    }
    let len = file_name.unicode_len();
    if !ends_with_proper(file_name, len, ".vdb") {
        return None;
    }
    Some(String::from_str(file_name.substring_char(0, len - 4)))
}

/// The collection that the write-ahead file `file_name` is replayed into
/// (see [`spec_wal_collection`]): `None` for a file that is no write-ahead
/// file; `CorruptedStorage("invalid wal stem")` when its stem is missing.
pub fn wal_collection_name(file_name: &str) -> (r: Option<Result<String, VectorDbError>>)
    ensures
        match spec_wal_collection(file_name@) {
            None => r is None,
            Some(None) => r matches Some(Err(e)) && e@ == ErrorView::CorruptedStorage(
                "invalid wal stem"@,
            ),
            Some(Some(name)) => r matches Some(Ok(s)) && s@ == name,
        },
{
    proof {
        reveal_strlit(".wal");
        reveal_strlit(".");
        reveal_strlit("..");
    }
    let len = file_name.unicode_len();
    if !ends_with_proper(file_name, len, ".wal") {
        return None;
    }
    let plen = len - 4;
    let p = file_name.substring_char(0, plen);
    assert(p@ == file_name@.take(plen as int));
    let is_dot = plen == 1 && p.get_char(0) == '.';
    let is_dots = plen == 2 && p.get_char(0) == '.' && p.get_char(1) == '.';
    proof {
        if plen == 1 {
            assert(is_dot <==> p@ =~= "."@);
        } else {
            assert(p@ != "."@);
        }
        if plen == 2 {
            assert(is_dots <==> p@ =~= ".."@);
        } else {
            assert(p@ != ".."@);
        }
    }
    if is_dot || is_dots {
        return Some(Err(VectorDbError::CorruptedStorage(String::from_str("invalid wal stem"))));
    }
    let mut i: usize = plen;
    while i > 0
        invariant
            plen == p@.len(),
            i <= plen,
            last_dot_before(p@, plen as int) == last_dot_before(p@, i as int),
        ensures
            i == 0 || p@[i - 1] == '.',
        decreases i,
    {
        if p.get_char(i - 1) == '.' {
            break;
        }
        i = i - 1;
    }
    let ghost d = last_dot_before(p@, plen as int);
    if i <= 1 {
        assert(d <= 0);
        Some(Ok(String::from_str(p)))
    } else {
        assert(d == i - 1);
        Some(Ok(String::from_str(p.substring_char(0, i - 1))))
    }
}

/// Reading a collection's file names back: the file of a collection holds
/// that collection, and its write-ahead file is replayed into it.
pub proof fn lemma_file_names_round_trip(name: Seq<char>)
    requires
        name.len() > 0,
    ensures
        spec_collection_of_file(name + ".vdb"@) == Some(name),
        spec_wal_collection(name + ".vdb.wal"@) == Some(Some(name)),
{
    reveal_strlit(".vdb");
    reveal_strlit(".vdb.wal");
    reveal_strlit(".wal");
    reveal_strlit(".");
    reveal_strlit("..");
    let f = name + ".vdb"@;
    assert(f.skip(f.len() - 4) =~= ".vdb"@);
    assert(f.take(f.len() - 4) =~= name);
    let w = name + ".vdb.wal"@;
    assert(w.skip(w.len() - 4) =~= ".wal"@);
    assert(w.take(w.len() - 4) =~= f);
    assert(f != "."@ && f != ".."@) by {
        assert(f.len() >= 5);
    }
    let n = f.len() as int;
    assert(f[n - 1] == 'b' && f[n - 2] == 'd' && f[n - 3] == 'v' && f[n - 4] == '.');
    assert(last_dot_before(f, n - 3) == n - 4);
    assert(last_dot_before(f, n - 2) == n - 4);
    assert(last_dot_before(f, n - 1) == n - 4);
    assert(last_dot_before(f, n) == n - 4);
}

// ---------------------------------------------------------------------
// Writing.
// ---------------------------------------------------------------------

/// Appends `value` in two little-endian bytes.
pub fn write_u16(buffer: &mut Vec<u8>, value: u16)
    ensures
        final(buffer)@ == old(buffer)@ + spec_u16_to_le_bytes(value),
{
    let mut bytes = u16_to_le_bytes(value);
    buffer.append(&mut bytes);
}

/// Appends `value` in four little-endian bytes.
pub fn write_u32(buffer: &mut Vec<u8>, value: u32)
    ensures
        final(buffer)@ == old(buffer)@ + spec_u32_to_le_bytes(value),
{
    let mut bytes = u32_to_le_bytes(value);
    buffer.append(&mut bytes);
}

/// Appends `value` in eight little-endian bytes.
pub fn write_u64(buffer: &mut Vec<u8>, value: u64)
    ensures
        final(buffer)@ == old(buffer)@ + spec_u64_to_le_bytes(value),
{
    let mut bytes = u64_to_le_bytes(value);
    buffer.append(&mut bytes);
}

/// Appends a string: its byte length, then its UTF-8 bytes.
pub fn write_string(buffer: &mut Vec<u8>, value: &str)
    ensures
        final(buffer)@ == old(buffer)@ + string_bytes(value@),
        encode_utf8(value@).len() <= usize::MAX,
{
    let bytes = value.as_bytes();
    write_u64(buffer, bytes.len() as u64);
    let mut copy = slice_to_vec(bytes);
    buffer.append(&mut copy);
    assert(final(buffer)@ =~= old(buffer)@ + string_bytes(value@));
}

// ---------------------------------------------------------------------
// Reading.
// ---------------------------------------------------------------------

#[verifier::external_type_specification]
#[verifier::external_body]
pub struct ExFromUtf8Error(std::string::FromUtf8Error);

/// `std::io::Error::new` with the kind `UnexpectedEof` and the message that
/// `Read::read_exact` gives when the input ends before the buffer is full.
/// States that the error reports that kind; its text is not stated.
#[verifier::external_body]
fn unexpected_eof() -> (e: std::io::Error)
    ensures
        io_error_kind(e) == std::io::ErrorKind::UnexpectedEof,
{
    std::io::Error::new(std::io::ErrorKind::UnexpectedEof, "failed to fill whole buffer")
}

/// `String::from_utf8`: succeeds exactly when the bytes are valid UTF-8,
/// and then holds the characters they encode.
#[verifier::external_body]
fn string_from_utf8(bytes: Vec<u8>) -> (r: Result<String, std::string::FromUtf8Error>)
    ensures
        match r {
            Ok(s) => valid_utf8(bytes@) && s@ == decode_utf8(bytes@),
            Err(_) => !valid_utf8(bytes@),
        },
{
    String::from_utf8(bytes)
}

/// The text that `FromUtf8Error`'s `Display` writes; nothing is stated of it.
#[verifier::external_body]
fn utf8_error_text(err: &std::string::FromUtf8Error) -> String {
    err.to_string()
}

/// Reads a little-endian `u16` at `pos`.
pub fn read_u16(bytes: &[u8], pos: usize) -> (r: Result<(u16, usize), VectorDbError>)
    requires
        pos <= bytes@.len(),
    ensures
        read_matches(r, bytes@, parse_u16(bytes@.skip(pos as int))),
{
    if bytes.len() - pos < 2 {
        return Err(VectorDbError::Io(unexpected_eof()));
    }
    let chunk = slice_subrange(bytes, pos, pos + 2);
    let value = u16_from_le_bytes(chunk);
    assert(chunk@ =~= bytes@.skip(pos as int).take(2));
    assert(bytes@.skip(pos + 2) =~= bytes@.skip(pos as int).skip(2));
    Ok((value, pos + 2))
}

/// Reads a vector component (four little-endian bytes) at `pos`.
pub fn read_u32(bytes: &[u8], pos: usize) -> (r: Result<(u32, usize), VectorDbError>)
    requires
        pos <= bytes@.len(),
    ensures
        read_matches(r, bytes@, parse_u32(bytes@.skip(pos as int))),
{
    if bytes.len() - pos < 4 {
        return Err(VectorDbError::Io(unexpected_eof()));
    }
    let chunk = slice_subrange(bytes, pos, pos + 4);
    let value = u32_from_le_bytes(chunk);
    assert(chunk@ =~= bytes@.skip(pos as int).take(4));
    assert(bytes@.skip(pos + 4) =~= bytes@.skip(pos as int).skip(4));
    Ok((value, pos + 4))
}

/// Reads a little-endian `u64` at `pos`.
pub fn read_u64(bytes: &[u8], pos: usize) -> (r: Result<(u64, usize), VectorDbError>)
    requires
        pos <= bytes@.len(),
    ensures
        read_matches(r, bytes@, parse_u64(bytes@.skip(pos as int))),
{
    if bytes.len() - pos < 8 {
        return Err(VectorDbError::Io(unexpected_eof()));
    }
    let chunk = slice_subrange(bytes, pos, pos + 8);
    let value = u64_from_le_bytes(chunk);
    assert(chunk@ =~= bytes@.skip(pos as int).take(8));
    assert(bytes@.skip(pos + 8) =~= bytes@.skip(pos as int).skip(8));
    Ok((value, pos + 8))
}

/// Reads a length at `pos`; `what` names it if it does not fit a word.
pub fn read_len(bytes: &[u8], pos: usize, what: &str) -> (r: Result<(usize, usize), VectorDbError>)
    requires
        pos <= bytes@.len(),
    ensures
        read_matches(r, bytes@, parse_len(bytes@.skip(pos as int), what@)),
{
    let (value, next) = read_u64(bytes, pos)?;
    if value > usize::MAX as u64 {
        let mut msg = String::from_str(what);
        msg.append(" does not fit usize");
        return Err(VectorDbError::CorruptedStorage(msg));
    }
    Ok((value as usize, next))
}

/// Reads a string (its byte length, then UTF-8 bytes) at `pos`.
pub fn read_string(bytes: &[u8], pos: usize) -> (r: Result<(String, usize), VectorDbError>)
    requires
        pos <= bytes@.len(),
    ensures
        read_matches(r, bytes@, parse_string(bytes@.skip(pos as int))),
{
    let (len, next) = read_len(bytes, pos, "string length")?;
    if bytes.len() - next < len {
        return Err(VectorDbError::Io(unexpected_eof()));
    }
    let raw = slice_to_vec(slice_subrange(bytes, next, next + len));
    let ghost rest = bytes@.skip(next as int);
    assert(raw@ =~= rest.take(len as int));
    assert(bytes@.skip(next + len) =~= rest.skip(len as int));
    match string_from_utf8(raw) {
        Ok(text) => Ok((text, next + len)),
        Err(err) => Err(VectorDbError::CorruptedStorage(utf8_error_text(&err))),
    }
}

proof fn lemma_components_failure_persists(b: Seq<u8>, m: nat, n: nat)
    requires
        m <= n,
        parse_components(b, m) is Err,
    ensures
        parse_components(b, n) == parse_components(b, m),
    decreases n - m,
{
    if n > m {
        lemma_components_failure_persists(b, m, (n - 1) as nat);
    }
}

proof fn lemma_pairs_failure_persists(b: Seq<u8>, m: nat, n: nat)
    requires
        m <= n,
        parse_pairs(b, m) is Err,
    ensures
        parse_pairs(b, n) == parse_pairs(b, m),
    decreases n - m,
{
    if n > m {
        lemma_pairs_failure_persists(b, m, (n - 1) as nat);
    }
}

proof fn lemma_records_failure_persists(b: Seq<u8>, m: nat, n: nat, start: IndexView)
    requires
        m <= n,
        parse_records(b, m, start) is Err,
    ensures
        parse_records(b, n, start) == parse_records(b, m, start),
    decreases n - m,
{
    if n > m {
        lemma_records_failure_persists(b, m, (n - 1) as nat, start);
    }
}

/// Reads `n` vector components at `pos`.
pub fn read_components(bytes: &[u8], pos: usize, n: usize) -> (r: Result<(Vec<u32>, usize), VectorDbError>)
    requires
        pos <= bytes@.len(),
    ensures
        read_matches(r, bytes@, parse_components(bytes@.skip(pos as int), n as nat)),
{
    let ghost b = bytes@.skip(pos as int);
    let mut vector: Vec<u32> = Vec::new();
    let mut p = pos;
    let mut i: usize = 0;
    assert(vector@ =~= Seq::<u32>::empty());
    while i < n
        invariant
            b == bytes@.skip(pos as int),
            i <= n,
            p <= bytes@.len(),
            parse_components(b, i as nat) == Ok::<(Seq<u32>, Seq<u8>), DecodeFailure>(
                (vector@, bytes@.skip(p as int)),
            ),
        decreases n - i,
    {
        match read_u32(bytes, p) {
            Ok((x, next)) => {
                vector.push(x);
                p = next;
            },
            Err(e) => {
                proof {
                    lemma_components_failure_persists(b, (i + 1) as nat, n as nat);
                }
                return Err(e);
            },
        }
        i = i + 1;
    }
    Ok((vector, p))
}

/// Reads `n` key/value pairs at `pos`, setting each into the metadata.
pub fn read_pairs(bytes: &[u8], pos: usize, n: usize) -> (r: Result<(Metadata, usize), VectorDbError>)
    requires
        pos <= bytes@.len(),
    ensures
        read_matches(r, bytes@, parse_pairs(bytes@.skip(pos as int), n as nat)),
{
    let ghost b = bytes@.skip(pos as int);
    let mut metadata = Metadata::new();
    let mut p = pos;
    let mut i: usize = 0;
    while i < n
        invariant
            b == bytes@.skip(pos as int),
            i <= n,
            p <= bytes@.len(),
            parse_pairs(b, i as nat) == Ok::<(Seq<(Seq<char>, Seq<char>)>, Seq<u8>), DecodeFailure>(
                (metadata@, bytes@.skip(p as int)),
            ),
        decreases n - i,
    {
        let key = match read_string(bytes, p) {
            Ok((key, next)) => {
                p = next;
                key
            },
            Err(e) => {
                proof {
                    lemma_pairs_failure_persists(b, (i + 1) as nat, n as nat);
                }
                return Err(e);
            },
        };
        let value = match read_string(bytes, p) {
            Ok((value, next)) => {
                p = next;
                value
            },
            Err(e) => {
                proof {
                    lemma_pairs_failure_persists(b, (i + 1) as nat, n as nat);
                }
                return Err(e);
            },
        };
        metadata.insert(key, value);
        i = i + 1;
    }
    Ok((metadata, p))
}

/// Reads one embedding record at `pos`.
pub fn read_record(bytes: &[u8], pos: usize) -> (r: Result<(Embedding, usize), VectorDbError>)
    requires
        pos <= bytes@.len(),
    ensures
        read_matches(r, bytes@, parse_record(bytes@.skip(pos as int))),
{
    let (id, p) = read_u64(bytes, pos)?;
    let (vector_len, p) = read_len(bytes, p, "vector length")?;
    let (vector, p) = read_components(bytes, p, vector_len)?;
    let (metadata_len, p) = read_len(bytes, p, "metadata length")?;
    let (metadata, p) = read_pairs(bytes, p, metadata_len)?;
    Ok((Embedding::new(id, vector, metadata), p))
}

/// Checks the magic bytes and the version; returns the position after them.
pub fn validate_file_header(bytes: &[u8]) -> (r: Result<usize, VectorDbError>)
    ensures
        match (r, parse_header(bytes@)) {
            (Ok(p), Ok((_, rest))) => p <= bytes@.len() && bytes@.skip(p as int) == rest,
            (Err(e), Err(f)) => error_matches(e, f),
            _ => false,
        },
{
    if bytes.len() < 4 {
        return Err(VectorDbError::Io(unexpected_eof()));
    }
    let magic_ok = bytes[0] == 86u8 && bytes[1] == 68u8 && bytes[2] == 66u8 && bytes[3] == 49u8;
    proof {
        if magic_ok {
            assert(bytes@.take(4) =~= file_magic());
        } else {
            assert(bytes@.take(4) != file_magic()) by {
                if bytes@.take(4) == file_magic() {
                    assert(bytes@.take(4)[0] == bytes@[0]);
                    assert(bytes@.take(4)[1] == bytes@[1]);
                    assert(bytes@.take(4)[2] == bytes@[2]);
                    assert(bytes@.take(4)[3] == bytes@[3]);
                }
            }
        }
    }
    if !magic_ok {
        return Err(VectorDbError::CorruptedStorage(String::from_str("invalid file magic")));
    }
    let (version, p) = read_u16(bytes, 4)?;
    if version != FILE_VERSION {
        let mut msg = String::from_str("unsupported file version ");
        push_decimal(&mut msg, version as u64);
        return Err(VectorDbError::CorruptedStorage(msg));
    }
    Ok(p)
}

/// Reads the collection `name` from the bytes of its file.
pub fn decode_collection(name: &str, bytes: &[u8]) -> (r: Result<Collection, VectorDbError>)
    ensures
        match (r, spec_decode(bytes@)) {
            (Ok(c), Ok(index)) => c@ == (CollectionView { name: name@, index }),
            (Err(e), Err(f)) => error_matches(e, f),
            _ => false,
        },
{
    let p = validate_file_header(bytes)?;
    let (dimension, p) = read_len(bytes, p, "dimension")?;
    let (count, p) = read_len(bytes, p, "entry count")?;
    let ghost records = bytes@.skip(p as int);
    let mut collection = Collection::new(String::from_str(name), dimension)?;
    assert(spec_decode(bytes@) == match parse_records(records, count as nat, empty_index(dimension)) {
        Err(f) => Err(f),
        Ok((index, _)) => Ok::<IndexView, DecodeFailure>(index),
    });
    assert(collection@.index == empty_index(dimension));
    let mut p = p;
    let mut i: usize = 0;
    while i < count
        invariant
            spec_decode(bytes@) == match parse_records(records, count as nat, empty_index(dimension)) {
                Err(f) => Err(f),
                Ok((index, _)) => Ok::<IndexView, DecodeFailure>(index),
            },
            i <= count,
            p <= bytes@.len(),
            dimension > 0,
            collection@.name == name@,
            parse_records(records, i as nat, empty_index(dimension)) == Ok::<(IndexView, Seq<u8>), DecodeFailure>(
                (collection@.index, bytes@.skip(p as int)),
            ),
        decreases count - i,
    {
        let (embedding, next) = match read_record(bytes, p) {
            Ok(x) => x,
            Err(e) => {
                proof {
                    lemma_records_failure_persists(records, (i + 1) as nat, count as nat, empty_index(dimension));
                }
                return Err(e);
            },
        };
        match collection.insert_embedding(embedding) {
            Ok(()) => {},
            Err(err) => {
                let mut msg = String::from_str("failed to load embedding: ");
                let text = err.to_string();
                msg.append(text.as_str());
                proof {
                    lemma_records_failure_persists(records, (i + 1) as nat, count as nat, empty_index(dimension));
                }
                return Err(VectorDbError::CorruptedStorage(msg));
            },
        }
        p = next;
        i = i + 1;
    }
    Ok(collection)
}

/// Appends one embedding record.
pub fn write_embedding(buffer: &mut Vec<u8>, embedding: &Embedding)
    ensures
        final(buffer)@ == old(buffer)@ + embedding_bytes(embedding@),
        embedding_encodable(embedding@),
{
    let ghost start = buffer@;
    let ghost e = embedding@;
    write_u64(buffer, embedding.id);
    write_u64(buffer, embedding.vector.len() as u64);
    let ghost start2 = buffer@;
    let mut j: usize = 0;
    assert(e.vector.take(0) =~= Seq::<u32>::empty());
    assert(buffer@ =~= start2 + components_bytes(e.vector.take(0)));
    while j < embedding.vector.len()
        invariant
            e == embedding@,
            j <= e.vector.len(),
            buffer@ == start2 + components_bytes(e.vector.take(j as int)),
        decreases e.vector.len() - j,
    {
        write_u32(buffer, embedding.vector[j]);
        assert(e.vector.take(j + 1).drop_last() =~= e.vector.take(j as int));
        assert(buffer@ =~= start2 + components_bytes(e.vector.take(j + 1)));
        j = j + 1;
    }
    assert(e.vector.take(j as int) =~= e.vector);
    let pairs = embedding.metadata.entries();
    write_u64(buffer, pairs.len() as u64);
    let ghost start3 = buffer@;
    let ghost m = e.metadata;
    let mut k: usize = 0;
    assert(m.take(0) =~= Seq::<(Seq<char>, Seq<char>)>::empty());
    assert(buffer@ =~= start3 + pairs_bytes(m.take(0)));
    while k < pairs.len()
        invariant
            e == embedding@,
            m == e.metadata,
            pairs_view(pairs@) == m,
            k <= m.len(),
            buffer@ == start3 + pairs_bytes(m.take(k as int)),
            forall|t: int| 0 <= t < k ==> pair_encodable(#[trigger] m[t]),
        decreases m.len() - k,
    {
        assert(m[k as int] == (pairs@[k as int].0@, pairs@[k as int].1@));
        write_string(buffer, pairs[k].0.as_str());
        write_string(buffer, pairs[k].1.as_str());
        assert(pair_encodable(m[k as int]));
        assert(m.take(k + 1).drop_last() =~= m.take(k as int));
        assert(buffer@ =~= start3 + pairs_bytes(m.take(k + 1)));
        k = k + 1;
    }
    assert(m.take(k as int) =~= m);
    assert(buffer@ =~= start + embedding_bytes(e));
}

/// The bytes of the file that stores `collection`.
pub fn encode_collection(collection: &Collection) -> (bytes: Vec<u8>)
    ensures
        bytes@ == collection_bytes(collection@.index),
        encodable(collection@.index),
        index_wf(collection@.index),
{
    let mut buffer: Vec<u8> = Vec::new();
    buffer.push(86u8);
    buffer.push(68u8);
    buffer.push(66u8);
    buffer.push(49u8);
    assert(buffer@ =~= file_magic());
    write_u16(&mut buffer, FILE_VERSION);
    write_u64(&mut buffer, collection.dimension() as u64);
    let entries = collection.embeddings();
    write_u64(&mut buffer, entries.len() as u64);
    let ghost start = buffer@;
    let ghost s = collection@.index.entries;
    let mut i: usize = 0;
    assert(s.take(0) =~= Seq::<EmbeddingView>::empty());
    assert(buffer@ =~= start + entries_bytes(s.take(0)));
    while i < entries.len()
        invariant
            entries_view(entries@) == s,
            i <= s.len(),
            buffer@ == start + entries_bytes(s.take(i as int)),
            forall|t: int| 0 <= t < i ==> embedding_encodable(#[trigger] s[t]),
        decreases s.len() - i,
    {
        write_embedding(&mut buffer, &entries[i]);
        assert(s.take(i + 1).drop_last() =~= s.take(i as int));
        assert(buffer@ =~= start + entries_bytes(s.take(i + 1)));
        i = i + 1;
    }
    assert(s.take(i as int) =~= s);
    assert(buffer@ =~= collection_bytes(collection@.index));
    buffer
}

/// What loading collection `name` from the bytes of its file gives: the
/// name must be valid, then the bytes are read.
pub open spec fn spec_load(name: Seq<char>, b: Seq<u8>) -> Result<IndexView, DecodeFailure> {
    if !is_valid_collection_name(name) {
        Err(DecodeFailure::Error(ErrorView::InvalidCollectionName(name)))
    } else {
        spec_decode(b)
    }
}

/// Loads collection `name` from the bytes of its file.
pub fn load_collection(name: &str, bytes: &[u8]) -> (r: Result<Collection, VectorDbError>)
    ensures
        match (r, spec_load(name@, bytes@)) {
            (Ok(c), Ok(index)) => c@ == (CollectionView { name: name@, index }),
            (Err(e), Err(f)) => error_matches(e, f),
            _ => false,
        },
{
    crate::validation::validate_collection_name(name)?;
    decode_collection(name, bytes)
}

/// The head of a collection file: the bytes `V`, `D`, `B`, `1`, the version
/// 1 in two little-endian bytes, then the dimension and the number of
/// entries, each in eight little-endian bytes.
pub proof fn lemma_file_head(v: IndexView)
    ensures
        collection_bytes(v).len() >= 22,
        collection_bytes(v).take(4) == seq![86u8, 68u8, 66u8, 49u8],
        spec_u16_from_le_bytes(collection_bytes(v).subrange(4, 6)) == 1u16,
        spec_u64_from_le_bytes(collection_bytes(v).subrange(6, 14)) == v.dimension as u64,
        spec_u64_from_le_bytes(collection_bytes(v).subrange(14, 22)) == v.entries.len() as u64,
{
    lemma_auto_spec_u16_to_from_le_bytes();
    lemma_auto_spec_u64_to_from_le_bytes();
    let b = collection_bytes(v);
    let d = spec_u64_to_le_bytes(v.dimension as u64);
    let n = spec_u64_to_le_bytes(v.entries.len() as u64);
    let ver = spec_u16_to_le_bytes(1);
    assert(ver.len() == 2 && d.len() == 8 && n.len() == 8);
    assert(b.take(4) =~= seq![86u8, 68u8, 66u8, 49u8]);
    assert(b.subrange(6, 14) =~= d);
    assert(b.subrange(14, 22) =~= n);
    assert(b.subrange(4, 6) =~= ver);
}

/// A collection stored under a valid name loads back as it was stored; its
/// metric, which the file does not hold, reads back as Euclidean.
pub proof fn lemma_load_after_store(name: Seq<char>, v: IndexView)
    requires
        is_valid_collection_name(name),
        index_wf(v),
        encodable(v),
    ensures
        spec_load(name, collection_bytes(v)) == Ok::<IndexView, DecodeFailure>(
            IndexView { metric: DistanceMetric::Euclidean, ..v },
        ),
{
    lemma_decode_encode(v);
}

// ---------------------------------------------------------------------
// Reading back what was written.
// ---------------------------------------------------------------------

proof fn lemma_parse_u16_of(x: u16, rest: Seq<u8>)
    ensures
        parse_u16(spec_u16_to_le_bytes(x) + rest) == Ok::<(u16, Seq<u8>), DecodeFailure>((x, rest)),
{
    lemma_auto_spec_u16_to_from_le_bytes();
    let b = spec_u16_to_le_bytes(x) + rest;
    assert(b.take(2) =~= spec_u16_to_le_bytes(x));
    assert(b.skip(2) =~= rest);
}

proof fn lemma_parse_u32_of(x: u32, rest: Seq<u8>)
    ensures
        parse_u32(spec_u32_to_le_bytes(x) + rest) == Ok::<(u32, Seq<u8>), DecodeFailure>((x, rest)),
{
    lemma_auto_spec_u32_to_from_le_bytes();
    let b = spec_u32_to_le_bytes(x) + rest;
    assert(b.take(4) =~= spec_u32_to_le_bytes(x));
    assert(b.skip(4) =~= rest);
}

proof fn lemma_parse_u64_of(x: u64, rest: Seq<u8>)
    ensures
        parse_u64(spec_u64_to_le_bytes(x) + rest) == Ok::<(u64, Seq<u8>), DecodeFailure>((x, rest)),
{
    lemma_auto_spec_u64_to_from_le_bytes();
    let b = spec_u64_to_le_bytes(x) + rest;
    assert(b.take(8) =~= spec_u64_to_le_bytes(x));
    assert(b.skip(8) =~= rest);
}

proof fn lemma_parse_len_of(x: u64, rest: Seq<u8>, what: Seq<char>)
    requires
        x <= usize::MAX,
    ensures
        parse_len(spec_u64_to_le_bytes(x) + rest, what) == Ok::<(usize, Seq<u8>), DecodeFailure>(
            (x as usize, rest),
        ),
{
    lemma_parse_u64_of(x, rest);
}

proof fn lemma_parse_components_of(v: Seq<u32>, rest: Seq<u8>)
    ensures
        parse_components(components_bytes(v) + rest, v.len()) == Ok::<(Seq<u32>, Seq<u8>), DecodeFailure>(
            (v, rest),
        ),
    decreases v.len(),
{
    if v.len() > 0 {
        let init = v.drop_last();
        let tail = spec_u32_to_le_bytes(v.last()) + rest;
        assert(components_bytes(v) + rest =~= components_bytes(init) + tail);
        lemma_parse_components_of(init, tail);
        lemma_parse_u32_of(v.last(), rest);
        assert(init.push(v.last()) =~= v);
        assert(init.len() == (v.len() - 1) as nat);
    } else {
        assert(components_bytes(v) + rest =~= rest);
        assert(v =~= Seq::<u32>::empty());
    }
}

proof fn lemma_parse_string_of(s: Seq<char>, rest: Seq<u8>)
    requires
        encode_utf8(s).len() <= usize::MAX,
    ensures
        parse_string(string_bytes(s) + rest) == Ok::<(Seq<char>, Seq<u8>), DecodeFailure>((s, rest)),
{
    let enc = encode_utf8(s);
    let tail = enc + rest;
    assert(string_bytes(s) + rest =~= spec_u64_to_le_bytes(enc.len() as u64) + tail);
    lemma_parse_len_of(enc.len() as u64, tail, "string length"@);
    assert(tail.take(enc.len() as int) =~= enc);
    assert(tail.skip(enc.len() as int) =~= rest);
    encode_utf8_valid_utf8(s);
    encode_utf8_decode_utf8(s);
}

/// Setting a key greater than every key present appends it.
proof fn lemma_insert_greatest(s: Seq<(Seq<char>, Seq<char>)>, key: Seq<char>, value: Seq<char>)
    requires
        forall|j: int| 0 <= j < s.len() ==> key_lt(#[trigger] s[j].0, key),
    ensures
        metadata_insert(s, key, value) == s.push((key, value)),
    decreases s.len(),
{
    if s.len() > 0 {
        lemma_key_order(s[0].0, key, key);
        let rest = s.drop_first();
        assert forall|j: int| 0 <= j < rest.len() implies key_lt(#[trigger] rest[j].0, key) by {
            assert(rest[j] == s[j + 1]);
        }
        lemma_insert_greatest(rest, key, value);
        assert(seq![s[0]] + rest.push((key, value)) =~= s.push((key, value)));
    } else {
        assert(seq![(key, value)] =~= s.push((key, value)));
    }
}

proof fn lemma_parse_pairs_of(m: Seq<(Seq<char>, Seq<char>)>, rest: Seq<u8>)
    requires
        keys_sorted(m),
        forall|j: int| 0 <= j < m.len() ==> pair_encodable(#[trigger] m[j]),
    ensures
        parse_pairs(pairs_bytes(m) + rest, m.len()) == Ok::<
            (Seq<(Seq<char>, Seq<char>)>, Seq<u8>),
            DecodeFailure,
        >((m, rest)),
    decreases m.len(),
{
    if m.len() > 0 {
        let init = m.drop_last();
        let (key, value) = m.last();
        let tail = string_bytes(key) + string_bytes(value) + rest;
        assert(pairs_bytes(m) + rest =~= pairs_bytes(init) + tail);
        assert forall|a: int, b: int| 0 <= a < b < init.len() implies key_lt(
            #[trigger] init[a].0,
            #[trigger] init[b].0,
        ) by {
            assert(init[a] == m[a]);
            assert(init[b] == m[b]);
        }
        assert forall|j: int| 0 <= j < init.len() implies pair_encodable(#[trigger] init[j]) by {
            assert(init[j] == m[j]);
        }
        lemma_parse_pairs_of(init, tail);
        assert(m[m.len() - 1] == (key, value));
        assert(pair_encodable(m[m.len() - 1]));
        lemma_parse_string_of(key, string_bytes(value) + rest);
        assert(tail =~= string_bytes(key) + (string_bytes(value) + rest));
        lemma_parse_string_of(value, rest);
        assert forall|j: int| 0 <= j < init.len() implies key_lt(#[trigger] init[j].0, key) by {
            assert(init[j] == m[j]);
            assert(key_lt(m[j].0, m[m.len() - 1].0));
        }
        lemma_insert_greatest(init, key, value);
        assert(init.push((key, value)) =~= m);
        assert(init.len() == (m.len() - 1) as nat);
    } else {
        assert(pairs_bytes(m) + rest =~= rest);
        assert(m =~= Seq::<(Seq<char>, Seq<char>)>::empty());
    }
}

proof fn lemma_parse_record_of(e: EmbeddingView, rest: Seq<u8>)
    requires
        keys_sorted(e.metadata),
        embedding_encodable(e),
    ensures
        parse_record(embedding_bytes(e) + rest) == Ok::<(EmbeddingView, Seq<u8>), DecodeFailure>(
            (e, rest),
        ),
{
    let t4 = pairs_bytes(e.metadata) + rest;
    let t3 = spec_u64_to_le_bytes(e.metadata.len() as u64) + t4;
    let t2 = components_bytes(e.vector) + t3;
    let t1 = spec_u64_to_le_bytes(e.vector.len() as u64) + t2;
    assert(embedding_bytes(e) + rest =~= spec_u64_to_le_bytes(e.id) + t1);
    lemma_parse_u64_of(e.id, t1);
    lemma_parse_len_of(e.vector.len() as u64, t2, "vector length"@);
    lemma_parse_components_of(e.vector, t3);
    lemma_parse_len_of(e.metadata.len() as u64, t4, "metadata length"@);
    lemma_parse_pairs_of(e.metadata, rest);
}

proof fn lemma_parse_records_of(dimension: usize, s: Seq<EmbeddingView>, rest: Seq<u8>)
    requires
        dimension > 0,
        forall|i: int| 0 <= i < s.len() ==> entry_fits(dimension, #[trigger] s[i]),
        forall|i: int| 0 <= i < s.len() ==> embedding_encodable(#[trigger] s[i]),
        ids_unique(s),
    ensures
        parse_records(entries_bytes(s) + rest, s.len(), empty_index(dimension)) == Ok::<
            (IndexView, Seq<u8>),
            DecodeFailure,
        >((IndexView { entries: s, ..empty_index(dimension) }, rest)),
    decreases s.len(),
{
    if s.len() > 0 {
        let init = s.drop_last();
        let e = s.last();
        let tail = embedding_bytes(e) + rest;
        assert(entries_bytes(s) + rest =~= entries_bytes(init) + tail);
        assert forall|i: int| 0 <= i < init.len() implies entry_fits(dimension, #[trigger] init[i])
            && embedding_encodable(init[i]) by {
            assert(init[i] == s[i]);
        }
        assert forall|i: int, j: int|
            0 <= i < init.len() && 0 <= j < init.len() && i != j implies #[trigger] init[i].id
            != #[trigger] init[j].id by {
            assert(init[i] == s[i]);
            assert(init[j] == s[j]);
        }
        lemma_parse_records_of(dimension, init, tail);
        assert(e == s[s.len() - 1]);
        assert(entry_fits(dimension, e));
        assert(embedding_encodable(e));
        lemma_parse_record_of(e, rest);
        let before = IndexView { entries: init, ..empty_index(dimension) };
        assert(check_vector(dimension, e.vector) is Ok);
        assert(!has_id(init, e.id)) by {
            if has_id(init, e.id) {
                let w = choose|w: int| 0 <= w < init.len() && #[trigger] init[w].id == e.id;
                assert(s[w].id == s[s.len() - 1].id);
            }
        }
        assert(init.push(e) =~= s);
    } else {
        assert(entries_bytes(s) + rest =~= rest);
        assert(s =~= Seq::<EmbeddingView>::empty());
    }
}

/// Reading the bytes that store a well-formed index gives the index back;
/// only its metric is not stored, and reads back as Euclidean.
pub proof fn lemma_decode_encode(v: IndexView)
    requires
        index_wf(v),
        encodable(v),
    ensures
        spec_decode(collection_bytes(v)) == Ok::<IndexView, DecodeFailure>(
            IndexView { metric: DistanceMetric::Euclidean, ..v },
        ),
{
    let body = spec_u64_to_le_bytes(v.dimension as u64) + spec_u64_to_le_bytes(
        v.entries.len() as u64,
    ) + entries_bytes(v.entries);
    let b = collection_bytes(v);
    assert(b =~= file_magic() + (spec_u16_to_le_bytes(1) + body));
    assert(b.take(4) =~= file_magic());
    assert(b.skip(4) =~= spec_u16_to_le_bytes(1) + body);
    lemma_parse_u16_of(1, body);
    let r2 = spec_u64_to_le_bytes(v.entries.len() as u64) + entries_bytes(v.entries);
    assert(body =~= spec_u64_to_le_bytes(v.dimension as u64) + r2);
    lemma_parse_len_of(v.dimension as u64, r2, "dimension"@);
    let r3 = entries_bytes(v.entries) + Seq::<u8>::empty();
    assert(r2 =~= spec_u64_to_le_bytes(v.entries.len() as u64) + r3);
    lemma_parse_len_of(v.entries.len() as u64, r3, "entry count"@);
    lemma_parse_records_of(v.dimension, v.entries, Seq::empty());
}

} // verus!