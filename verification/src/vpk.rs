//! The VPK archive directory format: header, directory tree and file
//! entries, parsed from the bytes of a `_dir.vpk` file.
use crate::text::append_bytes;
use crate::text::chars_of;
use crate::text::find_name_start;
use crate::text::lemma_name_start_bounds;
use crate::text::name_start;
use crate::text::matches_at;
use crate::text::occurs_at;
use crate::text::replace_all;
use crate::text::replaced;
use crate::text::string_from_chars;
use vstd::prelude::*;
use vstd::slice::slice_subrange;
use vstd::slice::slice_to_vec;
use vstd::string::StringExecFns;
use vstd::utf8::decode_utf8;
use vstd::utf8::encode_utf8;
use vstd::utf8::valid_utf8;

verus! {

/// The magic number that opens every VPK directory file.
pub const VPK_SIGNATURE: u32 = 0x55aa1234;

/// Why a VPK could not be read, or a file could not be found in it.
#[derive(Debug, Clone, Copy, PartialEq, Eq, Structural)]
pub enum VpkError {
    /// The data ended before a complete value could be read.
    UnexpectedEof,
    /// The file does not start with `VPK_SIGNATURE`.
    InvalidSignature,
    /// The header names a version other than 1 or 2.
    UnsupportedVersion,
    /// A directory entry is not terminated by `0xffff`.
    InvalidSuffix,
    /// A name in the directory tree is not valid UTF-8.
    InvalidUtf8,
    /// No file of that path is in the archive.
    NotFound,
    /// A seek would move before the start of a file.
    InvalidSeek,
}

/// The little-endian `u16` at byte `i` of `d`.
pub open spec fn le_u16(d: Seq<u8>, i: int) -> u16 {
    (d[i] + 256 * d[i + 1]) as u16
}

/// The little-endian `u32` at byte `i` of `d`.
pub open spec fn le_u32(d: Seq<u8>, i: int) -> u32 {
    (d[i] + 256 * d[i + 1] + 65536 * d[i + 2] + 16777216 * d[i + 3]) as u32
}

/// Reads the little-endian `u32` at `pos`.
pub fn read_u32(data: &[u8], pos: usize) -> (r: Result<u32, VpkError>)
    ensures
        pos + 4 <= data@.len() ==> r == Ok::<u32, VpkError>(le_u32(data@, pos as int)),
        pos + 4 > data@.len() ==> r == Err::<u32, VpkError>(VpkError::UnexpectedEof),
{
    if pos > data.len() || data.len() - pos < 4 {
        return Err(VpkError::UnexpectedEof);
    }
    let b0 = data[pos] as u32;
    let b1 = data[pos + 1] as u32;
    let b2 = data[pos + 2] as u32;
    let b3 = data[pos + 3] as u32;
    Ok(b0 + 256 * b1 + 65536 * b2 + 16777216 * b3)
}

/// Reads the little-endian `u16` at `pos`.
pub fn read_u16(data: &[u8], pos: usize) -> (r: Result<u16, VpkError>)
    ensures
        pos + 2 <= data@.len() ==> r == Ok::<u16, VpkError>(le_u16(data@, pos as int)),
        pos + 2 > data@.len() ==> r == Err::<u16, VpkError>(VpkError::UnexpectedEof),
{
    if pos > data.len() || data.len() - pos < 2 {
        return Err(VpkError::UnexpectedEof);
    }
    let b0 = data[pos] as u16;
    let b1 = data[pos + 1] as u16;
    Ok(b0 + 256 * b1)
}

/// The number of non-NUL bytes of `d` from `pos` on, up to the first NUL
/// or the end of `d`.
pub open spec fn run_len(d: Seq<u8>, pos: int) -> nat
    decreases d.len() - pos,
{
    if pos < 0 || pos >= d.len() || d[pos] == 0 {
        0
    } else {
        1 + run_len(d, pos + 1)
    }
}

/// The NUL-terminated UTF-8 string at `pos`, with the position just past
/// its terminator.
pub open spec fn spec_cstring(d: Seq<u8>, pos: int) -> Result<(Seq<char>, int), VpkError> {
    let n = run_len(d, pos);
    if pos < 0 || pos + n >= d.len() {
        Err(VpkError::UnexpectedEof)
    } else if !valid_utf8(d.subrange(pos, pos + n)) {
        Err(VpkError::InvalidUtf8)
    } else {
        Ok((decode_utf8(d.subrange(pos, pos + n)), pos + n + 1))
    }
}

proof fn lemma_run_len_end(d: Seq<u8>, pos: int, j: int)
    requires
        0 <= pos <= j <= d.len(),
        forall|k: int| pos <= k < j ==> d[k] != 0,
    ensures
        j == d.len() ==> run_len(d, pos) == j - pos,
        j < d.len() && d[j] == 0 ==> run_len(d, pos) == j - pos,
    decreases j - pos,
{
    if pos < j {
        lemma_run_len_end(d, pos + 1, j);
    }
}

/// Decodes bytes as UTF-8 (`String::from_utf8`): `None` exactly when
/// they are not valid UTF-8, otherwise the string they encode.
#[verifier::external_body]
fn string_from_utf8(bytes: Vec<u8>) -> (r: Option<String>)
    ensures
        r is Some <==> valid_utf8(bytes@),
        r matches Some(s) ==> s@ == decode_utf8(bytes@),
{
    String::from_utf8(bytes).ok()
}

/// Reads the NUL-terminated UTF-8 string at `pos`; returns it with the
/// position just past its terminator.
pub fn read_cstring(data: &[u8], pos: usize) -> (r: Result<(String, usize), VpkError>)
    ensures
        match r {
            Ok((s, next)) => spec_cstring(data@, pos as int) == Ok::<(Seq<char>, int), VpkError>(
                (s@, next as int),
            ),
            Err(e) => spec_cstring(data@, pos as int) == Err::<(Seq<char>, int), VpkError>(e),
        },
{
    let len = data.len();
    if pos >= len {
        return Err(VpkError::UnexpectedEof);
    }
    let mut j = pos;
    while j < len && data[j] != 0
        invariant
            pos <= j <= len,
            len == data@.len(),
            forall|k: int| pos <= k < j ==> data@[k] != 0,
        decreases len - j,
    {
        j = j + 1;
    }
    proof {
        lemma_run_len_end(data@, pos as int, j as int);
    }
    if j >= len {
        return Err(VpkError::UnexpectedEof);
    }
    let raw = slice_to_vec(slice_subrange(data, pos, j));
    match string_from_utf8(raw) {
        Some(s) => Ok((s, j + 1)),
        None => Err(VpkError::InvalidUtf8),
    }
}


/// The fixed part of a VPK directory file.
#[derive(Debug, Clone, Copy, PartialEq, Eq)]
pub struct VpkHeader {
    pub signature: u32,
    pub version: u32,
    pub tree_length: u32,
    pub embed_chunk_length: Option<u32>,
    pub chunk_hashes_length: Option<u32>,
    pub self_hashes_length: Option<u32>,
    pub signature_length: Option<u32>,
}

/// Where the bytes of one archived file are found.
#[derive(Debug, Clone)]
pub struct VpkEntry {
    pub crc32: u32,
    pub preload: Vec<u8>,
    pub archive_index: u16,
    pub archive_offset: u32,
    pub file_length: u32,
}

/// The mathematical value of a `VpkEntry`.
pub struct VpkEntryView {
    pub crc32: u32,
    pub preload: Seq<u8>,
    pub archive_index: u16,
    pub archive_offset: u32,
    pub file_length: u32,
}

impl View for VpkEntry {
    type V = VpkEntryView;

    open spec fn view(&self) -> VpkEntryView {
        VpkEntryView {
            crc32: self.crc32,
            preload: self.preload@,
            archive_index: self.archive_index,
            archive_offset: self.archive_offset,
            file_length: self.file_length,
        }
    }
}

/// The archive index that marks data stored in the directory file itself.
pub const DIR_ARCHIVE_INDEX: u16 = 0x7fff;

/// The directory part of a key: a lone space stands for the root.
pub open spec fn dir_prefix(s: Seq<char>) -> Seq<char> {
    if s == seq![' '] {
        Seq::<char>::empty()
    } else {
        s.push('/')
    }
}

/// The path under which an entry is filed: `dir` `name` `.` `ext`.
pub open spec fn entry_key(dir: Seq<char>, name: Seq<char>, ext: Seq<char>) -> Seq<char> {
    dir + name + seq!['.'] + ext
}

/// The entry whose fixed 18 bytes start at `pos`; `data_end` is the
/// offset, in the directory file, just past the tree.
pub open spec fn spec_entry(d: Seq<u8>, pos: int, data_end: u32) -> VpkEntryView {
    let index = le_u16(d, pos + 6);
    let offset = le_u32(d, pos + 8);
    VpkEntryView {
        crc32: le_u32(d, pos),
        preload: d.subrange(pos + 18, pos + 18 + le_u16(d, pos + 4)),
        archive_index: index,
        archive_offset: if index == DIR_ARCHIVE_INDEX {
            ((offset + data_end) % 0x1_0000_0000) as u32
        } else {
            offset
        },
        file_length: le_u32(d, pos + 12),
    }
}

/// `Ok(prefix + rest)` when `r` is `Ok(rest)`; the error otherwise.
pub open spec fn prepend_ok<T>(prefix: Seq<T>, r: Result<Seq<T>, VpkError>) -> Result<Seq<T>, VpkError> {
    match r {
        Ok(rest) => Ok(prefix + rest),
        Err(e) => Err(e),
    }
}

/// The directory tree from `pos` on, as the list of (path, entry) pairs in
/// file order. `level` is 0 while reading extensions, 1 while reading
/// directories of extension `ext`, 2 while reading names in directory `dir`.
pub open spec fn spec_tree(
    d: Seq<u8>,
    pos: int,
    level: int,
    ext: Seq<char>,
    dir: Seq<char>,
    data_end: u32,
) -> Result<Seq<(Seq<char>, VpkEntryView)>, VpkError>
    decreases d.len() - pos,
{
    if pos < 0 || pos >= d.len() {
        Err(VpkError::UnexpectedEof)
    } else {
        let n = run_len(d, pos);
        let next = pos + n + 1;
        if pos + n >= d.len() {
            Err(VpkError::UnexpectedEof)
        } else if !valid_utf8(d.subrange(pos, pos + n)) {
            Err(VpkError::InvalidUtf8)
        } else {
            let s = decode_utf8(d.subrange(pos, pos + n));
            if level == 0 {
                if s.len() == 0 {
                    Ok(Seq::empty())
                } else {
                    spec_tree(d, next, 1, s, Seq::empty(), data_end)
                }
            } else if level == 1 {
                if s.len() == 0 {
                    spec_tree(d, next, 0, ext, dir, data_end)
                } else {
                    spec_tree(d, next, 2, ext, dir_prefix(s), data_end)
                }
            } else if s.len() == 0 {
                spec_tree(d, next, 1, ext, dir, data_end)
            } else if next + 18 > d.len() {
                Err(VpkError::UnexpectedEof)
            } else if le_u16(d, next + 16) != 0xffff {
                Err(VpkError::InvalidSuffix)
            } else if next + 18 + le_u16(d, next + 4) > d.len() {
                Err(VpkError::UnexpectedEof)
            } else {
                prepend_ok(
                    seq![(entry_key(dir, s, ext), spec_entry(d, next, data_end))],
                    spec_tree(d, next + 18 + le_u16(d, next + 4), 2, ext, dir, data_end),
                )
            }
        }
    }
}

/// What `spec_tree` yields once the string `s` has been read at its
/// position, `next` being the position just past that string.
pub open spec fn tree_after(
    d: Seq<u8>,
    s: Seq<char>,
    next: int,
    level: int,
    ext: Seq<char>,
    dir: Seq<char>,
    data_end: u32,
) -> Result<Seq<(Seq<char>, VpkEntryView)>, VpkError> {
    if level == 0 {
        if s.len() == 0 {
            Ok(Seq::empty())
        } else {
            spec_tree(d, next, 1, s, Seq::empty(), data_end)
        }
    } else if level == 1 {
        if s.len() == 0 {
            spec_tree(d, next, 0, ext, dir, data_end)
        } else {
            spec_tree(d, next, 2, ext, dir_prefix(s), data_end)
        }
    } else if s.len() == 0 {
        spec_tree(d, next, 1, ext, dir, data_end)
    } else if next + 18 > d.len() {
        Err(VpkError::UnexpectedEof)
    } else if le_u16(d, next + 16) != 0xffff {
        Err(VpkError::InvalidSuffix)
    } else if next + 18 + le_u16(d, next + 4) > d.len() {
        Err(VpkError::UnexpectedEof)
    } else {
        prepend_ok(
            seq![(entry_key(dir, s, ext), spec_entry(d, next, data_end))],
            spec_tree(d, next + 18 + le_u16(d, next + 4), 2, ext, dir, data_end),
        )
    }
}

proof fn lemma_tree_unfold(
    d: Seq<u8>,
    pos: int,
    level: int,
    ext: Seq<char>,
    dir: Seq<char>,
    data_end: u32,
)
    requires
        0 <= pos < d.len(),
    ensures
        spec_tree(d, pos, level, ext, dir, data_end) == match spec_cstring(d, pos) {
            Ok((s, next)) => tree_after(d, s, next, level, ext, dir, data_end),
            Err(e) => Err(e),
        },
{
}

/// Whether `n` can be a name in a directory tree: not empty, without NUL
/// bytes, and valid UTF-8.
pub open spec fn tree_name(n: Seq<u8>) -> bool {
    &&& n.len() > 0
    &&& forall|i: int| 0 <= i < n.len() ==> n[i] != 0
    &&& valid_utf8(n)
}

/// Whether the bytes of `d` from `pos` on hold the file names `names` of a
/// directory block, in order: each as its bytes, a NUL, and an 18-byte
/// entry with no preload bytes that ends in `0xffff`.
pub open spec fn names_block_at(d: Seq<u8>, pos: int, names: Seq<Seq<u8>>) -> bool
    decreases names.len(),
{
    names.len() == 0 || {
        let n = names[0];
        let e = pos + n.len() + 1;
        &&& tree_name(n)
        &&& 0 <= pos
        &&& e + 18 <= d.len()
        &&& d.subrange(pos, pos + n.len()) == n
        &&& d[pos + n.len()] == 0
        &&& le_u16(d, e + 4) == 0
        &&& le_u16(d, e + 16) == 0xffff
        &&& names_block_at(d, e + 18, names.skip(1))
    }
}

/// The position just past the names `names` of a block that starts at
/// `pos` (each takes its bytes, a NUL and 18 entry bytes).
pub open spec fn block_end(pos: int, names: Seq<Seq<u8>>) -> int
    decreases names.len(),
{
    if names.len() == 0 {
        pos
    } else {
        block_end(pos + names[0].len() + 19, names.skip(1))
    }
}

/// Every file of a directory block is filed under that block's directory:
/// reading, in directory `dir` of extension `ext`, a block whose names are
/// `n1 .. nk` lists first the paths `dir + ni + "." + ext`, one for every
/// name, in order, and then what follows the block; an error after the
/// block is the error of the whole.
pub proof fn lemma_block_names_share_directory(
    d: Seq<u8>,
    pos: int,
    names: Seq<Seq<u8>>,
    ext: Seq<char>,
    dir: Seq<char>,
    data_end: u32,
)
    requires
        names_block_at(d, pos, names),
    ensures
        match spec_tree(d, pos, 2, ext, dir, data_end) {
            Ok(es) => {
                &&& es.len() >= names.len()
                &&& forall|i: int|
                    0 <= i < names.len() ==> #[trigger] es[i].0 == dir + decode_utf8(names[i]) + seq!['.'] + ext
                &&& spec_tree(d, block_end(pos, names), 2, ext, dir, data_end)
                    == Ok::<Seq<(Seq<char>, VpkEntryView)>, VpkError>(es.skip(names.len() as int))
            },
            Err(e) => spec_tree(d, block_end(pos, names), 2, ext, dir, data_end) == Err::<
                Seq<(Seq<char>, VpkEntryView)>,
                VpkError,
            >(e),
        },
    decreases names.len(),
{
    if names.len() == 0 {
        match spec_tree(d, pos, 2, ext, dir, data_end) {
            Ok(es) => {
                assert(es.skip(0) =~= es);
            },
            Err(_) => {},
        }
    } else {
        let n = names[0];
        let e = pos + n.len() + 1;
        let rest = names.skip(1);
        assert forall|k: int| pos <= k < pos + n.len() implies d[k] != 0 by {
            assert(d.subrange(pos, pos + n.len())[k - pos] == d[k]);
        }
        lemma_run_len_end(d, pos, pos + n.len());
        assert(run_len(d, pos) == n.len());
        let str = decode_utf8(n);
        assert(str.len() > 0);
        lemma_block_names_share_directory(d, e + 18, rest, ext, dir, data_end);
        assert(block_end(pos, names) == block_end(e + 18, rest));
        let item = (dir + str + seq!['.'] + ext, spec_entry(d, e, data_end));
        let tail = spec_tree(d, e + 18, 2, ext, dir, data_end);
        assert(spec_tree(d, pos, 2, ext, dir, data_end) == prepend_ok(seq![item], tail));
        match tail {
            Ok(es1) => {
                let es = seq![item] + es1;
                assert forall|i: int| 0 <= i < names.len() implies #[trigger] es[i].0 == dir + decode_utf8(names[i])
                    + seq!['.'] + ext by {
                    if i > 0 {
                        assert(es[i] == es1[i - 1]);
                        assert(rest[i - 1] == names[i]);
                    }
                }
                assert(es.skip(names.len() as int) =~= es1.skip(rest.len() as int));
            },
            Err(_) => {},
        }
    }
}

/// The (path, entry) pairs of a tree, as values.
pub open spec fn entries_of(tree: Seq<(String, VpkEntry)>) -> Seq<(Seq<char>, VpkEntryView)> {
    tree.map_values(|p: (String, VpkEntry)| (p.0@, p.1@))
}

/// Reads the fixed 18 bytes of an entry at `pos` and its preload data;
/// returns the entry and the position just past it.
pub fn read_entry(data: &[u8], pos: usize, data_end: u32) -> (r: Result<(VpkEntry, usize), VpkError>)
    ensures
        match r {
            Ok((e, after)) => {
                &&& pos + 18 <= data@.len()
                &&& le_u16(data@, pos + 16) == 0xffff
                &&& after == pos + 18 + le_u16(data@, pos + 4)
                &&& after <= data@.len()
                &&& e@ == spec_entry(data@, pos as int, data_end)
            },
            Err(e) => {
                ||| pos + 18 > data@.len() && e == VpkError::UnexpectedEof
                ||| pos + 18 <= data@.len() && le_u16(data@, pos + 16) != 0xffff && e
                    == VpkError::InvalidSuffix
                ||| pos + 18 <= data@.len() && le_u16(data@, pos + 16) == 0xffff && pos + 18
                    + le_u16(data@, pos + 4) > data@.len() && e == VpkError::UnexpectedEof
            },
        },
{
    if pos > data.len() || data.len() - pos < 18 {
        return Err(VpkError::UnexpectedEof);
    }
    let crc32 = read_u32(data, pos).unwrap();
    let preload_length = read_u16(data, pos + 4).unwrap();
    let archive_index = read_u16(data, pos + 6).unwrap();
    let offset = read_u32(data, pos + 8).unwrap();
    let file_length = read_u32(data, pos + 12).unwrap();
    let suffix = read_u16(data, pos + 16).unwrap();
    if suffix != 0xffff {
        return Err(VpkError::InvalidSuffix);
    }
    let body = pos + 18;
    if data.len() - body < preload_length as usize {
        return Err(VpkError::UnexpectedEof);
    }
    let after = body + preload_length as usize;
    let archive_offset = if archive_index == DIR_ARCHIVE_INDEX {
        offset.wrapping_add(data_end)
    } else {
        offset
    };
    let preload = slice_to_vec(slice_subrange(data, body, after));
    Ok((VpkEntry { crc32, preload, archive_index, archive_offset, file_length }, after))
}

/// Parses the directory tree that starts at `start`; `data_end` is the
/// offset just past the tree, to which entries stored in the directory
/// file are relative.
#[verifier::rlimit(40)]
pub fn parse_tree(data: &[u8], start: usize, data_end: u32) -> (r: Result<Vec<(String, VpkEntry)>, VpkError>)
    ensures
        match r {
            Ok(tree) => spec_tree(data@, start as int, 0, Seq::empty(), Seq::empty(), data_end)
                == Ok::<Seq<(Seq<char>, VpkEntryView)>, VpkError>(entries_of(tree@)),
            Err(e) => spec_tree(data@, start as int, 0, Seq::empty(), Seq::empty(), data_end)
                == Err::<Seq<(Seq<char>, VpkEntryView)>, VpkError>(e),
        },
{
    let ghost d = data@;
    let ghost whole = spec_tree(d, start as int, 0, Seq::empty(), Seq::empty(), data_end);
    let mut tree: Vec<(String, VpkEntry)> = Vec::new();
    let mut pos = start;
    let mut level: u8 = 0;
    let mut ext = String::new();
    let mut dir = String::new();
    let space = String::from_str(" ");
    proof {
        reveal_strlit(" ");
        assert(entries_of(tree@) =~= Seq::<(Seq<char>, VpkEntryView)>::empty());
        assert(prepend_ok(Seq::<(Seq<char>, VpkEntryView)>::empty(), whole) =~= whole) by {
            match whole {
                Ok(x) => { assert(Seq::<(Seq<char>, VpkEntryView)>::empty() + x =~= x); }
                Err(_) => {}
            }
        }
    }
    loop
        invariant
            d == data@,
            level <= 2,
            space@ == seq![' '],
            whole == spec_tree(d, start as int, 0, Seq::empty(), Seq::empty(), data_end),
            whole == prepend_ok(entries_of(tree@), spec_tree(d, pos as int, level as int, ext@, dir@, data_end)),
        decreases d.len() - pos,
    {
        if pos >= data.len() {
            return Err(VpkError::UnexpectedEof);
        }
        let (s, next) = match read_cstring(data, pos) {
            Ok(x) => x,
            Err(e) => {
                return Err(e);
            }
        };
        let empty = s.as_str().is_empty();
        let ghost cur = spec_tree(d, pos as int, level as int, ext@, dir@, data_end);
        proof {
            lemma_tree_unfold(d, pos as int, level as int, ext@, dir@, data_end);
            assert(cur == tree_after(d, s@, next as int, level as int, ext@, dir@, data_end));
        }
        if level == 0 {
            if empty {
                proof {
                    assert(entries_of(tree@) + Seq::<(Seq<char>, VpkEntryView)>::empty() =~= entries_of(tree@));
                }
                return Ok(tree);
            }
            ext = s;
            dir = String::new();
            level = 1;
            assert(cur == spec_tree(d, next as int, level as int, ext@, dir@, data_end));
        } else if level == 1 {
            if empty {
                level = 0;
                assert(cur == spec_tree(d, next as int, level as int, ext@, dir@, data_end));
            } else {
                if s == space {
                    dir = String::new();
                } else {
                    let mut p = s.clone();
                    p.append("/");
                    proof {
                        reveal_strlit("/");
                        assert(p@ =~= s@.push('/'));
                    }
                    dir = p;
                }
                assert(dir@ == dir_prefix(s@));
                level = 2;
                assert(cur == spec_tree(d, next as int, level as int, ext@, dir@, data_end));
            }
        } else if empty {
            level = 1;
            assert(cur == spec_tree(d, next as int, level as int, ext@, dir@, data_end));
        } else {
            let (entry, after) = match read_entry(data, next, data_end) {
                Ok(x) => x,
                Err(e) => {
                    return Err(e);
                }
            };
            let mut key = dir.clone();
            key.append(s.as_str());
            key.append(".");
            key.append(ext.as_str());
            proof { reveal_strlit("."); }
            let ghost before = tree@;
            let ghost item = (key@, entry@);
            proof {
                assert(item == (entry_key(dir@, s@, ext@), spec_entry(d, next as int, data_end)));
            }
            tree.push((key, entry));
            proof {
                assert(entries_of(tree@) =~= entries_of(before) + seq![item]);
                let rest = spec_tree(d, after as int, 2, ext@, dir@, data_end);
                match rest {
                    Ok(x) => {
                        assert(entries_of(before) + (seq![item] + x) =~= entries_of(tree@) + x);
                    }
                    Err(_) => {}
                }
            }
            pos = after;
            continue;
        }
        pos = next;
    }
}

/// The index of the first entry filed under `k`, from `i` on.
pub open spec fn path_index(es: Seq<(Seq<char>, VpkEntryView)>, k: Seq<char>, i: int) -> Option<int>
    decreases es.len() - i,
{
    if i < 0 || i >= es.len() {
        None
    } else if es[i].0 == k {
        Some(i)
    } else {
        path_index(es, k, i + 1)
    }
}

/// Files entry `v` under `k`: it takes the place of an entry already filed
/// under `k`, or is added at the end.
pub open spec fn put_entry(es: Seq<(Seq<char>, VpkEntryView)>, k: Seq<char>, v: VpkEntryView) -> Seq<
    (Seq<char>, VpkEntryView),
> {
    match path_index(es, k, 0) {
        Some(i) => es.update(i, (k, v)),
        None => es.push((k, v)),
    }
}

/// The listing `es` with one entry per path, the last one listed for it.
pub open spec fn one_per_path(es: Seq<(Seq<char>, VpkEntryView)>) -> Seq<(Seq<char>, VpkEntryView)>
    decreases es.len(),
{
    if es.len() == 0 {
        Seq::empty()
    } else {
        put_entry(one_per_path(es.drop_last()), es.last().0, es.last().1)
    }
}

/// Whether no path is listed twice.
pub open spec fn paths_distinct(es: Seq<(Seq<char>, VpkEntryView)>) -> bool {
    forall|a: int, b: int| 0 <= a < b < es.len() ==> es[a].0 != es[b].0
}

proof fn lemma_path_index(es: Seq<(Seq<char>, VpkEntryView)>, k: Seq<char>, i: int)
    requires
        0 <= i,
    ensures
        path_index(es, k, i) matches Some(j) ==> i <= j < es.len() && es[j].0 == k,
        path_index(es, k, i) is None ==> forall|j: int| i <= j < es.len() ==> es[j].0 != k,
    decreases es.len() - i,
{
    if i < es.len() && es[i].0 != k {
        lemma_path_index(es, k, i + 1);
    }
}

proof fn lemma_tree_map_update(es: Seq<(Seq<char>, VpkEntryView)>, i: int, k: Seq<char>, v: VpkEntryView)
    requires
        paths_distinct(es),
        0 <= i < es.len(),
        es[i].0 == k,
    ensures
        tree_map(es.update(i, (k, v))) == tree_map(es).insert(k, v),
    decreases es.len(),
{
    let u = es.update(i, (k, v));
    let d = es.drop_last();
    if i == es.len() - 1 {
        assert(u.drop_last() =~= d);
        assert(tree_map(d).insert(k, es.last().1).insert(k, v) =~= tree_map(d).insert(k, v));
    } else {
        assert(u.drop_last() =~= d.update(i, (k, v)));
        lemma_tree_map_update(d, i, k, v);
        assert(es.last().0 != k);
        assert(tree_map(d).insert(k, v).insert(es.last().0, es.last().1) =~= tree_map(d).insert(
            es.last().0,
            es.last().1,
        ).insert(k, v));
    }
}

proof fn lemma_put_entry(es: Seq<(Seq<char>, VpkEntryView)>, k: Seq<char>, v: VpkEntryView)
    requires
        paths_distinct(es),
    ensures
        paths_distinct(put_entry(es, k, v)),
        tree_map(put_entry(es, k, v)) == tree_map(es).insert(k, v),
{
    lemma_path_index(es, k, 0);
    match path_index(es, k, 0) {
        Some(i) => {
            lemma_tree_map_update(es, i, k, v);
            let u = es.update(i, (k, v));
            assert forall|a: int, b: int| 0 <= a < b < u.len() implies u[a].0 != u[b].0 by {
                assert(u[a].0 == es[a].0 && u[b].0 == es[b].0);
            }
        },
        None => {
            let u = es.push((k, v));
            assert(u.drop_last() =~= es);
            assert forall|a: int, b: int| 0 <= a < b < u.len() implies u[a].0 != u[b].0 by {
                if b == es.len() {
                    assert(u[a].0 == es[a].0);
                } else {
                    assert(u[a] == es[a] && u[b] == es[b]);
                }
            }
        },
    }
}

/// Keeping one entry per path lists every path once and files each path
/// exactly as the full listing does: under the last entry listed for it.
pub proof fn lemma_one_per_path(es: Seq<(Seq<char>, VpkEntryView)>)
    ensures
        paths_distinct(one_per_path(es)),
        tree_map(one_per_path(es)) == tree_map(es),
    decreases es.len(),
{
    if es.len() > 0 {
        lemma_one_per_path(es.drop_last());
        lemma_put_entry(one_per_path(es.drop_last()), es.last().0, es.last().1);
    }
}

/// The number of buckets paths are spread over while duplicates are
/// removed.
pub const PATH_BUCKETS: usize = 65536;

/// The bucket of a path's UTF-8 bytes.
pub open spec fn bytes_bucket(b: Seq<u8>) -> int
    decreases b.len(),
{
    if b.len() == 0 {
        0
    } else {
        (bytes_bucket(b.drop_last()) * 31 + b.last()) % 65536
    }
}

/// The bucket of a path.
pub open spec fn path_bucket(p: Seq<char>) -> int {
    bytes_bucket(encode_utf8(p))
}

/// Computes the bucket of a path.
fn bucket_of(key: &String) -> (r: usize)
    ensures
        r == path_bucket(key@),
        r < PATH_BUCKETS,
{
    let bytes = key.as_str().as_bytes();
    let mut h: usize = 0;
    let mut i: usize = 0;
    assert(bytes@.take(0) =~= Seq::<u8>::empty());
    while i < bytes.len()
        invariant
            i <= bytes@.len(),
            bytes@ == encode_utf8(key@),
            h == bytes_bucket(bytes@.take(i as int)),
            h < 65536,
        decreases bytes.len() - i,
    {
        assert(bytes@.take(i + 1).drop_last() =~= bytes@.take(i as int));
        h = (h * 31 + bytes[i] as usize) % 65536;
        i = i + 1;
    }
    assert(bytes@.take(i as int) =~= bytes@);
    h
}

/// The index, in `out`, of an entry filed under `key` among the indices
/// in `bucket`, if there is one.
fn find_in_bucket(out: &Vec<(String, VpkEntry)>, bucket: &Vec<usize>, key: &String) -> (r: Option<usize>)
    requires
        forall|t: int| 0 <= t < bucket@.len() ==> bucket@[t] < out@.len(),
    ensures
        r matches Some(j) ==> j < out@.len() && out@[j as int].0@ == key@,
        r is None ==> forall|t: int| 0 <= t < bucket@.len() ==> out@[bucket@[t] as int].0@ != key@,
{
    let mut t: usize = 0;
    while t < bucket.len()
        invariant
            t <= bucket@.len(),
            forall|u: int| 0 <= u < bucket@.len() ==> bucket@[u] < out@.len(),
            forall|u: int| 0 <= u < t ==> out@[bucket@[u] as int].0@ != key@,
        decreases bucket.len() - t,
    {
        let j = bucket[t];
        if out[j].0 == *key {
            return Some(j);
        }
        t = t + 1;
    }
    None
}

/// Whether the buckets index `out`: every index in bucket `b` is an entry
/// of `out` whose path falls in `b`, and every entry is in its bucket.
pub open spec fn buckets_index(buckets: Seq<Vec<usize>>, out: Seq<(String, VpkEntry)>) -> bool {
    &&& buckets.len() == PATH_BUCKETS
    &&& forall|b: int, t: int|
        0 <= b < buckets.len() && 0 <= t < buckets[b]@.len() ==> {
            &&& #[trigger] buckets[b]@[t] < out.len()
            &&& path_bucket(out[buckets[b]@[t] as int].0@) == b
        }
    &&& forall|j: int| 0 <= j < out.len() ==> #[trigger] buckets[path_bucket(out[j].0@)]@.contains(j as usize)
}

/// An empty path with an empty entry, left in place of entries moved out.
fn placeholder() -> (r: (String, VpkEntry)) {
    (String::new(), VpkEntry { crc32: 0, preload: Vec::new(), archive_index: 0, archive_offset: 0, file_length: 0 })
}

/// The listing `raw` with one entry per path, the last one listed for it,
/// in the place of the path's first listing.
#[verifier::rlimit(40)]
pub fn keep_last_per_path(raw: Vec<(String, VpkEntry)>) -> (r: Vec<(String, VpkEntry)>)
    ensures
        entries_of(r@) == one_per_path(entries_of(raw@)),
{
    let ghost orig = entries_of(raw@);
    let mut raw = raw;
    let mut buckets: Vec<Vec<usize>> = Vec::new();
    let mut b: usize = 0;
    while b < PATH_BUCKETS
        invariant
            b <= PATH_BUCKETS,
            buckets@.len() == b,
            forall|c: int| 0 <= c < b ==> (#[trigger] buckets@[c])@.len() == 0,
        decreases PATH_BUCKETS - b,
    {
        buckets.push(Vec::new());
        b = b + 1;
    }
    let mut out: Vec<(String, VpkEntry)> = Vec::new();
    assert(entries_of(out@) =~= one_per_path(orig.take(0)));
    let n = raw.len();
    let mut i: usize = 0;
    while i < n
        invariant
            i <= n,
            n == raw@.len(),
            orig.len() == n,
            forall|j: int| i <= j < n ==> (#[trigger] raw@[j]).0@ == orig[j].0 && raw@[j].1@ == orig[j].1,
            entries_of(out@) == one_per_path(orig.take(i as int)),
            buckets_index(buckets@, out@),
        decreases n - i,
    {
        proof {
            lemma_one_per_path(orig.take(i as int));
            assert(orig.take(i + 1).drop_last() =~= orig.take(i as int));
        }
        let mut item = placeholder();
        std::mem::swap(&mut item, &mut raw[i]);
        let ghost cur = entries_of(out@);
        assert(item.0@ == orig[i as int].0 && item.1@ == orig[i as int].1);
        let h = bucket_of(&item.0);
        let found = find_in_bucket(&out, &buckets[h], &item.0);
        match found {
            Some(j) => {
                proof {
                    lemma_path_index(cur, item.0@, 0);
                    assert(cur[j as int].0 == item.0@);
                    if path_index(cur, item.0@, 0) != Some(j as int) {
                        let f = path_index(cur, item.0@, 0)->0;
                        assert(cur[f].0 == item.0@);
                    }
                }
                let ghost before = out@;
                out.set(j, item);
                proof {
                    assert(entries_of(out@) =~= cur.update(j as int, (orig[i as int].0, orig[i as int].1)));
                    assert forall|c: int, t: int|
                        0 <= c < buckets@.len() && 0 <= t < buckets@[c]@.len() implies {
                            &&& #[trigger] buckets@[c]@[t] < out@.len()
                            &&& path_bucket(out@[buckets@[c]@[t] as int].0@) == c
                        } by {
                        let k = buckets@[c]@[t] as int;
                        assert(out@[k].0@ == before[k].0@);
                    }
                    assert forall|m: int| 0 <= m < out@.len() implies #[trigger] buckets@[path_bucket(
                        out@[m].0@,
                    )]@.contains(m as usize) by {
                        assert(out@[m].0@ == before[m].0@);
                    }
                }
            },
            None => {
                proof {
                    lemma_path_index(cur, item.0@, 0);
                    if path_index(cur, item.0@, 0) is Some {
                        let f = path_index(cur, item.0@, 0)->0;
                        assert(out@[f].0@ == item.0@);
                        assert(buckets@[path_bucket(out@[f].0@)]@.contains(f as usize));
                        let t = choose|t: int| 0 <= t < buckets@[h as int]@.len() && buckets@[h as int]@[t] == f as usize;
                        assert(out@[buckets@[h as int]@[t] as int].0@ != item.0@);
                    }
                }
                let ghost before = out@;
                let ghost old_buckets = buckets@;
                let m = out.len();
                out.push(item);
                buckets[h].push(m);
                proof {
                    assert(entries_of(out@) =~= cur.push((orig[i as int].0, orig[i as int].1)));
                    assert forall|c: int, t: int|
                        0 <= c < buckets@.len() && 0 <= t < buckets@[c]@.len() implies {
                            &&& #[trigger] buckets@[c]@[t] < out@.len()
                            &&& path_bucket(out@[buckets@[c]@[t] as int].0@) == c
                        } by {
                        if c != h || t < old_buckets[c]@.len() {
                            let k = old_buckets[c]@[t] as int;
                            assert(buckets@[c]@[t] == old_buckets[c]@[t]);
                            assert(out@[k] == before[k]);
                        }
                    }
                    assert forall|q: int| 0 <= q < out@.len() implies #[trigger] buckets@[path_bucket(
                        out@[q].0@,
                    )]@.contains(q as usize) by {
                        if q < m {
                            assert(out@[q] == before[q]);
                            let c = path_bucket(out@[q].0@);
                            assert(old_buckets[c]@.contains(q as usize));
                            let t = choose|t: int| 0 <= t < old_buckets[c]@.len() && old_buckets[c]@[t] == q as usize;
                            assert(buckets@[c]@[t] == q as usize);
                        } else {
                            assert(buckets@[h as int]@[old_buckets[h as int]@.len() as int] == m);
                        }
                    }
                }
            },
        }
        i = i + 1;
    }
    assert(orig.take(n as int) =~= orig);
    out
}

/// A parsed VPK directory: its header, its tree of files with one entry
/// per path (the last one the directory file lists for it, in the place of
/// the path's first listing), and, for version 2, the stored MD5 checksums.
pub struct Vpk {
    pub header: VpkHeader,
    pub tree: Vec<(String, VpkEntry)>,
    pub vpk_path: String,
    pub tree_checksum: Option<[u8; 16]>,
    pub chunk_hashes_checksum: Option<[u8; 16]>,
    pub file_checksum: Option<[u8; 16]>,
}

/// The value of a parsed VPK directory.
pub struct VpkModel {
    pub header: VpkHeader,
    pub entries: Seq<(Seq<char>, VpkEntryView)>,
    pub tree_checksum: Option<Seq<u8>>,
    pub chunk_hashes_checksum: Option<Seq<u8>>,
    pub file_checksum: Option<Seq<u8>>,
}

/// The bytes of an optional 16-byte checksum.
pub open spec fn opt_bytes(o: Option<[u8; 16]>) -> Option<Seq<u8>> {
    match o {
        Some(a) => Some(a@),
        None => None,
    }
}

/// Length of the version 1 header.
pub const HEADER_LEN_V1: usize = 12;

/// Length of the version 2 header.
pub const HEADER_LEN_V2: usize = 28;

/// The VPK directory file `d` describes: the header, then (version 2) the
/// three checksums stored after the tree, embedded chunks and chunk hashes,
/// then the tree, which starts right after the header.
pub open spec fn spec_vpk(d: Seq<u8>) -> Result<VpkModel, VpkError> {
    if d.len() < 12 {
        Err(VpkError::UnexpectedEof)
    } else if le_u32(d, 0) != VPK_SIGNATURE {
        Err(VpkError::InvalidSignature)
    } else {
        let version = le_u32(d, 4);
        let tree_length = le_u32(d, 8);
        if version == 2 {
            if d.len() < 28 {
                Err(VpkError::UnexpectedEof)
            } else {
                let embed = le_u32(d, 12);
                let chunk_hashes = le_u32(d, 16);
                let sums = 28 + tree_length + embed + chunk_hashes;
                if sums + 48 > d.len() {
                    Err(VpkError::UnexpectedEof)
                } else {
                    match spec_tree(d, 28, 0, Seq::empty(), Seq::empty(), (28 + tree_length) as u32) {
                        Ok(entries) => Ok(
                            VpkModel {
                                header: VpkHeader {
                                    signature: VPK_SIGNATURE,
                                    version: 2,
                                    tree_length,
                                    embed_chunk_length: Some(embed),
                                    chunk_hashes_length: Some(chunk_hashes),
                                    self_hashes_length: Some(le_u32(d, 20)),
                                    signature_length: Some(le_u32(d, 24)),
                                },
                                entries: one_per_path(entries),
                                tree_checksum: Some(d.subrange(sums, sums + 16)),
                                chunk_hashes_checksum: Some(d.subrange(sums + 16, sums + 32)),
                                file_checksum: Some(d.subrange(sums + 32, sums + 48)),
                            },
                        ),
                        Err(e) => Err(e),
                    }
                }
            }
        } else if version == 1 {
            match spec_tree(d, 12, 0, Seq::empty(), Seq::empty(), (12 + tree_length) as u32) {
                Ok(entries) => Ok(
                    VpkModel {
                        header: VpkHeader {
                            signature: VPK_SIGNATURE,
                            version: 1,
                            tree_length,
                            embed_chunk_length: None,
                            chunk_hashes_length: None,
                            self_hashes_length: None,
                            signature_length: None,
                        },
                        entries: one_per_path(entries),
                        tree_checksum: None,
                        chunk_hashes_checksum: None,
                        file_checksum: None,
                    },
                ),
                Err(e) => Err(e),
            }
        } else {
            Err(VpkError::UnsupportedVersion)
        }
    }
}

/// The 16 bytes at `pos`.
fn checksum_at(data: &[u8], pos: usize) -> (r: [u8; 16])
    requires
        pos + 16 <= data@.len(),
    ensures
        r@ == data@.subrange(pos as int, pos + 16),
{
    let mut r = [0u8; 16];
    let mut i: usize = 0;
    while i < 16
        invariant
            i <= 16,
            pos + 16 <= data.len(),
            r@.len() == 16,
            forall|k: int| 0 <= k < i ==> r@[k] == data@[pos + k],
        decreases 16 - i,
    {
        r[i] = data[pos + i];
        i = i + 1;
    }
    assert(r@ =~= data@.subrange(pos as int, pos + 16));
    r
}

impl Vpk {
    /// The value of this directory.
    pub open spec fn model(&self) -> VpkModel {
        VpkModel {
            header: self.header,
            entries: entries_of(self.tree@),
            tree_checksum: opt_bytes(self.tree_checksum),
            chunk_hashes_checksum: opt_bytes(self.chunk_hashes_checksum),
            file_checksum: opt_bytes(self.file_checksum),
        }
    }

    /// Parses the bytes of a VPK directory file read from `vpk_path`.
    pub fn from_bytes(data: &[u8], vpk_path: String) -> (r: Result<Vpk, VpkError>)
        ensures
            match r {
                Ok(v) => spec_vpk(data@) == Ok::<VpkModel, VpkError>(v.model()) && v.vpk_path
                    == vpk_path,
                Err(e) => spec_vpk(data@) == Err::<VpkModel, VpkError>(e),
            },
    {
        let signature = read_u32(data, 0)?;
        let version = read_u32(data, 4)?;
        let tree_length = read_u32(data, 8)?;
        if signature != VPK_SIGNATURE {
            return Err(VpkError::InvalidSignature);
        }
        if version == 2 {
            let embed = read_u32(data, 12)?;
            let chunk_hashes = read_u32(data, 16)?;
            let self_hashes = read_u32(data, 20)?;
            let signature_length = read_u32(data, 24)?;
            let sums: u64 = 28 + tree_length as u64 + embed as u64 + chunk_hashes as u64;
            if sums + 48 > data.len() as u64 {
                return Err(VpkError::UnexpectedEof);
            }
            let sums = sums as usize;
            let tree_checksum = checksum_at(data, sums);
            let chunk_hashes_checksum = checksum_at(data, sums + 16);
            let file_checksum = checksum_at(data, sums + 32);
            let data_end = (28 + tree_length as u64) as u32;
            let tree = keep_last_per_path(parse_tree(data, HEADER_LEN_V2, data_end)?);
            Ok(Vpk {
                header: VpkHeader {
                    signature,
                    version,
                    tree_length,
                    embed_chunk_length: Some(embed),
                    chunk_hashes_length: Some(chunk_hashes),
                    self_hashes_length: Some(self_hashes),
                    signature_length: Some(signature_length),
                },
                tree,
                vpk_path,
                tree_checksum: Some(tree_checksum),
                chunk_hashes_checksum: Some(chunk_hashes_checksum),
                file_checksum: Some(file_checksum),
            })
        } else if version == 1 {
            let data_end = (12 + tree_length as u64) as u32;
            let tree = keep_last_per_path(parse_tree(data, HEADER_LEN_V1, data_end)?);
            Ok(Vpk {
                header: VpkHeader {
                    signature,
                    version,
                    tree_length,
                    embed_chunk_length: None,
                    chunk_hashes_length: None,
                    self_hashes_length: None,
                    signature_length: None,
                },
                tree,
                vpk_path,
                tree_checksum: None,
                chunk_hashes_checksum: None,
                file_checksum: None,
            })
        } else {
            Err(VpkError::UnsupportedVersion)
        }
    }
}

/// The files of a tree: each path maps to the last entry listed for it.
pub open spec fn tree_map(entries: Seq<(Seq<char>, VpkEntryView)>) -> Map<Seq<char>, VpkEntryView>
    decreases entries.len(),
{
    if entries.len() == 0 {
        Map::empty()
    } else {
        tree_map(entries.drop_last()).insert(entries.last().0, entries.last().1)
    }
}

proof fn lemma_tree_map_suffix(e: Seq<(Seq<char>, VpkEntryView)>, i: int, k: Seq<char>)
    requires
        0 <= i <= e.len(),
        forall|j: int| i <= j < e.len() ==> e[j].0 != k,
    ensures
        tree_map(e).contains_key(k) == tree_map(e.take(i)).contains_key(k),
        tree_map(e).contains_key(k) ==> tree_map(e)[k] == tree_map(e.take(i))[k],
    decreases e.len(),
{
    if e.len() > i {
        lemma_tree_map_suffix(e.drop_last(), i, k);
        assert(e.drop_last().take(i) =~= e.take(i));
    } else {
        assert(e.take(i) =~= e);
    }
}

impl Vpk {
    /// The files of this archive, by path.
    pub open spec fn files(&self) -> Map<Seq<char>, VpkEntryView> {
        tree_map(entries_of(self.tree@))
    }

    /// The entry filed under `path`.
    pub fn find_entry(&self, path: &str) -> (r: Option<&VpkEntry>)
        ensures
            match r {
                Some(e) => self.files().contains_key(path@) && e@ == self.files()[path@],
                None => !self.files().contains_key(path@),
            },
    {
        let key = String::from_str(path);
        let ghost e = entries_of(self.tree@);
        let mut i = self.tree.len();
        while i > 0
            invariant
                i <= self.tree@.len(),
                e == entries_of(self.tree@),
                key@ == path@,
                forall|j: int| i <= j < e.len() ==> e[j].0 != path@,
            decreases i,
        {
            let item = &self.tree[i - 1];
            if item.0 == key {
                proof {
                    lemma_tree_map_suffix(e, i as int, path@);
                    assert(e.take(i as int).drop_last() =~= e.take(i - 1));
                }
                return Some(&item.1);
            }
            i = i - 1;
        }
        proof {
            lemma_tree_map_suffix(e, 0, path@);
            assert(e.take(0) =~= Seq::<(Seq<char>, VpkEntryView)>::empty());
        }
        None
    }

    /// The content of the file at `path`: its preload bytes followed by the
    /// bytes of its archive from the entry's offset on, of which at most
    /// `file_length` are taken. `archive` holds the archive bytes available
    /// from that offset (fewer when the archive ends early).
    pub fn get_file_content(&self, path: &str, archive: &[u8]) -> (r: Result<Vec<u8>, VpkError>)
        ensures
            match r {
                Ok(content) => self.files().contains_key(path@) && content@
                    == file_content(self.files()[path@], archive@),
                Err(e) => !self.files().contains_key(path@) && e == VpkError::NotFound,
            },
    {
        match self.find_entry(path) {
            None => Err(VpkError::NotFound),
            Some(entry) => {
                let mut content = entry.preload.clone();
                let take = if (entry.file_length as usize) < archive.len() {
                    entry.file_length as usize
                } else {
                    archive.len()
                };
                let mut i: usize = 0;
                while i < take
                    invariant
                        i <= take <= archive@.len(),
                        content@ == entry.preload@ + archive@.take(i as int),
                    decreases take - i,
                {
                    content.push(archive[i]);
                    i = i + 1;
                    assert(archive@.take(i as int) =~= archive@.take(i - 1).push(archive@[i - 1]));
                }
                Ok(content)
            }
        }
    }
}

/// The content of a file: its preload bytes, then at most `file_length`
/// bytes of what its archive holds from its offset on.
pub open spec fn file_content(e: VpkEntryView, archive: Seq<u8>) -> Seq<u8> {
    e.preload + archive.take(if e.file_length < archive.len() { e.file_length as int } else { archive.len() as int })
}

/// The MD5 digest of `data`, as `chksum_hash_md5` computes it.
pub uninterp spec fn md5_digest(data: Seq<u8>) -> Seq<u8>;

/// `chksum_hash_md5::hash`: the MD5 digest of `data`.
#[verifier::external_body]
fn md5(data: &[u8]) -> (r: [u8; 16])
    ensures
        r@ == md5_digest(data@),
{
    chksum_hash_md5::hash(data).into_inner()
}

/// The CRC-32 of `data` continued from `crc`, as `crc32_v2::crc32`
/// computes it.
pub uninterp spec fn crc32_digest(crc: u32, data: Seq<u8>) -> u32;

/// `crc32_v2::crc32`: the CRC-32 of `data` continued from `crc`.
#[verifier::external_body]
fn crc32(crc: u32, data: &[u8]) -> (r: u32)
    ensures
        r == crc32_digest(crc, data@),
{
    crc32_v2::crc32(crc, data)
}

/// Whether two 16-byte digests are equal.
fn digest_eq(a: &[u8; 16], b: &[u8; 16]) -> (r: bool)
    ensures
        r == (a@ == b@),
{
    let mut i: usize = 0;
    while i < 16
        invariant
            i <= 16,
            a@.len() == 16,
            b@.len() == 16,
            forall|k: int| 0 <= k < i ==> a@[k] == b@[k],
        decreases 16 - i,
    {
        if a[i] != b[i] {
            return false;
        }
        i = i + 1;
    }
    assert(a@ =~= b@);
    true
}

/// Whether a stored checksum is present and equal to `digest`.
fn stored_matches(stored: &Option<[u8; 16]>, digest: &[u8; 16]) -> (r: bool)
    ensures
        r == (opt_bytes(*stored) == Some(digest@)),
{
    match stored {
        Some(s) => digest_eq(s, digest),
        None => false,
    }
}

impl VpkEntry {
    /// Whether `checksum` is the CRC-32 recorded for this entry.
    pub fn crc_matches(&self, checksum: u32) -> (r: bool)
        ensures
            r == (self.crc32 == checksum),
    {
        self.crc32 == checksum
    }

    /// Whether `data` has the CRC-32 recorded for this entry.
    pub fn verify(&self, data: &[u8]) -> (r: bool)
        ensures
            r == (self.crc32 == crc32_digest(0, data@)),
    {
        self.crc_matches(crc32(0, data))
    }
}

/// The outcome of checking the stored MD5 checksums of a version 2
/// directory file `d` whose header is `h`: the tree, the chunk hashes, and
/// the whole file (header, tree, embedded chunks, chunk hashes, then the
/// two digests just computed). Other versions have nothing to check.
pub open spec fn spec_verify(
    h: VpkHeader,
    tree_checksum: Option<Seq<u8>>,
    chunk_hashes_checksum: Option<Seq<u8>>,
    file_checksum: Option<Seq<u8>>,
    d: Seq<u8>,
) -> Result<bool, VpkError> {
    if h.version != 2 {
        Ok(true)
    } else {
        let tree_end = 28 + h.tree_length;
        let chunk_start = tree_end + h.embed_chunk_length.unwrap_or(0);
        let end = chunk_start + h.chunk_hashes_length.unwrap_or(0);
        if d.len() < end {
            Err(VpkError::UnexpectedEof)
        } else {
            let tree_md5 = md5_digest(d.subrange(28, tree_end));
            let chunk_md5 = md5_digest(d.subrange(chunk_start, end));
            let file_md5 = md5_digest(d.subrange(0, end) + tree_md5 + chunk_md5);
            Ok(tree_checksum == Some(tree_md5) && chunk_hashes_checksum == Some(chunk_md5)
                && file_checksum == Some(file_md5))
        }
    }
}

impl Vpk {
    /// Whether the stored checksums are the given digests of the tree, the
    /// chunk hashes and the whole file.
    pub fn checksums_match(&self, tree_md5: &[u8; 16], chunk_md5: &[u8; 16], file_md5: &[u8; 16]) -> (r: bool)
        ensures
            r == (opt_bytes(self.tree_checksum) == Some(tree_md5@) && opt_bytes(
                self.chunk_hashes_checksum,
            ) == Some(chunk_md5@) && opt_bytes(self.file_checksum) == Some(file_md5@)),
    {
        stored_matches(&self.tree_checksum, tree_md5) && stored_matches(
            &self.chunk_hashes_checksum,
            chunk_md5,
        ) && stored_matches(&self.file_checksum, file_md5)
    }

    /// Whether this directory stores checksums to verify (version 2).
    pub fn has_checksums(&self) -> (r: bool)
        ensures
            r == (self.header.version == 2),
    {
        self.header.version == 2
    }

    /// Checks the stored MD5 checksums against `data`, the bytes of the
    /// directory file. Version 1 files carry no checksums and pass.
    pub fn verify(&self, data: &[u8]) -> (r: Result<bool, VpkError>)
        ensures
            r == spec_verify(
                self.header,
                opt_bytes(self.tree_checksum),
                opt_bytes(self.chunk_hashes_checksum),
                opt_bytes(self.file_checksum),
                data@,
            ),
    {
        if self.header.version != 2 {
            return Ok(true);
        }
        let embed = match self.header.embed_chunk_length {
            Some(n) => n,
            None => 0,
        };
        let chunk_hashes = match self.header.chunk_hashes_length {
            Some(n) => n,
            None => 0,
        };
        let tree_end: u64 = 28 + self.header.tree_length as u64;
        let chunk_start: u64 = tree_end + embed as u64;
        let end: u64 = chunk_start + chunk_hashes as u64;
        if (data.len() as u64) < end {
            return Err(VpkError::UnexpectedEof);
        }
        let tree_md5 = md5(slice_subrange(data, 28, tree_end as usize));
        let chunk_md5 = md5(slice_subrange(data, chunk_start as usize, end as usize));
        let mut whole = slice_to_vec(slice_subrange(data, 0, end as usize));
        append_bytes(&mut whole, tree_md5.as_slice());
        append_bytes(&mut whole, chunk_md5.as_slice());
        let file_md5 = md5(whole.as_slice());
        Ok(self.checksums_match(&tree_md5, &chunk_md5, &file_md5))
    }
}

/// The decimal digit `d`.
pub open spec fn digit_char(d: nat) -> char {
    ((48 + d) as u8) as char
}

/// The decimal representation of `n`, without leading zeros.
pub open spec fn decimal(n: nat) -> Seq<char>
    decreases n,
{
    if n < 10 {
        seq![digit_char(n)]
    } else {
        decimal(n / 10).push(digit_char(n % 10))
    }
}

/// `n` in decimal, padded with zeros to at least three digits (`{:03}`).
pub open spec fn pad3(n: nat) -> Seq<char> {
    let d = decimal(n);
    if d.len() >= 3 {
        d
    } else {
        Seq::new((3 - d.len()) as nat, |i: int| '0') + d
    }
}

/// `n` in decimal, padded with zeros to at least three digits.
pub fn format_pad3(n: u16) -> (r: Vec<char>)
    ensures
        r@ == pad3(n as nat),
{
    let mut out: Vec<char> = Vec::new();
    let mut q = n;
    while q >= 10
        invariant
            decimal(n as nat) == decimal(q as nat) + out@,
        decreases q,
    {
        let d = (q % 10) as u8;
        let ghost old_out = out@;
        out.insert(0, (48u8 + d) as char);
        proof {
            assert(out@ =~= seq![digit_char((q % 10) as nat)] + old_out);
            assert(decimal(q as nat) == decimal((q / 10) as nat).push(digit_char((q % 10) as nat)));
            assert(decimal((q / 10) as nat).push(digit_char((q % 10) as nat)) + old_out =~= decimal(
                (q / 10) as nat,
            ) + out@);
        }
        q = q / 10;
    }
    let ghost low = out@;
    out.insert(0, (48u8 + q as u8) as char);
    assert(out@ =~= decimal(n as nat));
    while out.len() < 3
        invariant
            out@.len() <= 3 || out@ == decimal(n as nat),
            decimal(n as nat).len() >= 3 ==> out@ == decimal(n as nat),
            decimal(n as nat).len() < 3 ==> out@ == Seq::new(
                (out@.len() - decimal(n as nat).len()) as nat,
                |i: int| '0',
            ) + decimal(n as nat),
            out@.len() >= decimal(n as nat).len(),
        decreases 3 - out@.len(),
    {
        let ghost prev = out@;
        out.insert(0, '0');
        proof {
            let d = decimal(n as nat);
            assert(out@ =~= Seq::new((out@.len() - d.len()) as nat, |i: int| '0') + d);
        }
    }
    proof {
        let d = decimal(n as nat);
        if d.len() < 3 {
            assert(out@.len() == 3);
        }
    }
    out
}

/// The file name of archive `archive_index` next to the directory file
/// named `dir_file_name`: "english" removed, and "dir." replaced by the
/// index written with at least three digits and a dot.
pub open spec fn spec_archive_file_name(dir_file_name: Seq<char>, archive_index: u16) -> Seq<char> {
    replaced(
        replaced(dir_file_name, seq!['e', 'n', 'g', 'l', 'i', 's', 'h'], Seq::empty()),
        seq!['d', 'i', 'r', '.'],
        pad3(archive_index as nat).push('.'),
    )
}

/// The file name of archive `archive_index` next to the directory file
/// named `dir_file_name` (as `pak01_dir.vpk` gives `pak01_003.vpk`).
pub fn archive_file_name(dir_file_name: &str, archive_index: u16) -> (r: String)
    ensures
        r@ == spec_archive_file_name(dir_file_name@, archive_index),
{
    let english = chars_of("english");
    let dir = chars_of("dir.");
    proof {
        reveal_strlit("english");
        reveal_strlit("dir.");
    }
    let name = chars_of(dir_file_name);
    let empty: Vec<char> = Vec::new();
    let without = replace_all(name.as_slice(), english.as_slice(), empty.as_slice());
    let mut numbered = format_pad3(archive_index);
    numbered.push('.');
    let renamed = replace_all(without.as_slice(), dir.as_slice(), numbered.as_slice());
    proof {
        assert(english@ =~= seq!['e', 'n', 'g', 'l', 'i', 's', 'h']);
        assert(dir@ =~= seq!['d', 'i', 'r', '.']);
        assert(empty@ =~= Seq::<char>::empty());
    }
    string_from_chars(renamed.as_slice())
}

/// The file name of the archive that holds the data of an entry with
/// index `archive_index`, next to the directory file named
/// `dir_file_name`; `None` when the data is in the directory file itself.
pub fn archive_file_for(dir_file_name: &str, archive_index: u16) -> (r: Option<String>)
    ensures
        r is None <==> archive_index == DIR_ARCHIVE_INDEX,
        r matches Some(n) ==> n@ == spec_archive_file_name(dir_file_name@, archive_index),
{
    if archive_index == DIR_ARCHIVE_INDEX {
        None
    } else {
        Some(archive_file_name(dir_file_name, archive_index))
    }
}

impl VpkEntry {
    /// Whether reading this file touches an archive: only when it has bytes
    /// beyond its preload.
    pub fn reads_archive(&self) -> (r: bool)
        ensures
            r == (self.file_length > 0),
    {
        self.file_length > 0
    }
}

/// What one read of a packed file does: copy `preload_count` bytes of
/// the preload from `preload_start`, then, if `archive_read` is
/// `Some((offset, max))`, read at most `max` bytes of the archive from
/// `offset` on.
#[derive(Debug, Clone, Copy, PartialEq, Eq)]
pub struct ReadPlan {
    pub preload_start: usize,
    pub preload_count: usize,
    pub archive_read: Option<(u64, usize)>,
}

/// The read of at most `buf_len` bytes at position `pos` of the file
/// described by `entry`: the preload comes first, then the archive bytes.
/// Nothing is read at or past the end of the file; the archive is not
/// touched when the preload part alone fills the buffer or ends the file.
pub open spec fn spec_read_plan(entry: VpkEntryView, pos: u64, buf_len: usize) -> ReadPlan {
    let pre = entry.preload.len();
    let total = pre + entry.file_length;
    if pos >= total {
        ReadPlan { preload_start: 0, preload_count: 0, archive_read: None }
    } else if pos < pre {
        let count = if pre - pos < buf_len { (pre - pos) as usize } else { buf_len };
        if count == buf_len || pos + count >= total {
            ReadPlan { preload_start: pos as usize, preload_count: count, archive_read: None }
        } else {
            ReadPlan {
                preload_start: pos as usize,
                preload_count: count,
                archive_read: Some(
                    (
                        entry.archive_offset as u64,
                        if entry.file_length < buf_len - count {
                            entry.file_length as usize
                        } else {
                            (buf_len - count) as usize
                        },
                    ),
                ),
            }
        }
    } else {
        let done = pos - pre;
        let remaining = entry.file_length - done;
        ReadPlan {
            preload_start: 0,
            preload_count: 0,
            archive_read: Some(
                (
                    (entry.archive_offset + done) as u64,
                    if remaining < buf_len { remaining as usize } else { buf_len },
                ),
            ),
        }
    }
}

impl VpkEntry {
    /// Plans a read of at most `buf_len` bytes at position `pos` of this
    /// file.
    pub fn plan_read(&self, pos: u64, buf_len: usize) -> (r: ReadPlan)
        requires
            self.preload@.len() + self.file_length <= u64::MAX,
        ensures
            r == spec_read_plan(self@, pos, buf_len),
    {
        let pre = self.preload.len() as u64;
        let total = pre + self.file_length as u64;
        if pos >= total {
            return ReadPlan { preload_start: 0, preload_count: 0, archive_read: None };
        }
        if pos < pre {
            let available = pre - pos;
            let count = if available < buf_len as u64 {
                available as usize
            } else {
                buf_len
            };
            if count == buf_len || pos + count as u64 >= total {
                return ReadPlan { preload_start: pos as usize, preload_count: count, archive_read: None };
            }
            let left = buf_len - count;
            let max = if (self.file_length as u64) < left as u64 {
                self.file_length as usize
            } else {
                left
            };
            ReadPlan {
                preload_start: pos as usize,
                preload_count: count,
                archive_read: Some((self.archive_offset as u64, max)),
            }
        } else {
            let done = pos - pre;
            let remaining = self.file_length as u64 - done;
            let max = if remaining < buf_len as u64 {
                remaining as usize
            } else {
                buf_len
            };
            ReadPlan {
                preload_start: 0,
                preload_count: 0,
                archive_read: Some((self.archive_offset as u64 + done, max)),
            }
        }
    }

    /// The length of the file: preload bytes plus archive bytes.
    pub fn total_len(&self) -> (r: u64)
        requires
            self.preload@.len() + self.file_length <= u64::MAX,
        ensures
            r == self.preload@.len() + self.file_length,
    {
        self.preload.len() as u64 + self.file_length as u64
    }
}

/// A planned read stays inside the file: the preload bytes it copies
/// exist, the archive bytes it reads are within the file's length, and it
/// never asks for more than the buffer holds.
pub proof fn lemma_read_plan_in_bounds(entry: VpkEntryView, pos: u64, buf_len: usize)
    ensures
        ({
            let p = spec_read_plan(entry, pos, buf_len);
            &&& p.preload_start + p.preload_count <= entry.preload.len()
            &&& p.preload_count <= buf_len
            &&& match p.archive_read {
                Some((offset, max)) => {
                    &&& entry.archive_offset <= offset
                    &&& offset + max <= entry.archive_offset + entry.file_length
                    &&& p.preload_count + max <= buf_len
                },
                None => true,
            }
        }),
{
}

/// The bytes one read at position `pos` of the file described by `e`
/// yields, `archive` holding the archive bytes from the entry's offset on
/// and each archive read returning every byte asked for that the archive
/// has.
pub open spec fn read_chunk(e: VpkEntryView, archive: Seq<u8>, pos: int, buf_len: usize) -> Seq<u8> {
    let p = spec_read_plan(e, pos as u64, buf_len);
    let pre = e.preload.subrange(p.preload_start as int, p.preload_start + p.preload_count);
    match p.archive_read {
        None => pre,
        Some((offset, max)) => {
            let rel = offset - e.archive_offset;
            if rel < archive.len() {
                pre + archive.subrange(rel, if rel + max < archive.len() { rel + max } else { archive.len() as int })
            } else {
                pre
            }
        },
    }
}

/// What repeated reads of `buf_len` bytes from position `pos` yield, up
/// to the first read that yields nothing (no read goes past the end of
/// the file).
pub open spec fn read_to_end(e: VpkEntryView, archive: Seq<u8>, pos: int, buf_len: usize) -> Seq<u8>
    decreases e.preload.len() + e.file_length - pos,
{
    let chunk = read_chunk(e, archive, pos, buf_len);
    if 0 <= pos && chunk.len() > 0 && pos + chunk.len() <= e.preload.len() + e.file_length {
        chunk + read_to_end(e, archive, pos + chunk.len(), buf_len)
    } else {
        chunk
    }
}

proof fn lemma_read_chunk(e: VpkEntryView, archive: Seq<u8>, pos: int, buf_len: usize)
    requires
        buf_len > 0,
        e.preload.len() + e.file_length <= u64::MAX,
        e.preload.len() <= usize::MAX,
        0 <= pos <= file_content(e, archive).len(),
    ensures
        ({
            let chunk = read_chunk(e, archive, pos, buf_len);
            let fc = file_content(e, archive);
            &&& pos + chunk.len() <= fc.len()
            &&& chunk == fc.subrange(pos, pos + chunk.len())
            &&& chunk.len() == 0 ==> pos == fc.len()
        }),
{
    let fc = file_content(e, archive);
    let pre = e.preload.len() as int;
    let total = pre + e.file_length;
    let chunk = read_chunk(e, archive, pos, buf_len);
    let p = spec_read_plan(e, pos as u64, buf_len);
    let took = if e.file_length < archive.len() { e.file_length as int } else { archive.len() as int };
    assert(fc.len() == pre + took);
    assert(pos as u64 == pos);
    if pos >= total {
        assert(chunk =~= Seq::<u8>::empty());
    } else if pos < pre {
        let count = if pre - pos < buf_len { pre - pos } else { buf_len as int };
        assert(p.preload_start == pos && p.preload_count == count);
        let part = e.preload.subrange(pos, pos + count);
        assert(part =~= fc.subrange(pos, pos + count));
        if count == buf_len || pos + count >= total {
            assert(chunk == part);
        } else {
            let max = if e.file_length < buf_len - count { e.file_length as int } else { buf_len - count };
            let got = if max < archive.len() { max } else { archive.len() as int };
            assert(p.archive_read == Some((e.archive_offset as u64, max as usize)));
            if 0 < archive.len() {
                assert(chunk == part + archive.subrange(0, got));
                assert(chunk =~= fc.subrange(pos, pre + got));
            } else {
                assert(chunk == part);
            }
        }
    } else {
        let done = pos - pre;
        let remaining = e.file_length - done;
        let max = if remaining < buf_len { remaining } else { buf_len as int };
        assert(p.archive_read == Some(((e.archive_offset + done) as u64, max as usize)));
        if done < archive.len() {
            let end = if done + max < archive.len() { done + max } else { archive.len() as int };
            assert(chunk == archive.subrange(done, end)) by {
                assert(e.preload.subrange(0, 0) =~= Seq::<u8>::empty());
                assert(Seq::<u8>::empty() + archive.subrange(done, end) =~= archive.subrange(done, end));
            }
            assert(chunk =~= fc.subrange(pos, pre + end));
        } else {
            assert(chunk =~= Seq::<u8>::empty());
        }
    }
}

proof fn lemma_read_to_end_from(e: VpkEntryView, archive: Seq<u8>, pos: int, buf_len: usize)
    requires
        buf_len > 0,
        e.preload.len() + e.file_length <= u64::MAX,
        e.preload.len() <= usize::MAX,
        0 <= pos <= file_content(e, archive).len(),
    ensures
        read_to_end(e, archive, pos, buf_len) == file_content(e, archive).skip(pos),
    decreases e.preload.len() + e.file_length - pos,
{
    let fc = file_content(e, archive);
    let chunk = read_chunk(e, archive, pos, buf_len);
    lemma_read_chunk(e, archive, pos, buf_len);
    lemma_file_content_len(e, archive);
    if chunk.len() > 0 {
        let next = pos + chunk.len();
        lemma_read_to_end_from(e, archive, next, buf_len);
        assert(fc.skip(pos) =~= chunk + fc.skip(next));
    } else {
        assert(fc.skip(pos) =~= Seq::<u8>::empty());
    }
}

/// Reading a packed file from its start, one read of `buf_len` bytes after
/// another until a read yields nothing, gives exactly its content: the
/// preload bytes, then the archive bytes up to the file's length or the
/// archive's end.
pub proof fn lemma_reading_gives_content(e: VpkEntryView, archive: Seq<u8>, buf_len: usize)
    requires
        buf_len > 0,
        e.preload.len() + e.file_length <= u64::MAX,
        e.preload.len() <= usize::MAX,
    ensures
        read_to_end(e, archive, 0, buf_len) == file_content(e, archive),
{
    lemma_read_to_end_from(e, archive, 0, buf_len);
    assert(file_content(e, archive).skip(0) =~= file_content(e, archive));
}

/// Where a seek in a packed file is measured from.
#[derive(Debug, Clone, Copy, PartialEq, Eq)]
pub enum SeekTarget {
    Start(u64),
    Current(i64),
    End(i64),
}

/// The position a seek moves to from `pos` in a file of `total_len`
/// bytes: the target measured from the start, the current position or
/// the end (positions taken as `i64`, as `as` casts them), refused when
/// negative and held to the end of the file.
pub open spec fn spec_seek(pos: u64, total_len: u64, to: SeekTarget) -> Result<u64, VpkError> {
    let target: int = match to {
        SeekTarget::Start(p) => (p as i64) as int,
        SeekTarget::Current(p) => (pos as i64) + p,
        SeekTarget::End(p) => (total_len as i64) + p,
    };
    if target < 0 {
        Err(VpkError::InvalidSeek)
    } else if target < total_len {
        Ok(target as u64)
    } else {
        Ok(total_len)
    }
}

/// Whether a seek can be computed without overflowing `i64` (positions
/// are taken as `i64`, as `as` casts them).
pub open spec fn seek_in_range(pos: u64, total_len: u64, to: SeekTarget) -> bool {
    match to {
        SeekTarget::Start(_) => true,
        SeekTarget::Current(p) => i64::MIN <= (pos as i64) + p <= i64::MAX,
        SeekTarget::End(p) => i64::MIN <= (total_len as i64) + p <= i64::MAX,
    }
}

/// Computes the position a seek moves to.
pub fn seek_position(pos: u64, total_len: u64, to: SeekTarget) -> (r: Result<u64, VpkError>)
    requires
        seek_in_range(pos, total_len, to),
    ensures
        r == spec_seek(pos, total_len, to),
{
    let target: i64 = match to {
        SeekTarget::Start(p) => p as i64,
        SeekTarget::Current(p) => pos as i64 + p,
        SeekTarget::End(p) => total_len as i64 + p,
    };
    if target < 0 {
        return Err(VpkError::InvalidSeek);
    }
    let t = target as u64;
    if t < total_len {
        Ok(t)
    } else {
        Ok(total_len)
    }
}

/// A seek never leaves the file: the position it moves to is at most the
/// file's length, and a seek from the start to a position inside the file
/// lands exactly there.
pub proof fn lemma_seek_stays_in_file(pos: u64, total_len: u64, to: SeekTarget)
    requires
        total_len <= i64::MAX,
    ensures
        spec_seek(pos, total_len, to) matches Ok(p) ==> p <= total_len,
        to matches SeekTarget::Start(p) ==> (p <= total_len ==> spec_seek(pos, total_len, to) == Ok::<u64, VpkError>(p)),
{
}

/// Reads and seeks keep a packed file's position within the file: from a
/// position within the file, a read moves it by the preload bytes it copies
/// and the archive bytes it gets (at most the planned number), never past
/// the end; a read at the end yields nothing; seeking to the current
/// position leaves it where it is; seeking to the end lands on the end.
pub proof fn lemma_position_stays_in_file(e: VpkEntryView, pos: u64, buf_len: usize, got: usize)
    requires
        pos <= e.preload.len() + e.file_length,
        e.preload.len() + e.file_length <= i64::MAX,
        match spec_read_plan(e, pos, buf_len).archive_read {
            Some((_, max)) => got <= max,
            None => got == 0,
        },
    ensures
        pos + spec_read_plan(e, pos, buf_len).preload_count + got <= e.preload.len() + e.file_length,
        pos == e.preload.len() + e.file_length ==> spec_read_plan(e, pos, buf_len).preload_count == 0
            && spec_read_plan(e, pos, buf_len).archive_read is None,
        spec_seek(pos, (e.preload.len() + e.file_length) as u64, SeekTarget::Current(0)) == Ok::<u64, VpkError>(pos),
        spec_seek(pos, (e.preload.len() + e.file_length) as u64, SeekTarget::End(0)) == Ok::<u64, VpkError>(
            (e.preload.len() + e.file_length) as u64,
        ),
{
}

/// The folder whose text files hold map overviews.
pub open spec fn overview_prefix() -> Seq<char> {
    seq!['r', 'e', 's', 'o', 'u', 'r', 'c', 'e', '/', 'o', 'v', 'e', 'r', 'v', 'i', 'e', 'w', 's', '/']
}

/// Whether a path names a map overview: a `.txt` file under
/// `resource/overviews/`.
pub open spec fn is_overview_path(p: Seq<char>) -> bool {
    &&& occurs_at(p, 0, overview_prefix())
    &&& occurs_at(p, p.len() - 4, seq!['.', 't', 'x', 't'])
}

/// The stem of the last component of a path that ends in `.txt`: the
/// component without its extension, or the whole component when it is
/// `.txt` itself.
pub open spec fn txt_stem(p: Seq<char>) -> Seq<char> {
    let name = p.skip(name_start(p));
    if name.len() > 4 {
        name.take(name.len() - 4)
    } else {
        name
    }
}

/// The name under which an overview is extracted: its stem, then
/// `_radar.txt`.
pub open spec fn overview_output_name(p: Seq<char>) -> Seq<char> {
    txt_stem(p) + seq!['_', 'r', 'a', 'd', 'a', 'r', '.', 't', 'x', 't']
}

/// Whether `p` names a map overview, and if so the name it is extracted to.
pub fn overview_output(p: &[char]) -> (r: Option<Vec<char>>)
    ensures
        r is Some == is_overview_path(p@),
        r matches Some(name) ==> name@ == overview_output_name(p@),
{
    let prefix = chars_of("resource/overviews/");
    let suffix = chars_of(".txt");
    proof {
        reveal_strlit("resource/overviews/");
        reveal_strlit(".txt");
        assert(prefix@ =~= overview_prefix());
        assert(suffix@ =~= seq!['.', 't', 'x', 't']);
    }
    if !matches_at(p, 0, prefix.as_slice()) || p.len() < 4 || !matches_at(p, p.len() - 4, suffix.as_slice()) {
        return None;
    }
    let start = find_name_start(p);
    proof {
        lemma_name_start_bounds(p@);
    }
    let name_len = p.len() - start;
    let stem_end = if name_len > 4 {
        p.len() - 4
    } else {
        p.len()
    };
    let mut out: Vec<char> = Vec::new();
    let mut i = start;
    while i < stem_end
        invariant
            start <= i <= stem_end <= p@.len(),
            out@ == p@.subrange(start as int, i as int),
        decreases stem_end - i,
    {
        out.push(p[i]);
        i = i + 1;
        assert(out@ =~= p@.subrange(start as int, i as int));
    }
    let tail = chars_of("_radar.txt");
    proof {
        reveal_strlit("_radar.txt");
    }
    let mut k: usize = 0;
    let ghost stem = out@;
    assert(stem =~= txt_stem(p@));
    while k < tail.len()
        invariant
            k <= tail@.len(),
            out@ == stem + tail@.take(k as int),
        decreases tail.len() - k,
    {
        out.push(tail[k]);
        k = k + 1;
        assert(tail@.take(k as int) =~= tail@.take(k - 1).push(tail@[k - 1]));
    }
    assert(tail@.take(tail@.len() as int) =~= seq!['_', 'r', 'a', 'd', 'a', 'r', '.', 't', 'x', 't']);
    Some(out)
}

/// The last entry listed for a path is the one that counts: the files of
/// a tree map that path to exactly that entry.
pub proof fn lemma_last_entry_counts(e: Seq<(Seq<char>, VpkEntryView)>, j: int)
    requires
        0 <= j < e.len(),
        forall|k: int| j < k < e.len() ==> e[k].0 != e[j].0,
    ensures
        tree_map(e).contains_key(e[j].0),
        tree_map(e)[e[j].0] == e[j].1,
{
    lemma_tree_map_suffix(e, j + 1, e[j].0);
    assert(e.take(j + 1).drop_last() =~= e.take(j));
    assert(e.take(j + 1).last() == e[j]);
}

/// The content of a file never holds more than its preload and archive
/// bytes, and holds all of them when the archive has enough bytes.
pub proof fn lemma_file_content_len(e: VpkEntryView, archive: Seq<u8>)
    ensures
        file_content(e, archive).len() <= e.preload.len() + e.file_length,
        archive.len() >= e.file_length ==> file_content(e, archive).len() == e.preload.len() + e.file_length,
        file_content(e, archive).take(e.preload.len() as int) == e.preload,
{
    assert(file_content(e, archive).take(e.preload.len() as int) =~= e.preload);
}

/// A path is a file of a tree exactly when some entry lists it.
pub proof fn lemma_tree_map_dom(e: Seq<(Seq<char>, VpkEntryView)>, k: Seq<char>)
    ensures
        tree_map(e).contains_key(k) <==> exists|j: int| 0 <= j < e.len() && e[j].0 == k,
    decreases e.len(),
{
    if e.len() > 0 {
        lemma_tree_map_dom(e.drop_last(), k);
        if tree_map(e).contains_key(k) && e.last().0 != k {
            let j = choose|j: int| 0 <= j < e.drop_last().len() && e.drop_last()[j].0 == k;
            assert(e[j].0 == k);
        }
        if exists|j: int| 0 <= j < e.len() && e[j].0 == k {
            let j = choose|j: int| 0 <= j < e.len() && e[j].0 == k;
            if j < e.len() - 1 {
                assert(e.drop_last()[j].0 == k);
            }
        }
    }
}

/// Whether some pair of `list` has first component `path`.
fn listed(list: &Vec<(String, String)>, path: &String) -> (r: bool)
    ensures
        r == exists|k: int| 0 <= k < list@.len() && list@[k].0@ == path@,
{
    let mut k: usize = 0;
    while k < list.len()
        invariant
            k <= list@.len(),
            forall|j: int| 0 <= j < k ==> list@[j].0@ != path@,
        decreases list.len() - k,
    {
        if list[k].0 == *path {
            return true;
        }
        k = k + 1;
    }
    false
}

impl Vpk {
    /// The map overviews of the archive: each `.txt` file under
    /// `resource/overviews/` once, with the name it is extracted to.
    pub fn overview_files(&self) -> (r: Vec<(String, String)>)
        ensures
            forall|k: int|
                0 <= k < r@.len() ==> {
                    &&& self.files().contains_key(#[trigger] r@[k].0@)
                    &&& is_overview_path(r@[k].0@)
                    &&& r@[k].1@ == overview_output_name(r@[k].0@)
                },
            forall|a: int, b: int| 0 <= a < b < r@.len() ==> r@[a].0@ != r@[b].0@,
            forall|p: Seq<char>|
                self.files().contains_key(p) && is_overview_path(p) ==> exists|k: int|
                    0 <= k < r@.len() && (#[trigger] r@[k].0@) == p,
    {
        let ghost e = entries_of(self.tree@);
        let mut out: Vec<(String, String)> = Vec::new();
        let mut i: usize = 0;
        while i < self.tree.len()
            invariant
                i <= self.tree@.len(),
                e == entries_of(self.tree@),
                forall|k: int|
                    0 <= k < out@.len() ==> {
                        &&& exists|j: int| 0 <= j < e.len() && e[j].0 == (#[trigger] out@[k].0@)
                        &&& is_overview_path(out@[k].0@)
                        &&& out@[k].1@ == overview_output_name(out@[k].0@)
                    },
                forall|a: int, b: int| 0 <= a < b < out@.len() ==> out@[a].0@ != out@[b].0@,
                forall|j: int|
                    0 <= j < i && is_overview_path(#[trigger] e[j].0) ==> exists|k: int|
                        0 <= k < out@.len() && out@[k].0@ == e[j].0,
            decreases self.tree.len() - i,
        {
            let path = &self.tree[i].0;
            assert(e[i as int].0 == path@);
            let pc = chars_of(path.as_str());
            match overview_output(pc.as_slice()) {
                Some(name) => {
                    if !listed(&out, path) {
                        let item = (path.clone(), string_from_chars(name.as_slice()));
                        let ghost before = out@;
                        out.push(item);
                        proof {
                            assert forall|k: int| 0 <= k < out@.len() implies exists|j: int|
                                0 <= j < e.len() && e[j].0 == (#[trigger] out@[k].0@) by {
                                if k < before.len() {
                                    assert(out@[k] == before[k]);
                                } else {
                                    assert(e[i as int].0 == out@[k].0@);
                                }
                            }
                            assert forall|j: int|
                                0 <= j < i + 1 && is_overview_path(#[trigger] e[j].0) implies exists|k: int|
                                0 <= k < out@.len() && out@[k].0@ == e[j].0 by {
                                if j < i {
                                    let k = choose|k: int| 0 <= k < before.len() && before[k].0@ == e[j].0;
                                    assert(out@[k] == before[k]);
                                } else {
                                    assert(out@[before.len() as int].0@ == e[j].0);
                                }
                            }
                        }
                    }
                },
                None => {},
            }
            i = i + 1;
        }
        proof {
            assert forall|k: int| 0 <= k < out@.len() implies self.files().contains_key(
                #[trigger] out@[k].0@,
            ) by {
                lemma_tree_map_dom(e, out@[k].0@);
            }
            assert forall|p: Seq<char>|
                self.files().contains_key(p) && is_overview_path(p) implies exists|k: int|
                0 <= k < out@.len() && (#[trigger] out@[k].0@) == p by {
                lemma_tree_map_dom(e, p);
                let j = choose|j: int| 0 <= j < e.len() && e[j].0 == p;
                assert(is_overview_path(e[j].0));
            }
        }
        out
    }
}

} // verus!
