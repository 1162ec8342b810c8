use radar::vpk::{
    archive_file_for, archive_file_name, keep_last_per_path, read_cstring, read_u16, read_u32, seek_position, ReadPlan, SeekTarget, Vpk,
    VpkEntry, VpkError, VPK_SIGNATURE,
};

fn push_u32(v: &mut Vec<u8>, x: u32) {
    v.extend_from_slice(&x.to_le_bytes());
}

fn push_u16(v: &mut Vec<u8>, x: u16) {
    v.extend_from_slice(&x.to_le_bytes());
}

fn push_cstr(v: &mut Vec<u8>, s: &str) {
    v.extend_from_slice(s.as_bytes());
    v.push(0);
}

struct FileSpec<'a> {
    ext: &'a str,
    dir: &'a str,
    name: &'a str,
    crc: u32,
    preload: &'a [u8],
    index: u16,
    offset: u32,
    length: u32,
}

fn tree(files: &[FileSpec]) -> Vec<u8> {
    let mut t = Vec::new();
    for f in files {
        push_cstr(&mut t, f.ext);
        push_cstr(&mut t, f.dir);
        push_cstr(&mut t, f.name);
        push_u32(&mut t, f.crc);
        push_u16(&mut t, f.preload.len() as u16);
        push_u16(&mut t, f.index);
        push_u32(&mut t, f.offset);
        push_u32(&mut t, f.length);
        push_u16(&mut t, 0xffff);
        t.extend_from_slice(f.preload);
        push_cstr(&mut t, "");
        push_cstr(&mut t, "");
    }
    push_cstr(&mut t, "");
    t
}

fn v1_file(files: &[FileSpec]) -> Vec<u8> {
    let t = tree(files);
    let mut d = Vec::new();
    push_u32(&mut d, VPK_SIGNATURE);
    push_u32(&mut d, 1);
    push_u32(&mut d, t.len() as u32);
    d.extend_from_slice(&t);
    d
}

fn sample_files() -> Vec<FileSpec<'static>> {
    vec![
        FileSpec { ext: "txt", dir: "resource/overviews", name: "de_dust2", crc: 7, preload: b"ab", index: 0, offset: 100, length: 3 },
        FileSpec { ext: "png", dir: " ", name: "logo", crc: 9, preload: b"", index: 0x7fff, offset: 4, length: 2 },
    ]
}

#[test]
fn reads_little_endian_values() {
    let d = [0x34, 0x12, 0xaa, 0x55, 0x01];
    assert_eq!(read_u32(&d, 0), Ok(0x55aa1234));
    assert_eq!(read_u16(&d, 0), Ok(0x1234));
    assert_eq!(read_u16(&d, 3), Ok(0x0155));
    assert_eq!(read_u32(&d, 2), Err(VpkError::UnexpectedEof));
    assert_eq!(read_u16(&d, 4), Err(VpkError::UnexpectedEof));
}

#[test]
fn reads_nul_terminated_strings() {
    let d = b"abc\0\0x";
    assert_eq!(read_cstring(d, 0), Ok(("abc".to_string(), 4)));
    assert_eq!(read_cstring(d, 4), Ok((String::new(), 5)));
    assert_eq!(read_cstring(d, 5), Err(VpkError::UnexpectedEof));
    assert_eq!(read_cstring(&[0xff, 0xfe, 0], 0), Err(VpkError::InvalidUtf8));
    assert_eq!(read_cstring("é\0".as_bytes(), 0), Ok(("é".to_string(), 3)));
}

#[test]
fn parses_a_version_1_directory() {
    let data = v1_file(&sample_files());
    let vpk = Vpk::from_bytes(&data, "pak01_dir.vpk".to_string()).unwrap();
    assert_eq!(vpk.header.version, 1);
    assert_eq!(vpk.header.embed_chunk_length, None);
    assert_eq!(vpk.tree.len(), 2);
    assert_eq!(vpk.tree[0].0, "resource/overviews/de_dust2.txt");
    assert_eq!(vpk.tree[1].0, "logo.png");
    let e = vpk.find_entry("resource/overviews/de_dust2.txt").unwrap();
    assert_eq!(e.crc32, 7);
    assert_eq!(e.preload, b"ab".to_vec());
    assert_eq!(e.archive_offset, 100);
    // entries stored in the directory file are relative to the end of the tree
    let logo = vpk.find_entry("logo.png").unwrap();
    assert_eq!(logo.archive_offset, 4 + 12 + vpk.header.tree_length);
    assert!(vpk.find_entry("missing.txt").is_none());
    assert_eq!(vpk.tree_checksum, None);
}

#[test]
fn parses_a_version_2_directory_with_checksums() {
    let t = tree(&sample_files());
    let mut d = Vec::new();
    push_u32(&mut d, VPK_SIGNATURE);
    push_u32(&mut d, 2);
    push_u32(&mut d, t.len() as u32);
    push_u32(&mut d, 3); // embedded chunks
    push_u32(&mut d, 2); // chunk hashes
    push_u32(&mut d, 48);
    push_u32(&mut d, 0);
    d.extend_from_slice(&t);
    d.extend_from_slice(&[1, 2, 3]);
    d.extend_from_slice(&[4, 5]);
    let tree_md5 = chksum_hash_md5::hash(&t).into_inner();
    let chunk_md5 = chksum_hash_md5::hash([4u8, 5]).into_inner();
    let mut whole = d.clone();
    whole.extend_from_slice(&tree_md5);
    whole.extend_from_slice(&chunk_md5);
    let file_md5 = chksum_hash_md5::hash(&whole).into_inner();
    d.extend_from_slice(&tree_md5);
    d.extend_from_slice(&chunk_md5);
    d.extend_from_slice(&file_md5);
    let vpk = Vpk::from_bytes(&d, "x_dir.vpk".to_string()).unwrap();
    assert_eq!(vpk.header.version, 2);
    assert_eq!(vpk.header.embed_chunk_length, Some(3));
    assert_eq!(vpk.header.self_hashes_length, Some(48));
    assert_eq!(vpk.tree_checksum, Some(tree_md5));
    assert_eq!(vpk.file_checksum, Some(file_md5));
    let logo = vpk.find_entry("logo.png").unwrap();
    assert_eq!(logo.archive_offset, 4 + 28 + t.len() as u32);
    assert_eq!(vpk.verify(&d), Ok(true));
    let mut bad = d.clone();
    bad[30] ^= 1;
    assert_eq!(vpk.verify(&bad), Ok(false));
    assert_eq!(vpk.verify(&d[..40]), Err(VpkError::UnexpectedEof));
    // a version 2 file whose checksums are missing
    assert_eq!(Vpk::from_bytes(&d[..d.len() - 1], String::new()).err(), Some(VpkError::UnexpectedEof));
}

#[test]
fn version_1_needs_no_checksums() {
    let data = v1_file(&sample_files());
    let vpk = Vpk::from_bytes(&data, String::new()).unwrap();
    assert_eq!(vpk.verify(&[]), Ok(true));
}

#[test]
fn rejects_malformed_directories() {
    let good = v1_file(&sample_files());
    assert_eq!(Vpk::from_bytes(&good[..8], String::new()).err(), Some(VpkError::UnexpectedEof));
    let mut sig = good.clone();
    sig[0] = 0;
    assert_eq!(Vpk::from_bytes(&sig, String::new()).err(), Some(VpkError::InvalidSignature));
    let mut ver = good.clone();
    ver[4] = 3;
    assert_eq!(Vpk::from_bytes(&ver, String::new()).err(), Some(VpkError::UnsupportedVersion));
    let mut suffix = v1_file(&[FileSpec { ext: "a", dir: "b", name: "c", crc: 0, preload: b"", index: 0, offset: 0, length: 0 }]);
    // the suffix sits right before the preload (empty) and the two terminators
    let n = suffix.len();
    suffix[n - 5] = 0;
    assert_eq!(Vpk::from_bytes(&suffix, String::new()).err(), Some(VpkError::InvalidSuffix));
    assert_eq!(Vpk::from_bytes(&good[..good.len() - 1], String::new()).err(), Some(VpkError::UnexpectedEof));
    let mut utf = good.clone();
    utf[12] = 0xff;
    assert_eq!(Vpk::from_bytes(&utf, String::new()).err(), Some(VpkError::InvalidUtf8));
}

#[test]
fn later_entries_replace_earlier_ones() {
    let files = vec![
        FileSpec { ext: "txt", dir: "d", name: "f", crc: 1, preload: b"", index: 0, offset: 0, length: 0 },
        FileSpec { ext: "txt", dir: "d", name: "f", crc: 2, preload: b"", index: 0, offset: 0, length: 0 },
    ];
    let vpk = Vpk::from_bytes(&v1_file(&files), String::new()).unwrap();
    assert_eq!(vpk.find_entry("d/f.txt").unwrap().crc32, 2);
    assert_eq!(vpk.tree.len(), 1);
    assert_eq!(vpk.tree[0].1.crc32, 2);
}

#[test]
fn keeps_one_entry_per_path_in_first_place() {
    let e = |crc: u32| VpkEntry { crc32: crc, preload: vec![], archive_index: 0, archive_offset: 0, file_length: 0 };
    let raw = vec![
        ("a".to_string(), e(1)),
        ("b".to_string(), e(2)),
        ("a".to_string(), e(3)),
        ("c".to_string(), e(4)),
        ("b".to_string(), e(5)),
        ("a".to_string(), e(6)),
    ];
    let kept: Vec<(String, u32)> = keep_last_per_path(raw).into_iter().map(|(k, v)| (k, v.crc32)).collect();
    assert_eq!(kept, vec![("a".to_string(), 6), ("b".to_string(), 5), ("c".to_string(), 4)]);
}

#[test]
fn names_the_archive_of_an_entry() {
    assert_eq!(archive_file_for("pak01_dir.vpk", 7).as_deref(), Some("pak01_007.vpk"));
    assert_eq!(archive_file_for("pak01_dir.vpk", 0x7fff), None);
    let e = VpkEntry { crc32: 0, preload: vec![1], archive_index: 0, archive_offset: 0, file_length: 0 };
    assert!(!e.reads_archive());
    let f = VpkEntry { file_length: 3, ..e };
    assert!(f.reads_archive());
}

#[test]
fn file_content_is_preload_then_archive_bytes() {
    let vpk = Vpk::from_bytes(&v1_file(&sample_files()), String::new()).unwrap();
    let c = vpk.get_file_content("resource/overviews/de_dust2.txt", b"xyzw").unwrap();
    assert_eq!(c, b"abxyz".to_vec());
    let short = vpk.get_file_content("resource/overviews/de_dust2.txt", b"x").unwrap();
    assert_eq!(short, b"abx".to_vec());
    assert_eq!(vpk.get_file_content("nope", b"").err(), Some(VpkError::NotFound));
}

#[test]
fn lists_overviews_once() {
    let files = vec![
        FileSpec { ext: "txt", dir: "resource/overviews", name: "de_mirage", crc: 0, preload: b"", index: 0, offset: 0, length: 0 },
        FileSpec { ext: "txt", dir: "resource/overviews", name: "de_mirage", crc: 1, preload: b"", index: 0, offset: 0, length: 0 },
        FileSpec { ext: "res", dir: "resource/overviews", name: "x", crc: 0, preload: b"", index: 0, offset: 0, length: 0 },
        FileSpec { ext: "txt", dir: "resource", name: "de_inferno", crc: 0, preload: b"", index: 0, offset: 0, length: 0 },
        FileSpec { ext: "txt", dir: "resource/overviews/sub", name: "cs_office", crc: 0, preload: b"", index: 0, offset: 0, length: 0 },
    ];
    let vpk = Vpk::from_bytes(&v1_file(&files), String::new()).unwrap();
    let list = vpk.overview_files();
    assert_eq!(
        list,
        vec![
            ("resource/overviews/de_mirage.txt".to_string(), "de_mirage_radar.txt".to_string()),
            ("resource/overviews/sub/cs_office.txt".to_string(), "cs_office_radar.txt".to_string()),
        ]
    );
}

#[test]
fn names_archives_after_the_directory_file() {
    assert_eq!(archive_file_name("pak01_dir.vpk", 3), "pak01_003.vpk");
    assert_eq!(archive_file_name("pak01_dir.vpk", 1234), "pak01_1234.vpk");
    assert_eq!(archive_file_name("english_pak01_dir.vpk", 0), "_pak01_000.vpk");
    assert_eq!(archive_file_name("dir.dir.vpk", 12), "012.012.vpk");
}

#[test]
fn crc_of_entry_data() {
    let e = VpkEntry { crc32: 0xcbf43926, preload: vec![], archive_index: 0, archive_offset: 0, file_length: 0 };
    assert!(e.verify(b"123456789"));
    assert!(!e.verify(b"123456780"));
    assert!(e.crc_matches(0xcbf43926));
}

#[test]
fn plans_reads_across_preload_and_archive() {
    let e = VpkEntry { crc32: 0, preload: vec![1, 2, 3], archive_index: 0, archive_offset: 1000, file_length: 10 };
    assert_eq!(e.total_len(), 13);
    assert_eq!(e.plan_read(0, 2), ReadPlan { preload_start: 0, preload_count: 2, archive_read: None });
    assert_eq!(e.plan_read(1, 8), ReadPlan { preload_start: 1, preload_count: 2, archive_read: Some((1000, 6)) });
    assert_eq!(e.plan_read(5, 100), ReadPlan { preload_start: 0, preload_count: 0, archive_read: Some((1002, 8)) });
    assert_eq!(e.plan_read(13, 4), ReadPlan { preload_start: 0, preload_count: 0, archive_read: None });
    let only_preload = VpkEntry { crc32: 0, preload: vec![1, 2, 3], archive_index: 0, archive_offset: 0, file_length: 0 };
    assert_eq!(only_preload.plan_read(1, 10), ReadPlan { preload_start: 1, preload_count: 2, archive_read: None });
}

#[test]
fn seeks_within_the_file() {
    assert_eq!(seek_position(0, 10, SeekTarget::Start(4)), Ok(4));
    assert_eq!(seek_position(0, 10, SeekTarget::Start(40)), Ok(10));
    assert_eq!(seek_position(5, 10, SeekTarget::Current(-2)), Ok(3));
    assert_eq!(seek_position(5, 10, SeekTarget::Current(-6)), Err(VpkError::InvalidSeek));
    assert_eq!(seek_position(5, 10, SeekTarget::End(-1)), Ok(9));
    assert_eq!(seek_position(5, 10, SeekTarget::Start(u64::MAX)), Err(VpkError::InvalidSeek));
}

/// Reads a whole packed file the way a reader does: plan a read, copy the
/// preload part, then read from `archive` (the archive bytes from the
/// entry's offset on), until a read yields nothing.
fn read_by_plans(e: &VpkEntry, archive: &[u8], buf_len: usize) -> Vec<u8> {
    let mut out = Vec::new();
    let mut pos: u64 = 0;
    loop {
        let plan = e.plan_read(pos, buf_len);
        let mut chunk = e.preload[plan.preload_start..plan.preload_start + plan.preload_count].to_vec();
        if let Some((offset, max)) = plan.archive_read {
            let rel = (offset - e.archive_offset as u64) as usize;
            if rel < archive.len() {
                let end = (rel + max).min(archive.len());
                chunk.extend_from_slice(&archive[rel..end]);
            }
        }
        if chunk.is_empty() {
            return out;
        }
        pos += chunk.len() as u64;
        out.extend_from_slice(&chunk);
    }
}

#[test]
fn reading_by_plans_gives_the_file_content() {
    let vpk = Vpk::from_bytes(&v1_file(&sample_files()), String::new()).unwrap();
    let path = "resource/overviews/de_dust2.txt";
    let e = vpk.find_entry(path).unwrap().clone();
    for archive in [&b"xyzw"[..], &b"x"[..], &b""[..]] {
        let whole = vpk.get_file_content(path, archive).unwrap();
        for buf_len in 1..6 {
            assert_eq!(read_by_plans(&e, archive, buf_len), whole);
        }
    }
    let long = VpkEntry { crc32: 0, preload: vec![1, 2, 3, 4, 5], archive_index: 0, archive_offset: 7, file_length: 9 };
    let archive: Vec<u8> = (10..30).collect();
    let expected: Vec<u8> = vec![1, 2, 3, 4, 5, 10, 11, 12, 13, 14, 15, 16, 17, 18];
    for buf_len in 1..20 {
        assert_eq!(read_by_plans(&long, &archive, buf_len), expected);
    }
}

#[test]
fn position_stays_within_the_file() {
    let e = VpkEntry { crc32: 0, preload: vec![1, 2], archive_index: 0, archive_offset: 50, file_length: 3 };
    let total = e.total_len();
    assert_eq!(seek_position(4, total, SeekTarget::Current(0)), Ok(4));
    assert_eq!(seek_position(1, total, SeekTarget::End(0)), Ok(total));
    assert_eq!(e.plan_read(total, 8), ReadPlan { preload_start: 0, preload_count: 0, archive_read: None });
    let p = e.plan_read(1, 8);
    assert!(1 + p.preload_count as u64 + p.archive_read.map_or(0, |(_, m)| m as u64) <= total);
}
