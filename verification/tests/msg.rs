use eldenring::cs::msg::{FmgFile, MsgRepository, FILE_SIZE_SLACK, GROUP_SIZE, HEADER_SIZE};

fn put_u32(d: &mut Vec<u8>, p: usize, v: u32) {
    d[p..p + 4].copy_from_slice(&v.to_le_bytes());
}

fn put_u64(d: &mut Vec<u8>, p: usize, v: u64) {
    d[p..p + 8].copy_from_slice(&v.to_le_bytes());
}

fn wide(s: &str) -> Vec<u16> {
    s.encode_utf16().collect()
}

/// Lays out a message file: header, groups `(offset, first_id, last_id)`, the
/// offset table (8-aligned, right after the groups) and the texts, each
/// zero-terminated; a `None` text gets a zero table entry.
fn build(groups: &[(u32, u32, u32)], texts: &[Option<&str>]) -> Vec<u8> {
    let table = HEADER_SIZE + GROUP_SIZE * groups.len();
    let mut d = vec![0u8; table + 8 * texts.len()];
    for (k, g) in groups.iter().enumerate() {
        let p = HEADER_SIZE + GROUP_SIZE * k;
        put_u32(&mut d, p, g.0);
        put_u32(&mut d, p + 4, g.1);
        put_u32(&mut d, p + 8, g.2);
    }
    for (i, t) in texts.iter().enumerate() {
        if let Some(t) = t {
            let pos = d.len();
            for u in wide(t) {
                d.extend_from_slice(&u.to_le_bytes());
            }
            d.extend_from_slice(&[0, 0]);
            put_u64(&mut d, table + 8 * i, pos as u64);
        }
    }
    d[1] = 0;
    d[2] = 2;
    let len = d.len() as u32;
    put_u32(&mut d, 0x04, len);
    put_u32(&mut d, 0x0C, groups.len() as u32);
    put_u32(&mut d, 0x10, texts.len() as u32);
    put_u64(&mut d, 0x18, table as u64);
    d
}

fn sample() -> Vec<u8> {
    build(
        &[(0, 100, 102), (3, 200, 201), (5, 500, 500)],
        &[Some("A"), Some("BC"), None, Some("Hi"), Some("X"), Some("Yo!")],
    )
}

#[test]
fn from_bytes_accepts_a_file() {
    let d = sample();
    let f = FmgFile::from_bytes(d.clone()).unwrap();
    assert_eq!(f.as_bytes(), &d);
}

#[test]
fn from_bytes_rejects_a_short_image() {
    assert!(FmgFile::from_bytes(vec![0u8; HEADER_SIZE - 1]).is_none());
    assert!(FmgFile::from_bytes(vec![0u8; HEADER_SIZE]).is_some());
}

#[test]
fn groups_fit_checks_the_image() {
    let mut d = sample();
    put_u32(&mut d, 0x0C, 1000);
    let f = FmgFile::from_bytes(d).unwrap();
    assert!(!f.groups_fit());
    assert!(!f.lookup_defined(100));
    // The offset table and the texts do not go through the groups.
    assert_eq!(f.msg_offsets().len(), 6);
    assert_eq!(f.msg_by_index(1), Some(wide("BC")));
    assert_eq!(f.header().group_count, 1000);
}

#[test]
fn groups_fit_checks_the_file_size() {
    let mut d = sample();
    // Three groups need a file size of at least 3 * 16 + 16.
    put_u32(&mut d, 0x04, 3 * GROUP_SIZE as u32 + FILE_SIZE_SLACK - 1);
    let f = FmgFile::from_bytes(d.clone()).unwrap();
    assert!(!f.groups_fit());
    put_u32(&mut d, 0x04, 3 * GROUP_SIZE as u32 + FILE_SIZE_SLACK);
    let f = FmgFile::from_bytes(d).unwrap();
    assert!(f.groups_fit());
    assert_eq!(f.msg_groups().len(), 3);
    // Without groups the file size does not matter.
    let mut d = build(&[], &[Some("A")]);
    put_u32(&mut d, 0x04, 0);
    assert!(FmgFile::from_bytes(d).unwrap().groups_fit());
}

#[test]
fn lookup_defined_checks_the_found_index() {
    let f = FmgFile::from_bytes(build(&[(u32::MAX, 10, 11)], &[])).unwrap();
    assert!(f.lookup_defined(10));
    assert_eq!(f.msg_index_by_id(10), Some(u32::MAX));
    assert!(!f.lookup_defined(11));
    assert!(f.lookup_defined(12));
    assert_eq!(f.msg_index_by_id(12), None);
    // A group whose first id lies above its last holds no id.
    let f = FmgFile::from_bytes(build(&[(u32::MAX, 12, 11)], &[])).unwrap();
    assert!(f.lookup_defined(11));
    assert_eq!(f.msg_index_by_id(11), None);
}

#[test]
fn header_reads_the_fields() {
    let d = sample();
    let f = FmgFile::from_bytes(d.clone()).unwrap();
    let h = f.header();
    assert_eq!(h.version, 2);
    assert_eq!(h.file_size, d.len() as u32);
    assert_eq!(h.group_count, 3);
    assert_eq!(h.msg_count, 6);
    assert_eq!(h.msg_offsets, (HEADER_SIZE + 3 * GROUP_SIZE) as u64);
}

#[test]
fn msg_groups_reads_the_records() {
    let f = FmgFile::from_bytes(sample()).unwrap();
    let g = f.msg_groups();
    assert_eq!(g.len(), 3);
    assert_eq!((g[1].offset, g[1].first_id, g[1].last_id), (3, 200, 201));
}

#[test]
fn msg_index_by_id_finds_ids_in_groups() {
    let f = FmgFile::from_bytes(sample()).unwrap();
    assert_eq!(f.msg_index_by_id(100), Some(0));
    assert_eq!(f.msg_index_by_id(102), Some(2));
    assert_eq!(f.msg_index_by_id(200), Some(3));
    assert_eq!(f.msg_index_by_id(201), Some(4));
    assert_eq!(f.msg_index_by_id(500), Some(5));
}

#[test]
fn msg_index_by_id_misses_ids_outside_groups() {
    let f = FmgFile::from_bytes(sample()).unwrap();
    assert_eq!(f.msg_index_by_id(99), None);
    assert_eq!(f.msg_index_by_id(103), None);
    assert_eq!(f.msg_index_by_id(199), None);
    assert_eq!(f.msg_index_by_id(300), None);
    assert_eq!(f.msg_index_by_id(501), None);
    assert_eq!(f.msg_index_by_id(0), None);
    assert_eq!(f.msg_index_by_id(u32::MAX), None);
}

#[test]
fn msg_index_by_id_without_groups() {
    let f = FmgFile::from_bytes(build(&[], &[Some("A")])).unwrap();
    assert_eq!(f.msg_index_by_id(0), None);
}

#[test]
fn msg_index_by_id_many_groups() {
    let groups: Vec<(u32, u32, u32)> = (0..50).map(|k| (2 * k, 10 * k, 10 * k + 1)).collect();
    let f = FmgFile::from_bytes(build(&groups, &[])).unwrap();
    for k in 0..50u32 {
        assert_eq!(f.msg_index_by_id(10 * k), Some(2 * k));
        assert_eq!(f.msg_index_by_id(10 * k + 1), Some(2 * k + 1));
        assert_eq!(f.msg_index_by_id(10 * k + 5), None);
    }
}

#[test]
fn msg_index_by_id_unsorted_groups() {
    // 55 lies before the first group's first id, so it is not looked for.
    // The search tries the middle group first: 150 lies after its last id,
    // and the group above it starts later, so 150 is not found although the
    // first group holds it.
    let f = FmgFile::from_bytes(build(&[(0, 100, 200), (7, 50, 60), (9, 300, 400)], &[])).unwrap();
    assert_eq!(f.msg_index_by_id(55), None);
    assert_eq!(f.msg_index_by_id(150), None);
    assert_eq!(f.msg_index_by_id(350), Some(59));
}

#[test]
fn msg_offsets_reads_the_table() {
    let f = FmgFile::from_bytes(sample()).unwrap();
    let o = f.msg_offsets();
    assert_eq!(o.len(), 6);
    assert!(o[0].is_some());
    assert_eq!(o[2], None);
}

#[test]
fn msg_offsets_without_a_table() {
    let mut d = sample();
    put_u64(&mut d, 0x18, 0);
    let f = FmgFile::from_bytes(d.clone()).unwrap();
    assert!(f.msg_offsets().is_empty());
    assert_eq!(f.get_msg(100), None);
    // Misaligned table position.
    put_u64(&mut d, 0x18, (HEADER_SIZE + 3 * GROUP_SIZE + 4) as u64);
    let f = FmgFile::from_bytes(d.clone()).unwrap();
    assert!(f.msg_offsets().is_empty());
    // A table that runs past the image.
    let near_end = (d.len() - 8) as u64 & !7;
    put_u64(&mut d, 0x18, near_end);
    let f = FmgFile::from_bytes(d).unwrap();
    assert!(f.msg_offsets().is_empty());
}

#[test]
fn get_msg_reads_texts() {
    let f = FmgFile::from_bytes(sample()).unwrap();
    assert_eq!(f.get_msg(100), Some(wide("A")));
    assert_eq!(f.get_msg(101), Some(wide("BC")));
    assert_eq!(f.get_msg(102), None);
    assert_eq!(f.get_msg(200), Some(wide("Hi")));
    assert_eq!(f.get_msg(500), Some(wide("Yo!")));
    assert_eq!(f.get_msg(300), None);
    assert_eq!(f.msg_by_index(4), Some(wide("X")));
    assert_eq!(f.msg_by_index(6), None);
}

#[test]
fn get_msg_empty_text() {
    let f = FmgFile::from_bytes(build(&[(0, 1, 1)], &[Some("")])).unwrap();
    assert_eq!(f.get_msg(1), Some(vec![]));
}

#[test]
fn msg_by_index_rejects_bad_positions() {
    let mut d = sample();
    let table = HEADER_SIZE + 3 * GROUP_SIZE;
    // Negative position.
    put_u64(&mut d, table, (-2i64) as u64);
    // Position at the very end of the image.
    let len = d.len() as u64;
    put_u64(&mut d, table + 8, len);
    let f = FmgFile::from_bytes(d.clone()).unwrap();
    assert_eq!(f.msg_by_index(0), None);
    assert_eq!(f.msg_by_index(1), None);
    // A text without terminator.
    let mut d = d;
    let n = d.len();
    d[n - 2] = b'z';
    let f = FmgFile::from_bytes(d).unwrap();
    assert_eq!(f.get_msg(500), None);
}

#[test]
fn get_msg_mut_then_get_msg() {
    let mut f = FmgFile::from_bytes(sample()).unwrap();
    assert!(f.accepts_msg(101, &wide("QR")));
    assert!(f.get_msg_mut(101, &wide("QR")));
    assert_eq!(f.get_msg(101), Some(wide("QR")));
    assert!(f.get_msg_mut(500, &wide("N")));
    assert_eq!(f.get_msg(500), Some(wide("No!")));
    assert_eq!(f.get_msg(100), Some(wide("A")));
    assert_eq!(f.get_msg(200), Some(wide("Hi")));
}

#[test]
fn get_msg_mut_refuses_a_longer_text() {
    let d = sample();
    let mut f = FmgFile::from_bytes(d.clone()).unwrap();
    assert!(!f.accepts_msg(100, &wide("AB")));
    assert!(!f.get_msg_mut(100, &wide("AB")));
    assert!(!f.get_msg_mut(102, &wide("")));
    assert!(!f.get_msg_mut(999, &wide("")));
    assert_eq!(f.as_bytes(), &d);
    assert!(f.get_msg_mut(100, &wide("")));
    assert_eq!(f.as_bytes(), &d);
}

#[test]
fn get_msg_mut_writes_onto_the_tables() {
    let mut d = build(&[(0, 1, 1)], &[Some("ab")]);
    let table = HEADER_SIZE + GROUP_SIZE;
    // Point the message at the group's first id: its bytes read the text [1].
    put_u64(&mut d, table, HEADER_SIZE as u64 + 4);
    let mut f = FmgFile::from_bytes(d.clone()).unwrap();
    assert_eq!(f.get_msg(1), Some(vec![1]));
    assert!(f.get_msg_mut(1, &[7]));
    // The group now runs from id 7 to id 1 and holds no id.
    assert_eq!(f.msg_groups()[0].first_id, 7);
    assert_eq!(f.msg_index_by_id(1), None);
    assert_eq!(f.msg_index_by_id(7), None);
    assert_eq!(f.msg_by_index(0), Some(vec![7]));
}

#[test]
fn msg_by_index_mut_writes_by_index() {
    let mut f = FmgFile::from_bytes(sample()).unwrap();
    assert!(f.msg_by_index_mut(3, &wide("h")));
    assert_eq!(f.get_msg(200), Some(wide("hi")));
    assert!(!f.msg_by_index_mut(2, &wide("")));
}

fn repo() -> MsgRepository {
    let a = FmgFile::from_bytes(sample()).unwrap();
    let b = FmgFile::from_bytes(build(&[(0, 7, 7)], &[Some("seven")])).unwrap();
    let c = FmgFile::from_bytes(build(&[(0, 7, 7)], &[Some("other")])).unwrap();
    MsgRepository::new(vec![Some(vec![Some(a), None, Some(b)]), Some(vec![Some(c), None, None])], 3).unwrap()
}

#[test]
fn repository_new_checks_the_rows() {
    let r = repo();
    assert_eq!(r.version_count(), 2);
    assert_eq!(r.file_capacity(), 3);
    let a = FmgFile::from_bytes(sample()).unwrap();
    assert!(MsgRepository::new(vec![Some(vec![Some(a)])], 2).is_none());
    assert!(MsgRepository::new(vec![None, Some(vec![None, None])], 2).is_some());
    assert!(MsgRepository::new(vec![], 5).is_some());
}

#[test]
fn repository_get_file_and_get_msg() {
    let r = repo();
    assert!(r.get_file(0).is_some());
    assert!(r.get_file(1).is_none());
    assert!(r.get_file(3).is_none());
    assert_eq!(r.get_msg(0, 101), Some(wide("BC")));
    assert_eq!(r.get_msg(2, 7), Some(wide("seven")));
    assert_eq!(r.get_msg(1, 7), None);
    assert_eq!(r.get_msg(2, 8), None);
}

#[test]
fn repository_reads_the_first_version_only() {
    let r = MsgRepository::new(vec![None, Some(vec![Some(FmgFile::from_bytes(sample()).unwrap())])], 1).unwrap();
    assert!(r.get_file(0).is_none());
    let r = MsgRepository::new(vec![], 1).unwrap();
    assert!(r.get_file(0).is_none());
}

#[test]
fn repository_get_msg_mut() {
    let mut r = repo();
    assert!(r.accepts_msg(2, 7, &wide("S")));
    assert!(r.get_msg_mut(2, 7, &wide("S")));
    assert_eq!(r.get_msg(2, 7), Some(wide("Seven")));
    assert_eq!(r.get_msg(0, 100), Some(wide("A")));
    assert!(!r.get_msg_mut(1, 7, &wide("S")));
    assert!(!r.get_msg_mut(2, 7, &wide("toolongtext")));
}

#[test]
fn repository_get_msg_disjoint_mut() {
    let mut r = repo();
    let q = vec![(0, 100, wide("Z")), (2, 7, wide("SE"))];
    assert!(r.get_msg_disjoint_mut(&q));
    assert_eq!(r.get_msg(0, 100), Some(wide("Z")));
    assert_eq!(r.get_msg(2, 7), Some(wide("SEven")));
}

#[test]
fn repository_get_msg_disjoint_mut_rejects_duplicates() {
    let mut r = repo();
    let q = vec![(0, 100, wide("Z")), (2, 7, wide("SE")), (0, 100, wide("Y"))];
    assert!(!r.get_msg_disjoint_mut(&q));
    assert_eq!(r.get_msg(0, 100), Some(wide("A")));
    assert_eq!(r.get_msg(2, 7), Some(wide("seven")));
}

#[test]
fn repository_get_msg_disjoint_mut_all_or_nothing() {
    let mut r = repo();
    let q = vec![(0, 100, wide("Z")), (0, 102, wide(""))];
    assert!(!r.get_msg_disjoint_mut(&q));
    assert_eq!(r.get_msg(0, 100), Some(wide("A")));
    assert!(r.get_msg_disjoint_mut(&vec![]));
}

#[test]
fn set_header_then_header() {
    let d = sample();
    let mut f = FmgFile::from_bytes(d.clone()).unwrap();
    let mut h = f.header();
    h.version = 1;
    h.msg_count = 5;
    h.max_group_size = 77;
    h._unk20 = 0x0102_0304_0506_0708;
    f.set_header(h);
    let r = f.header();
    assert_eq!((r.version, r.msg_count, r.max_group_size, r._unk20), (1, 5, 77, 0x0102_0304_0506_0708));
    assert_eq!(&f.as_bytes()[HEADER_SIZE..], &d[HEADER_SIZE..]);
    assert_eq!(f.msg_offsets().len(), 5);
    assert_eq!(f.get_msg(500), None);
    assert_eq!(f.get_msg(201), Some(wide("X")));
}

#[test]
fn set_header_writes_any_header() {
    let d = sample();
    let mut f = FmgFile::from_bytes(d.clone()).unwrap();
    let mut h = f.header();
    h.group_count = 1000;
    h.file_size = 10;
    f.set_header(h);
    assert_eq!(f.header().group_count, 1000);
    assert_eq!(f.header().file_size, 10);
    assert_eq!(&f.as_bytes()[HEADER_SIZE..], &d[HEADER_SIZE..]);
    assert!(!f.groups_fit());
    assert_eq!(f.msg_by_index(5), Some(wide("Yo!")));
    h.group_count = 0;
    f.set_header(h);
    assert!(f.groups_fit());
    assert_eq!(f.get_msg(100), None);
}

#[test]
fn repository_lookup_defined() {
    let mut d = sample();
    put_u32(&mut d, 0x0C, 1000);
    let bad = FmgFile::from_bytes(d).unwrap();
    let r = MsgRepository::new(vec![Some(vec![Some(bad), None])], 2).unwrap();
    assert!(!r.lookup_defined(0, 100));
    assert!(r.lookup_defined(1, 100));
    assert!(r.lookup_defined(5, 100));
    assert!(repo().lookup_defined(0, 100));
}

#[test]
fn repository_get_msg_disjoint_mut_places_writes_first() {
    // Message 1's text lies on the group's first id; message 2's text is "ab".
    let mut d = build(&[(0, 1, 2)], &[Some("x"), Some("ab")]);
    put_u64(&mut d, HEADER_SIZE + GROUP_SIZE, HEADER_SIZE as u64 + 4);
    let f = FmgFile::from_bytes(d).unwrap();
    let mut r = MsgRepository::new(vec![Some(vec![Some(f)])], 1).unwrap();
    // The first write moves the group to ids 5..=2, so message 2 could no
    // longer be found; it is written where it was found before either write.
    let q = vec![(0, 1, vec![5u16]), (0, 2, wide("Z"))];
    assert!(r.get_msg_disjoint_mut(&q));
    assert_eq!(r.get_file(0).unwrap().msg_by_index(1), Some(wide("Zb")));
    assert_eq!(r.get_msg(0, 2), None);
}
