use wad::{Kind, Wad, WadError};

fn header(tag: &[u8; 4], count: i32, offset: i32) -> Vec<u8> {
    let mut v = tag.to_vec();
    v.extend_from_slice(&count.to_le_bytes());
    v.extend_from_slice(&offset.to_le_bytes());
    v
}

fn entry(v: &mut Vec<u8>, offset: u32, size: u32, name: &[u8]) {
    v.extend_from_slice(&offset.to_le_bytes());
    v.extend_from_slice(&size.to_le_bytes());
    let mut n = [0u8; 8];
    n[..name.len()].copy_from_slice(name);
    v.extend_from_slice(&n);
}

/// An archive whose directory follows the header and whose lumps follow the
/// directory, one per (name, payload) pair.
fn archive(tag: &[u8; 4], lumps: &[(&[u8], &[u8])]) -> Vec<u8> {
    let mut v = header(tag, lumps.len() as i32, 12);
    let mut at = 12 + 16 * lumps.len() as u32;
    for (name, data) in lumps {
        entry(&mut v, at, data.len() as u32, name);
        at += data.len() as u32;
    }
    for (_, data) in lumps {
        v.extend_from_slice(data);
    }
    v
}

#[test]
fn round_trip_single_lump() {
    let mut v = header(b"PWAD", 1, 12);
    entry(&mut v, 28, 4, b"TEST");
    v.extend_from_slice(&[0xDE, 0xAD, 0xBE, 0xEF]);
    let w = Wad::open(v).unwrap();
    assert_eq!(w.kind(), Kind::Pwad);
    assert_eq!(w.lump_count(), 1);
    assert_eq!(w.find_lump("TEST"), Some(0));
    assert_eq!(w.read_lump(0).unwrap(), &[0xDE, 0xAD, 0xBE, 0xEF]);
}

#[test]
fn iwad_tag_gives_primary_kind() {
    let w = Wad::open(archive(b"IWAD", &[])).unwrap();
    assert_eq!(w.kind(), Kind::Iwad);
}

#[test]
fn unknown_tag_is_refused_with_its_bytes() {
    let r = Wad::open(archive(b"XWAD", &[]));
    assert_eq!(r.err(), Some(WadError::InvalidKind(*b"XWAD")));
    let r = Wad::open(archive(&[0, 0, 0, 0], &[]));
    assert_eq!(r.err(), Some(WadError::InvalidKind([0, 0, 0, 0])));
}

#[test]
fn tag_match_is_case_sensitive() {
    let r = Wad::open(archive(b"iwad", &[]));
    assert_eq!(r.err(), Some(WadError::InvalidKind(*b"iwad")));
    let r = Wad::open(archive(b"PWAD", &[]));
    assert!(r.is_ok());
}

#[test]
fn short_buffer_is_missing_header() {
    assert_eq!(Wad::open(Vec::new()).err(), Some(WadError::MissingHeader));
    assert_eq!(Wad::open(b"IWAD".to_vec()).err(), Some(WadError::MissingHeader));
    let mut v = header(b"IWAD", 0, 12);
    v.pop();
    assert_eq!(v.len(), 11);
    assert_eq!(Wad::open(v).err(), Some(WadError::MissingHeader));
}

#[test]
fn negative_count_or_offset_is_invalid_directory() {
    assert_eq!(Wad::open(header(b"IWAD", -1, 12)).err(), Some(WadError::InvalidDirectory));
    assert_eq!(Wad::open(header(b"PWAD", 0, -12)).err(), Some(WadError::InvalidDirectory));
}

#[test]
fn directory_past_end_is_out_of_bounds() {
    let mut v = header(b"PWAD", 2, 12);
    entry(&mut v, 0, 0, b"A");
    assert_eq!(Wad::open(v).err(), Some(WadError::DirectoryOutOfBounds));
    assert_eq!(Wad::open(header(b"PWAD", 0, 13)).err(), Some(WadError::DirectoryOutOfBounds));
    let huge = header(b"PWAD", i32::MAX, i32::MAX);
    assert_eq!(Wad::open(huge).err(), Some(WadError::DirectoryOutOfBounds));
}

#[test]
fn directory_ending_at_buffer_end_is_accepted() {
    let mut v = header(b"PWAD", 1, 16);
    v.extend_from_slice(&[1, 2, 3, 4]);
    entry(&mut v, 12, 4, b"DATA");
    assert_eq!(v.len(), 32);
    let w = Wad::open(v).unwrap();
    assert_eq!(w.read_lump(0).unwrap(), &[1, 2, 3, 4]);
    let w = Wad::open(header(b"IWAD", 0, 12)).unwrap();
    assert_eq!(w.lump_count(), 0);
}

#[test]
fn lump_past_end_names_its_entry() {
    let mut v = header(b"PWAD", 3, 12);
    entry(&mut v, 60, 2, b"GOOD");
    entry(&mut v, 60, 3, b"BAD");
    entry(&mut v, 61, 1, b"ALSO");
    v.extend_from_slice(&[7, 8]);
    assert_eq!(v.len(), 62);
    assert_eq!(Wad::open(v).err(), Some(WadError::LumpOutOfBounds(1)));
}

#[test]
fn first_bad_lump_is_named() {
    let mut v = header(b"PWAD", 2, 12);
    entry(&mut v, 0, 100, b"ONE");
    entry(&mut v, 100, 0, b"TWO");
    assert_eq!(Wad::open(v).err(), Some(WadError::LumpOutOfBounds(0)));
}

#[test]
fn lump_offset_is_read_unsigned() {
    let mut v = header(b"PWAD", 1, 12);
    entry(&mut v, 0xFFFF_FFFF, 1, b"NEG");
    assert_eq!(Wad::open(v).err(), Some(WadError::LumpOutOfBounds(0)));
}

#[test]
fn read_lump_is_the_declared_slice() {
    let bytes = archive(b"PWAD", &[(b"ONE", &[1]), (b"EMPTY", &[]), (b"THREE", &[3, 3, 3])]);
    let w = Wad::open(bytes.clone()).unwrap();
    assert_eq!(w.lump_count(), 3);
    for i in 0..w.lump_count() {
        let l = w.lump_at(i).unwrap();
        let s = w.read_lump(i).unwrap();
        assert_eq!(s.len(), l.size);
        assert_eq!(s, &bytes[l.offset..l.offset + l.size]);
    }
    assert_eq!(w.read_lump(1).unwrap().len(), 0);
    assert_eq!(w.read_lump(2).unwrap(), &[3, 3, 3]);
}

#[test]
fn index_past_count_is_out_of_range() {
    let w = Wad::open(archive(b"PWAD", &[(b"ONE", &[1])])).unwrap();
    assert!(matches!(w.lump_at(1), Err(WadError::IndexOutOfRange)));
    assert_eq!(w.read_lump(1).err(), Some(WadError::IndexOutOfRange));
    assert_eq!(w.read_lump(usize::MAX).err(), Some(WadError::IndexOutOfRange));
}

#[test]
fn later_duplicate_wins() {
    let bytes = archive(
        b"PWAD",
        &[(b"PLAYPAL", &[1]), (b"COLORMAP", &[2]), (b"PLAYPAL", &[3]), (b"ENDOOM", &[4])],
    );
    let w = Wad::open(bytes).unwrap();
    assert_eq!(w.find_lump("PLAYPAL"), Some(2));
    assert_eq!(w.find_all("PLAYPAL"), vec![0, 2]);
    assert_eq!(w.read_lump(w.find_lump("PLAYPAL").unwrap()).unwrap(), &[3]);
    assert_eq!(w.find_all("ENDOOM"), vec![3]);
    assert_eq!(w.find_all("MISSING"), Vec::<usize>::new());
    assert_eq!(w.find_lump("MISSING"), None);
}

#[test]
fn names_match_without_case_or_padding() {
    let w = Wad::open(archive(b"IWAD", &[(b"MAP01", &[]), (b"things", &[9])])).unwrap();
    assert_eq!(w.find_lump("map01"), Some(0));
    assert_eq!(w.find_lump("Map01"), Some(0));
    assert_eq!(w.find_lump("MAP01\0\0"), Some(0));
    assert_eq!(w.find_lump("THINGS"), Some(1));
    assert_eq!(w.find_lump("MAP0"), None);
    assert_eq!(w.find_lump("MAP01X"), None);
}

#[test]
fn descriptor_keeps_the_stored_name() {
    let w = Wad::open(archive(b"PWAD", &[(b"things", &[9, 9])])).unwrap();
    let l = w.lump_at(0).unwrap();
    assert_eq!(l.name, b"things".to_vec());
    assert_eq!(l.key, b"THINGS".to_vec());
    assert_eq!(l.size, 2);
    assert_eq!(l.offset, 28);
}

#[test]
fn full_eight_byte_name_has_no_terminator() {
    let w = Wad::open(archive(b"PWAD", &[(b"SKY1TALL", &[5])])).unwrap();
    assert_eq!(w.lump_at(0).unwrap().name, b"SKY1TALL".to_vec());
    assert_eq!(w.find_lump("sky1tall"), Some(0));
}

#[test]
fn empty_directory_finds_nothing() {
    let w = Wad::open(archive(b"PWAD", &[])).unwrap();
    assert_eq!(w.lump_count(), 0);
    assert_eq!(w.find_lump("TEST"), None);
    assert_eq!(w.find_lump(""), None);
    assert!(w.find_all("TEST").is_empty());
}

#[test]
fn marker_lumps_have_no_payload() {
    let w = Wad::open(archive(b"PWAD", &[(b"F_START", &[]), (b"FLAT", &[1, 2]), (b"F_END", &[])]))
        .unwrap();
    assert_eq!(w.lump_at(0).unwrap().size, 0);
    assert_eq!(w.read_lump(2).unwrap().len(), 0);
    assert_eq!(w.find_lump("f_end"), Some(2));
}

#[test]
fn long_query_sharing_a_key_finds_nothing() {
    let w = Wad::open(archive(b"PWAD", &[(b"AAAAAAAB", &[1]), (b"aaaaaaab", &[2])])).unwrap();
    assert_eq!(wad::name::key_of(b"XAAAAAAAB"), wad::name::key_of(b"AAAAAAAB"));
    assert_eq!(w.find_lump("XAAAAAAAB"), None);
    assert!(w.find_all("XAAAAAAAB").is_empty());
    assert_eq!(w.find_all("AAAAAAAB"), vec![0, 1]);
    assert_eq!(w.find_lump("aaaaaaab"), Some(1));
}
