use cabtools::msce_000::{
    format_extension_key, push_path, resolve_path, DirectoryEntries, Header, RedirectMap,
    SharedStrings, MSCE000,
};
use cabtools::strings::WinNullString;
use cabtools::DecodeError;
use std::collections::HashMap;

fn put16(d: &mut Vec<u8>, p: usize, v: u16) {
    d[p] = (v & 0xff) as u8;
    d[p + 1] = (v >> 8) as u8;
}

fn push16(d: &mut Vec<u8>, v: u16) {
    d.push((v & 0xff) as u8);
    d.push((v >> 8) as u8);
}

fn header(strings: u16, dirs: u16, files: u16) -> Vec<u8> {
    let mut d = vec![0u8; 100];
    d[0..4].copy_from_slice(b"MSCE");
    put16(&mut d, 48, strings);
    put16(&mut d, 50, dirs);
    put16(&mut d, 52, files);
    d
}

/// Header, three texts, one string "App", one directory made of it, one file
/// "run.exe" in that directory with extension id 1.
fn minimal_manifest() -> Vec<u8> {
    let mut d = header(1, 1, 1);
    d.extend_from_slice(b"App\0");
    d.extend_from_slice(b"Prov\0");
    d.extend_from_slice(b"\0");
    push16(&mut d, 1);
    push16(&mut d, 4);
    d.extend_from_slice(b"App\0");
    push16(&mut d, 1);
    push16(&mut d, 2);
    push16(&mut d, 1);
    push16(&mut d, 1);
    push16(&mut d, 1);
    push16(&mut d, 1);
    d.extend_from_slice(&[0, 0, 0, 0]);
    push16(&mut d, 8);
    d.extend_from_slice(b"run.exe\0");
    d
}

#[test]
fn decode_minimal_manifest() {
    let d = minimal_manifest();
    let m = MSCE000::read(&d).ok().unwrap();
    assert_eq!(m.app_name.to_string(), "App");
    assert_eq!(m.provider.to_string(), "Prov");
    assert_eq!(m.unsupported.to_string(), "");
    assert_eq!(m.strings.0.get(&1).unwrap(), "App");
    assert_eq!(m.directories.0.get(&1).unwrap(), "App");
    assert_eq!(m.files.len(), 1);
    assert_eq!(m.files[0].name.to_string(), "run.exe");
    assert_eq!(m.files[0].extension_id, 1);
    assert_eq!(m.files[0].file_path, "App/run.exe");
    assert_eq!(m.file_mapping.get(&"001".to_string()), Some("App/run.exe".to_string()));
    assert_eq!(m.file_mapping.entries.len(), 1);
    assert!(m.reg_hives.is_empty() && m.reg_keys.is_empty() && m.links.is_empty());
}

#[test]
fn missing_magic_fails_before_tables() {
    let mut d = minimal_manifest();
    d[0] = b'X';
    assert_eq!(MSCE000::read(&d).err(), Some(DecodeError::BadMagic));
    assert_eq!(Header::read(&d).err(), Some(DecodeError::BadMagic));
    // a wrong tag with nothing after it is still a wrong tag
    assert_eq!(MSCE000::read(b"ABCD").err(), Some(DecodeError::BadMagic));
}

#[test]
fn short_input_is_truncated() {
    assert_eq!(MSCE000::read(b"MS").err(), Some(DecodeError::Truncated));
    assert_eq!(MSCE000::read(b"MSCE").err(), Some(DecodeError::Truncated));
    let d = minimal_manifest();
    for cut in [100, 104, 120, d.len() - 1] {
        assert_eq!(MSCE000::read(&d[..cut]).err(), Some(DecodeError::Truncated), "cut {}", cut);
    }
}

#[test]
fn unterminated_text_is_truncated() {
    let mut d = header(0, 0, 0);
    d.extend_from_slice(b"App");
    assert_eq!(MSCE000::read(&d).err(), Some(DecodeError::Truncated));
}

#[test]
fn header_fields_are_little_endian() {
    let mut d = header(0x0102, 3, 4);
    d[20..24].copy_from_slice(&[0x78, 0x56, 0x34, 0x12]);
    put16(&mut d, 86, 9);
    let h = Header::read(&d).ok().unwrap();
    assert_eq!(h.target_architecture, 0x12345678);
    assert_eq!(h.num_entries_strings, 0x0102);
    assert_eq!(h.num_entries_dirs, 3);
    assert_eq!(h.num_entries_files, 4);
    assert_eq!(h.length_app_name, 9);
}

#[test]
fn texts_are_padded_to_declared_length() {
    let mut d = header(0, 0, 0);
    put16(&mut d, 86, 8);
    d.extend_from_slice(b"App\0\xff\xff\xff\xff");
    d.extend_from_slice(b"P\0");
    d.extend_from_slice(b"U\0");
    let m = MSCE000::read(&d).ok().unwrap();
    assert_eq!(m.app_name.to_string(), "App");
    assert_eq!(m.provider.to_string(), "P");
    assert_eq!(m.unsupported.to_string(), "U");
}

#[test]
fn text_is_windows_1252() {
    let mut d = header(0, 0, 0);
    d.extend_from_slice(b"Caf\xe9 \x80\0");
    d.extend_from_slice(b"\0\0");
    let m = MSCE000::read(&d).ok().unwrap();
    assert_eq!(m.app_name.to_string(), "Caf\u{e9} \u{20ac}");
}

#[test]
fn unresolved_spec_is_skipped() {
    let mut hm = HashMap::new();
    hm.insert(1u16, "A".to_string());
    hm.insert(2u16, "B".to_string());
    let strings = SharedStrings(hm);
    assert_eq!(resolve_path(&strings, &vec![1, 99, 2]), "AB");
    assert_eq!(resolve_path(&strings, &vec![99]), "");
    assert_eq!(resolve_path(&strings, &vec![2, 1, 2]), "BAB");
}

#[test]
fn unresolved_spec_is_skipped_when_decoding() {
    let mut d = header(2, 1, 0);
    d.extend_from_slice(b"\0\0\0");
    for (id, text) in [(1u16, &b"A\0"[..]), (2, &b"B\0"[..])] {
        push16(&mut d, id);
        push16(&mut d, 2);
        d.extend_from_slice(text);
    }
    push16(&mut d, 5);
    push16(&mut d, 6);
    push16(&mut d, 1);
    push16(&mut d, 99);
    push16(&mut d, 2);
    let m = MSCE000::read(&d).ok().unwrap();
    assert_eq!(m.directories.0.get(&5).unwrap(), "AB");
}

#[test]
fn duplicate_ids_keep_last() {
    let mut d = header(2, 0, 0);
    d.extend_from_slice(b"\0\0\0");
    for text in [&b"first\0"[..], &b"second\0"[..]] {
        push16(&mut d, 3);
        push16(&mut d, 0);
        d.extend_from_slice(text);
    }
    let m = MSCE000::read(&d).ok().unwrap();
    assert_eq!(m.strings.0.len(), 1);
    assert_eq!(m.strings.0.get(&3).unwrap(), "second");
}

#[test]
fn extension_key_is_zero_padded() {
    assert_eq!(format_extension_key(7), "007");
    assert_eq!(format_extension_key(0), "000");
    assert_eq!(format_extension_key(42), "042");
    assert_eq!(format_extension_key(999), "999");
    assert_eq!(format_extension_key(1234), "1234");
    assert_eq!(format_extension_key(65535), "65535");
}

#[test]
fn file_path_joins_directory_and_name() {
    assert_eq!(push_path("App", "run.exe"), "App/run.exe");
    assert_eq!(push_path("", "run.exe"), "run.exe");
    assert_eq!(push_path("App/", "run.exe"), "App/run.exe");
    assert_eq!(push_path("App", "/abs"), "/abs");
    assert_eq!(push_path("%CE1%\\Tool", "t.dll"), "%CE1%\\Tool/t.dll");
}

#[test]
fn file_in_unknown_directory_keeps_its_name() {
    let mut d = header(0, 0, 2);
    d.extend_from_slice(b"\0\0\0");
    for (ext, name) in [(3u16, &b"a.txt\0"[..]), (3, &b"b.txt\0"[..])] {
        push16(&mut d, 1);
        push16(&mut d, 77);
        push16(&mut d, ext);
        d.extend_from_slice(&[0, 0, 0, 0]);
        push16(&mut d, 0);
        d.extend_from_slice(name);
    }
    let m = MSCE000::read(&d).ok().unwrap();
    assert_eq!(m.files[0].file_path, "a.txt");
    // the last file with an extension wins
    assert_eq!(m.file_mapping.get(&"003".to_string()), Some("b.txt".to_string()));
    assert_eq!(m.file_mapping.get(&"004".to_string()), None);
}

#[test]
fn redirect_map_from_files() {
    let dirs = DirectoryEntries(HashMap::new());
    assert!(dirs.0.is_empty());
    let map = RedirectMap { entries: vec![("001".to_string(), "x".to_string()), ("001".to_string(), "y".to_string())] };
    assert_eq!(map.get(&"001".to_string()), Some("y".to_string()));
    let s = WinNullString("t".to_string());
    assert_eq!(s.to_string(), "t");
}

#[test]
fn text_is_written_with_terminator() {
    assert_eq!(WinNullString("App".to_string()).write_options(), b"App\0".to_vec());
    assert_eq!(WinNullString("Caf\u{e9}".to_string()).write_options(), b"Caf\xe9\0".to_vec());
    assert_eq!(WinNullString(String::new()).write_options(), vec![0u8]);
}
