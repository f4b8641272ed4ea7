use cabtools::cabinet::{
    destination, expand_ce_variables, extension, find_000_manifest, list_files, CabMember,
    CompressionType,
};
use cabtools::msce_000::{RedirectMap, MSCE000};

fn member(name: &str, ts: Option<i64>, size: u32) -> CabMember {
    CabMember { name: name.to_string(), compression: CompressionType::MsZip, timestamp: ts, size }
}

fn push16(d: &mut Vec<u8>, v: u16) {
    d.push((v & 0xff) as u8);
    d.push((v >> 8) as u8);
}

fn app_manifest() -> Vec<u8> {
    let mut d = vec![0u8; 100];
    d[0..4].copy_from_slice(b"MSCE");
    d[48] = 1;
    d[50] = 1;
    d[52] = 1;
    d.extend_from_slice(b"App\0\0\0");
    push16(&mut d, 1);
    push16(&mut d, 4);
    d.extend_from_slice(b"App\0");
    push16(&mut d, 1);
    push16(&mut d, 2);
    push16(&mut d, 1);
    push16(&mut d, 1);
    push16(&mut d, 1);
    push16(&mut d, 1);
    d.extend_from_slice(&[0, 0, 0, 0]);
    push16(&mut d, 8);
    d.extend_from_slice(b"run.exe\0");
    d
}

#[test]
fn placeholders_are_expanded() {
    assert_eq!(expand_ce_variables("%CE2%\\Start"), "Windows\\Start");
    assert_eq!(expand_ce_variables("%CE1%\\App\\%CE1%"), "Program Files\\App\\Program Files");
    assert_eq!(expand_ce_variables("%CE10%/x"), "Program Files\\Office/x");
    assert_eq!(expand_ce_variables("%CE17%"), "Windows\\Favorites");
    assert_eq!(expand_ce_variables("%CE11%%CE5%"), "Windows\\ProgramsMy Documents");
}

#[test]
fn text_without_placeholders_is_unchanged() {
    for s in ["", "App/run.exe", "%CE%", "%CE18%", "CE2", "%ce2%"] {
        assert_eq!(expand_ce_variables(s), s);
        assert_eq!(expand_ce_variables(&expand_ce_variables(s)), s);
    }
}

#[test]
fn extensions_of_names() {
    assert_eq!(extension("RUN~1.001"), Some("001".to_string()));
    assert_eq!(extension("a.b.txt"), Some("txt".to_string()));
    assert_eq!(extension("dir.d/x.000"), Some("000".to_string()));
    assert_eq!(extension("noext"), None);
    assert_eq!(extension(".hidden"), None);
    assert_eq!(extension("dir.d/noext"), None);
    assert_eq!(extension(".."), None);
    assert_eq!(extension("trail."), Some("".to_string()));
}

#[test]
fn unmapped_extension_falls_back_to_name() {
    let map = RedirectMap { entries: vec![("001".to_string(), "App/run.exe".to_string())] };
    assert_eq!(destination(&map, &"DATA~1.002".to_string()), "DATA~1.002");
    assert_eq!(destination(&map, &"README".to_string()), "README");
    assert_eq!(destination(&map, &"X.000".to_string()), "manifest.bin");
    assert_eq!(destination(&map, &"X.999".to_string()), "setup.dll");
    assert_eq!(destination(&map, &"RUN~1.001".to_string()), "App/run.exe");
}

#[test]
fn manifest_member_is_found_first() {
    let ms = vec![member("a.001", None, 1), member("m.000", None, 2), member("n.000", None, 3)];
    assert_eq!(find_000_manifest(&ms), Some(1));
    let none = vec![member("a.001", None, 1), member("noext", None, 1)];
    assert_eq!(find_000_manifest(&none), None);
}

#[test]
fn end_to_end_plan() {
    let m = MSCE000::read(&app_manifest()).ok().unwrap();
    let members = vec![
        member("APP~1.000", Some(10), 300),
        member("RUN~1.001", Some(20), 4000),
        member("SETUP~1.999", None, 500),
    ];
    let plan = list_files(&members, &m.file_mapping, 99);
    assert_eq!(plan.len(), 2);
    assert_eq!(plan[0].cab_filename, "RUN~1.001");
    assert_eq!(plan[0].destination, "App/run.exe");
    assert_eq!(plan[0].file_time, 20);
    assert_eq!(plan[0].file_size, 4000);
    assert_eq!(plan[0].compression, CompressionType::MsZip);
    assert_eq!(plan[1].cab_filename, "SETUP~1.999");
    assert_eq!(plan[1].destination, "setup.dll");
    assert_eq!(plan[1].file_time, 99);
}

#[test]
fn plan_without_manifest_keeps_all() {
    let map = RedirectMap { entries: vec![] };
    let members = vec![member("a.005", Some(1), 1), member("b", None, 2)];
    let plan = list_files(&members, &map, 7);
    assert_eq!(plan.len(), 2);
    assert_eq!(plan[0].destination, "a.005");
    assert_eq!(plan[1].destination, "b");
    assert_eq!(plan[1].file_time, 7);
}

#[test]
fn second_manifest_member_is_planned() {
    let map = RedirectMap { entries: vec![] };
    let members = vec![member("m.000", None, 1), member("other.000", None, 2)];
    let plan = list_files(&members, &map, 0);
    assert_eq!(plan.len(), 1);
    assert_eq!(plan[0].destination, "manifest.bin");
}
