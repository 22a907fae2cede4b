use nt_ntdll::environment::{is_absolute, CurrentDirectory, Environment, canonicalize, denormalize_flags, full_path_units, is_normalized, normalize_flags};

#[test]
fn env_set_query_delete() {
    let mut e = Environment::new();
    e.set("SystemRoot", Some("C:\\Windows"));
    e.set("Path", Some("C:\\Windows\\System32"));
    assert_eq!(e.query("systemroot"), Some("C:\\Windows")); // case-insensitive
    e.set("Path", Some("C:\\Windows")); // overwrite
    assert_eq!(e.query("Path"), Some("C:\\Windows"));
    e.set("Path", None); // delete
    assert_eq!(e.query("Path"), None);
}

#[test]
fn env_block_roundtrip() {
    let mut e = Environment::new();
    e.set("A", Some("1"));
    e.set("B", Some("22"));
    let block = e.to_block();
    // Terminating double-NUL present.
    assert_eq!(block.last(), Some(&0));
    let e2 = Environment::from_block(&block);
    assert_eq!(e2.query("A"), Some("1"));
    assert_eq!(e2.query("B"), Some("22"));
}

#[test]
fn from_block_keeps_last_var_when_slice_includes_terminating_nul() {
    // The on-target `read_env_block` measures to the double-NUL and must INCLUDE the first NUL of
    // the double-NUL so `from_block` emits the LAST variable (it only emits on a NUL). This test
    // pins that: a block `SystemRoot=C:\Windows\0Path=C:\WinSys\0\0` sliced to include the first
    // terminating NUL (index of the second-to-last unit) must yield BOTH vars.
    let mut e = Environment::new();
    e.set("SystemRoot", Some("C:\\Windows"));
    e.set("Path", Some("C:\\WinSys"));
    let block = e.to_block(); // ...Path=C:\WinSys\0\0
    // Emulate read_env_block's slice: up to AND INCLUDING the first NUL of the double-NUL
    // (block.len()-1 drops only the final lone NUL, keeping the last var's own NUL).
    let sliced = &block[..block.len() - 1];
    let e2 = Environment::from_block(sliced);
    assert_eq!(e2.vars_len(), 2, "last variable must not be dropped");
    assert_eq!(e2.query("SystemRoot"), Some("C:\\Windows"));
    assert_eq!(e2.query("Path"), Some("C:\\WinSys"));
    // And the buggy slice (dropping the last var's NUL too) drops Path — the regression guard.
    let over_trimmed = &block[..block.len() - 2 - "C:\\WinSys".len() - 1];
    let e3 = Environment::from_block(over_trimmed);
    assert!(e3.query("Path").is_none());
}

#[test]
fn expand_strings() {
    let mut e = Environment::new();
    e.set("SystemRoot", Some("C:\\Windows"));
    assert_eq!(e.expand("%SystemRoot%\\System32"), "C:\\Windows\\System32");
    // Unknown var left literal.
    assert_eq!(e.expand("%Nope%\\x"), "%Nope%\\x");
    assert_eq!(e.expand("no vars"), "no vars");
}

#[test]
fn current_directory() {
    let mut cd = CurrentDirectory::default();
    cd.set("C:\\Windows\\System32");
    assert_eq!(cd.get(), "C:\\Windows\\System32\\");
}

#[test]
fn full_path_resolution() {
    let mut cd = CurrentDirectory::default();
    cd.set("C:\\Windows\\System32");
    // Relative.
    assert_eq!(cd.full_path("ntdll.dll"), "C:\\Windows\\System32\\ntdll.dll");
    // Absolute passes through (canonicalized).
    assert_eq!(cd.full_path("D:\\a\\b"), "D:\\a\\b");
    // Rooted driveless takes the cwd drive.
    assert_eq!(cd.full_path("\\temp\\x"), "C:\\temp\\x");
    // .. collapses.
    assert_eq!(cd.full_path("..\\drivers"), "C:\\Windows\\drivers");
}

#[test]
fn full_path_units_resolution() {
    let u = |s: &str| -> Vec<u16> { s.encode_utf16().collect() };
    let s = |v: &[u16]| -> String { String::from_utf16(v).unwrap() };
    // winlogon → services.exe: relative name resolved against C:\Windows.
    assert_eq!(s(&full_path_units(&u("services.exe"), &u("C:\\Windows"))), "C:\\Windows\\services.exe");
    // Absolute passes through.
    assert_eq!(s(&full_path_units(&u("D:\\x\\y.exe"), &u("C:\\Windows"))), "D:\\x\\y.exe");
    // Rooted driveless takes the cwd drive.
    assert_eq!(s(&full_path_units(&u("\\dir\\f"), &u("C:\\Windows"))), "C:\\dir\\f");
    // Forward slashes normalise to backslashes.
    assert_eq!(s(&full_path_units(&u("sub/f.exe"), &u("C:\\Windows"))), "C:\\Windows\\sub\\f.exe");
}

#[test]
fn canonicalize_paths() {
    assert_eq!(canonicalize("C:\\a\\.\\b\\..\\c"), "C:\\a\\c");
    assert_eq!(canonicalize("C:\\a\\b\\..\\.."), "C:\\");
    assert_eq!(canonicalize("\\\\server\\share\\a\\..\\b"), "\\\\server\\share\\b");
}

#[test]
fn normalize_flags_roundtrip() {
    let f = normalize_flags(0);
    assert!(is_normalized(f));
    assert!(!is_normalized(denormalize_flags(f)));
}

#[test]
fn lines_without_a_name_are_skipped() {
    let block: Vec<u16> = "=C:=C:\\\0plain\0A=b=c\0\0B=2\0".encode_utf16().collect();
    let e = Environment::from_block(&block);
    assert_eq!(e.vars_len(), 1);
    assert_eq!(e.first_name(), Some("A"));
    assert_eq!(e.query("a"), Some("b=c"));
    assert_eq!(Environment::new().first_name(), None);
    assert_eq!(Environment::default().to_block(), [0]);
}

#[test]
fn characters_beyond_sixteen_bits_come_back_from_a_block() {
    let mut e = Environment::new();
    e.set("\u{1F600}", Some("x\u{10FFFF}"));
    e.set("b", Some(""));
    assert_eq!(Environment::from_block(&e.to_block()), e);
    let broken = Environment::from_block(&[b'N' as u16, b'=' as u16, 0xD800, 0]);
    assert_eq!(broken.query("N"), Some("\u{FFFD}"));
}

#[test]
fn setting_a_variable_keeps_its_place_and_the_others() {
    let mut e = Environment::new();
    e.set("One", Some("1"));
    e.set("Two", Some("2"));
    e.set("ONE", Some("uno"));
    assert_eq!(e.first_name(), Some("One"));
    assert_eq!(e.query("one"), Some("uno"));
    assert_eq!(e.query("two"), Some("2"));
    e.set("one", None);
    assert_eq!(e.query("One"), None);
    assert_eq!(e.query("Two"), Some("2"));
    e.set("absent", None);
    assert_eq!(e.vars_len(), 1);
}

#[test]
fn percent_signs_without_a_partner_stay() {
    let mut e = Environment::new();
    e.set("a", Some("1"));
    assert_eq!(e.expand("%A%%a%"), "11");
    assert_eq!(e.expand("100% %a"), "100% %a");
    assert_eq!(e.expand("%%"), "%%");
    assert_eq!(e.expand("50%%a%"), "50%%a%");
}

#[test]
fn directories_and_names_combine() {
    let mut cd = CurrentDirectory::default();
    assert_eq!(cd.get(), "\\");
    cd.set("C:\\Dir\\\\");
    assert_eq!(cd.get(), "C:\\Dir\\");
    assert_eq!(cd.full_path("a/b"), "C:\\Dir\\a/b");
    assert_eq!(cd.full_path("..\\..\\.."), "C:\\");
    assert_eq!(cd.full_path("\\\\server\\share"), "\\\\server\\share");
    cd.set("\u{e9}");
    assert_eq!(cd.full_path("\\x"), "\u{e9}\\x");
    cd.set("\u{20ac}");
    assert_eq!(cd.full_path("\\x"), "C:\\x");
    assert!(is_absolute("C:/x"));
    assert!(!is_absolute("C:x"));
    assert!(!is_absolute("\\x"));
    assert_eq!(canonicalize("C:foo\\..\\bar"), "C:fbar");
    assert_eq!(canonicalize("..\\a\\.\\\\b"), "a\\b");
}

#[test]
fn slashes_separate_the_parts_of_full_paths() {
    let full = |name: &str, cwd: &str| -> String {
        let name: Vec<u16> = name.encode_utf16().collect();
        let cwd: Vec<u16> = cwd.encode_utf16().collect();
        String::from_utf16(&full_path_units(&name, &cwd)).unwrap()
    };
    assert_eq!(full("sub/../f.exe", "C:\\Windows"), "C:\\Windows\\f.exe");
    assert_eq!(full("./a/./b", "C:/Windows/"), "C:\\Windows\\a\\b");
    assert_eq!(full("..", "C:/Windows/System32"), "C:\\Windows");
    assert_eq!(full("D:/x/../y", "C:\\Windows"), "D:\\y");
    assert_eq!(full("/dir/f", "C:\\Windows"), "C:\\dir\\f");
    assert_eq!(full("//server/share/a/../b", "C:\\Windows"), "\\\\server\\share\\b");
}
