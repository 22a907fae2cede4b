use nt_ntdll::activation::{COMPATIBILITY_ELEMENT_TYPE_MAX_VERSION_TESTED, COMPATIBILITY_ELEMENT_TYPE_OS, DllRedirect, RUN_LEVEL_REQUIRE_ADMIN, RUN_LEVEL_UNSPECIFIED, STATUS_SXS_CANT_GEN_ACTCTX, STATUS_SXS_INVALID_ACTCTXDATA_FORMAT};
use nt_ntdll::activation_manifest::{encode_assembly_identity, parse_manifest, parse_manifest_details};

fn utf16_bytes(text: &str, big_endian: bool, bom: bool) -> Vec<u8> {
    let mut bytes = Vec::new();
    if bom {
        bytes.extend_from_slice(if big_endian {
            &[0xfe, 0xff]
        } else {
            &[0xff, 0xfe]
        });
    }
    for unit in text.encode_utf16() {
        let encoded = if big_endian {
            unit.to_be_bytes()
        } else {
            unit.to_le_bytes()
        };
        bytes.extend_from_slice(&encoded);
    }
    bytes
}

fn wide(value: &str) -> Vec<u16> {
    value.encode_utf16().collect()
}

#[test]
fn parses_direct_prefixed_file_elements() {
    let manifest = br#"<?xml version="1.0"?>
        <asm:assembly xmlns:asm="urn:schemas-microsoft-com:asm.v1" manifestVersion="1.0">
          <asm:file asm:name="first.dll" />
          <file name="second.dll" loadFrom="side\second.dll"></file>
          <file name="empty.dll" loadFrom="" />
        </asm:assembly>"#;
    let parsed = parse_manifest(manifest).unwrap();
    assert_eq!(
        parsed.dll_redirects,
        vec![
            DllRedirect {
                name: wide("first.dll"),
                load_from: None,
            },
            DllRedirect {
                name: wide("second.dll"),
                load_from: Some(wide("side\\second.dll")),
            },
            DllRedirect {
                name: wide("empty.dll"),
                load_from: Some(Vec::new()),
            },
        ]
    );
}

#[test]
fn detects_utf8_and_both_utf16_byte_orders() {
    let xml = "<assembly manifestVersion=\"1.0\"><file name=\"encoded.dll\"/></assembly>";
    let mut utf8_bom = vec![0xef, 0xbb, 0xbf];
    utf8_bom.extend_from_slice(xml.as_bytes());
    for bytes in [
        utf8_bom,
        utf16_bytes(xml, false, true),
        utf16_bytes(xml, true, true),
        utf16_bytes(xml, false, false),
        utf16_bytes(xml, true, false),
    ] {
        let parsed = parse_manifest(&bytes).unwrap();
        assert_eq!(parsed.dll_redirects[0].name, wide("encoded.dll"));
    }
}

#[test]
fn decodes_named_decimal_and_hex_entities() {
    let manifest = br#"<assembly manifestVersion="1.0">
        <file name="a&amp;b.dll" loadFrom="sub&#x2f;&#100;.dll"/>
        </assembly>"#;
    let parsed = parse_manifest(manifest).unwrap();
    assert_eq!(parsed.dll_redirects[0].name, wide("a&b.dll"));
    assert_eq!(parsed.dll_redirects[0].load_from, Some(wide("sub/d.dll")));
}

#[test]
fn retains_and_encodes_root_assembly_identity() {
    let manifest = br#"<assembly manifestVersion="1.0">
        <assemblyIdentity name="sample.app" processorArchitecture="amd64"
            publicKeyToken="001122aabbccddff" type="win32" version="6.1.2.345"/>
        </assembly>"#;
    let parsed = parse_manifest(manifest).unwrap();
    assert_eq!(parsed.assembly_identity.name, Some(wide("sample.app")));
    assert_eq!(parsed.assembly_identity.version, [6, 1, 2, 345]);
    assert_eq!(
        encode_assembly_identity(&parsed.assembly_identity).unwrap(),
        wide(
            "sample.app,processorArchitecture=\"amd64\",publicKeyToken=\"001122aabbccddff\",type=\"win32\",version=\"6.1.2.345\""
        )
    );
}

#[test]
fn rejects_duplicate_identity_and_invalid_versions() {
    for manifest in [
        br#"<assembly manifestVersion="1.0"><assemblyIdentity version="1.2.3.4.5"/></assembly>"#
            .as_slice(),
        br#"<assembly manifestVersion="1.0"><assemblyIdentity version="1.2.x.4"/></assembly>"#,
        br#"<assembly manifestVersion="1.0"><assemblyIdentity/><assemblyIdentity/></assembly>"#,
    ] {
        assert_eq!(
            parse_manifest(manifest),
            Err(STATUS_SXS_INVALID_ACTCTXDATA_FORMAT)
        );
    }
}

#[test]
fn zero_fills_omitted_identity_version_components() {
    let parsed = parse_manifest(
        br#"<assembly manifestVersion="1.0"><assemblyIdentity version="1.2.3"/></assembly>"#,
    )
    .unwrap();
    assert_eq!(parsed.assembly_identity.version, [1, 2, 3, 0]);
}

#[test]
fn parses_compatibility_and_requested_execution_level() {
    let manifest = br#"<assembly manifestVersion="1.0">
        <compatibility><application>
          <supportedOS Id="{35138b9a-5d96-4fbd-8e2d-a2440225f93a}"/>
          <supportedOS Id="not-a-guid"/>
          <maxversiontested Id="10.0.18358"/>
          <maxversiontested Id="2.3.4.5"/>
        </application></compatibility>
        <asmv3:trustInfo><asmv3:security><asmv3:requestedPrivileges>
          <asmv3:requestedExecutionLevel level="RequireAdministrator" uiAccess="TRUE"/>
        </asmv3:requestedPrivileges></asmv3:security></asmv3:trustInfo>
        </assembly>"#;
    let parsed = parse_manifest(manifest).unwrap();
    assert_eq!(parsed.compatibility.len(), 3);
    assert_eq!(parsed.compatibility[0].id.data1, 0x3513_8b9a);
    assert_eq!(parsed.compatibility[0].kind, COMPATIBILITY_ELEMENT_TYPE_OS);
    assert_eq!(
        parsed.compatibility[1].kind,
        COMPATIBILITY_ELEMENT_TYPE_MAX_VERSION_TESTED
    );
    assert_eq!(
        parsed.compatibility[1].max_version_tested,
        0x000a_0000_47b6_0000
    );
    assert_eq!(
        parsed.compatibility[2].max_version_tested,
        0x0002_0003_0004_0005
    );
    assert_eq!(parsed.run_level, RUN_LEVEL_REQUIRE_ADMIN);
    assert_eq!(parsed.ui_access, 1);
}

#[test]
fn ignores_compatibility_elements_outside_the_native_hierarchy() {
    let parsed = parse_manifest(
        br#"<assembly manifestVersion="1.0">
            <supportedOS Id="{35138b9a-5d96-4fbd-8e2d-a2440225f93a}"/>
            <requestedExecutionLevel level="asInvoker" uiAccess="true"/>
            </assembly>"#,
    )
    .unwrap();
    assert!(parsed.compatibility.is_empty());
    assert_eq!(parsed.run_level, RUN_LEVEL_UNSPECIFIED);
    assert_eq!(parsed.ui_access, 0);
}

#[test]
fn rejects_duplicate_recognized_requested_execution_levels() {
    let manifest = br#"<assembly manifestVersion="1.0">
        <trustInfo><security><requestedPrivileges>
          <requestedExecutionLevel level="asInvoker"/>
          <requestedExecutionLevel level="highestAvailable"/>
        </requestedPrivileges></security></trustInfo>
        </assembly>"#;
    assert_eq!(
        parse_manifest(manifest),
        Err(STATUS_SXS_INVALID_ACTCTXDATA_FORMAT)
    );
}

#[test]
fn rejects_invalid_max_version_tested() {
    let manifest = br#"<assembly manifestVersion="1.0">
        <compatibility><application><maxversiontested Id="10.x"/></application></compatibility>
        </assembly>"#;
    assert_eq!(
        parse_manifest(manifest),
        Err(STATUS_SXS_INVALID_ACTCTXDATA_FORMAT)
    );
}

#[test]
fn rejects_malformed_xml_and_invalid_roots() {
    for manifest in [
        br#"<assembly manifestVersion="1.0"><file name="x.dll"></assembly>"#.as_slice(),
        br#"<assembly manifestVersion="1.0"><file name="x&bogus;.dll"/></assembly>"#,
        br#"<notAssembly manifestVersion="1.0"/>"#,
        br#"<assembly><file name="x.dll"/></assembly>"#,
    ] {
        assert_eq!(
            parse_manifest(manifest),
            Err(STATUS_SXS_INVALID_ACTCTXDATA_FORMAT)
        );
    }
}

#[test]
fn rejects_dependency_manifests_as_unsupported() {
    let manifest = br#"<assembly manifestVersion="1.0">
        <dependency><dependentAssembly><assemblyIdentity name="shared"/></dependentAssembly></dependency>
        </assembly>"#;
    assert_eq!(parse_manifest(manifest), Err(STATUS_SXS_CANT_GEN_ACTCTX));
}

#[test]
fn details_list_what_a_manifest_depends_on() {
    let manifest = br#"<assembly manifestVersion="1.0">
      <assemblyIdentity name="root" version="1.2.3.4" language="en"/>
      <dependency optional="yes"><dependentAssembly>
        <assemblyIdentity name="first" version="1.0.0.0"/>
      </dependentAssembly></dependency>
      <dependency><dependentAssembly allowDelayedBinding="true">
        <assemblyIdentity name="second" language="*"/>
      </dependentAssembly></dependency>
    </assembly>"#;
    let details = parse_manifest_details(manifest).unwrap();
    assert_eq!(details.root.assembly_identity.version, [1, 2, 3, 4]);
    assert_eq!(details.root_language, Some(wide("en")));
    assert_eq!(details.dependencies.len(), 2);
    assert_eq!(details.dependencies[0].identity.name, Some(wide("first")));
    assert!(details.dependencies[0].optional && !details.dependencies[0].delayed);
    assert!(!details.dependencies[1].optional && details.dependencies[1].delayed);
    assert_eq!(details.dependencies[1].language, Some(wide("*")));
}

#[test]
fn encodings_of_one_text_are_read_alike() {
    for xml in [
        "<assembly manifestVersion=\"1.0\"><file name=\"\u{e9}\u{20ac}\u{1f600}.dll\"/></assembly>",
        "<assembly manifestVersion=\"1.0\"><file name=\"a\"></assembly>",
        "<",
    ] {
        let expected = parse_manifest(xml.as_bytes());
        let mut marked = vec![0xef, 0xbb, 0xbf];
        marked.extend_from_slice(xml.as_bytes());
        assert_eq!(parse_manifest(&marked), expected);
        for big_endian in [false, true] {
            for bom in [false, true] {
                assert_eq!(parse_manifest(&utf16_bytes(xml, big_endian, bom)), expected);
            }
        }
    }
    let text = "<assembly manifestVersion=\"1.0\"><file name=\"\u{1f600}.dll\"/></assembly>";
    let parsed = parse_manifest(text.as_bytes()).unwrap();
    assert_eq!(parsed.dll_redirects[0].name, wide("\u{1f600}.dll"));
}
