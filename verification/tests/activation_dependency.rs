use nt_ntdll::activation::{STATUS_SXS_CANT_GEN_ACTCTX, STATUS_SXS_INVALID_ACTCTXDATA_FORMAT};
use nt_ntdll::activation_dependency::{ActivationResolution, assembly_request_matches, ActivationManifestCatalog, ActivationManifestSource, ActivationResolverLimits, AssemblyRequest, WinsxsManifestCandidateRank, private_assembly_directory_name, rank_winsxs_manifest_candidate, resolve_activation_dependencies, winsxs_manifest_pattern};
use nt_ntdll::activation_manifest::{AssemblyIdentity};
use nt_ntdll::strings::{equal_unicode_string};

fn wide(value: &str) -> Vec<u16> {
    value.encode_utf16().collect()
}

fn source(name: &str, manifest: &[u8]) -> ActivationManifestSource {
    ActivationManifestSource {
        source: wide(name),
        manifest_path: wide(&std::format!("{name}.manifest")),
        assembly_directory: wide(name),
        manifest: manifest.to_vec(),
        shared: true,
    }
}

fn private_source(name: &str, manifest: &[u8]) -> ActivationManifestSource {
    let mut source = source(name, manifest);
    source.shared = false;
    source
}

struct MockCatalog {
    entries: Vec<(Vec<u16>, ActivationManifestSource)>,
    requests: Vec<AssemblyRequest>,
}

impl MockCatalog {
    fn new(entries: Vec<(Vec<u16>, ActivationManifestSource)>) -> Self {
        Self {
            entries,
            requests: Vec::new(),
        }
    }
}

impl ActivationManifestCatalog for MockCatalog {
    fn resolve(
        &mut self,
        request: &AssemblyRequest,
    ) -> Result<Option<ActivationManifestSource>, u32> {
        self.requests.push(request.clone());
        let requested_name = request.identity.name.as_deref();
        let position = self.entries.iter().position(|(name, _)| {
            requested_name.is_some_and(|requested| equal_unicode_string(name, requested, true))
        });
        Ok(position.map(|position| self.entries.remove(position).1))
    }
}

const ROOT_WITH_DEP: &[u8] = br#"<assembly manifestVersion="1.0">
  <assemblyIdentity name="root" version="1.0.0.0"/>
  <dependency><dependentAssembly>
    <assemblyIdentity name="dep" version="1.0.0.0"/>
  </dependentAssembly></dependency>
</assembly>"#;
const DEP: &[u8] = br#"<assembly manifestVersion="1.0">
  <assemblyIdentity name="dep" version="1.0.0.0"/>
  <file name="dep.dll"/>
</assembly>"#;
#[test]
fn resolves_root_and_dependency_in_roster_order() {
    let mut catalog = MockCatalog::new(vec![(wide("dep"), source("dep", DEP))]);
    let resolved = resolve_activation_dependencies(
        source("root.exe", ROOT_WITH_DEP),
        None,
        ActivationResolverLimits::default(),
        &mut catalog,
    )
    .unwrap();

    assert_eq!(resolved.assemblies.len(), 2);
    assert_eq!(resolved.assemblies[0].roster_index, 1);
    assert_eq!(resolved.assemblies[1].roster_index, 2);
    assert_eq!(
        resolved.assemblies[1].details.root.assembly_identity.name,
        Some(wide("dep"))
    );
    assert_eq!(
        resolved.assemblies[1].details.root.dll_redirects[0].name,
        wide("dep.dll")
    );
    assert_eq!(resolved.assemblies[1].source.manifest.as_slice(), DEP);
    assert_eq!(resolved.manifest_bytes, ROOT_WITH_DEP.len() + DEP.len());
}

#[test]
fn mandatory_missing_fails_but_optional_or_delayed_missing_is_skipped() {
    let mandatory = source("root", ROOT_WITH_DEP);
    let mut empty = MockCatalog::new(vec![]);
    assert_eq!(
        resolve_activation_dependencies(
            mandatory,
            None,
            ActivationResolverLimits::default(),
            &mut empty
        ),
        Err(STATUS_SXS_CANT_GEN_ACTCTX)
    );

    for manifest in [
        br#"<assembly manifestVersion="1.0"><assemblyIdentity name="root"/>
          <dependency optional="yes"><dependentAssembly><assemblyIdentity name="missing"/>
          </dependentAssembly></dependency></assembly>"#
            .as_slice(),
        br#"<assembly manifestVersion="1.0"><assemblyIdentity name="root"/>
          <dependency><dependentAssembly allowDelayedBinding="true">
          <assemblyIdentity name="missing"/></dependentAssembly></dependency></assembly>"#,
    ] {
        let mut empty = MockCatalog::new(vec![]);
        let resolved = resolve_activation_dependencies(
            source("root", manifest),
            None,
            ActivationResolverLimits::default(),
            &mut empty,
        )
        .unwrap();
        assert_eq!(resolved.assemblies.len(), 1);
    }
}

#[test]
fn resolves_diamonds_breadth_first_and_deduplicates_cycles() {
    let root = br#"<assembly manifestVersion="1.0"><assemblyIdentity name="A"/>
      <dependency><dependentAssembly><assemblyIdentity name="B"/></dependentAssembly></dependency>
      <dependency><dependentAssembly><assemblyIdentity name="C"/></dependentAssembly></dependency>
    </assembly>"#;
    let b = br#"<assembly manifestVersion="1.0"><assemblyIdentity name="B"/>
      <dependency><dependentAssembly><assemblyIdentity name="D"/></dependentAssembly></dependency>
    </assembly>"#;
    let c = br#"<assembly manifestVersion="1.0"><assemblyIdentity name="C"/>
      <dependency><dependentAssembly><assemblyIdentity name="D"/></dependentAssembly></dependency>
    </assembly>"#;
    let d = br#"<assembly manifestVersion="1.0"><assemblyIdentity name="D"/>
      <dependency><dependentAssembly><assemblyIdentity name="A"/></dependentAssembly></dependency>
    </assembly>"#;
    let mut catalog = MockCatalog::new(vec![
        (wide("B"), source("B", b)),
        (wide("C"), source("C", c)),
        (wide("D"), source("D", d)),
    ]);

    let resolved = resolve_activation_dependencies(
        source("A", root),
        None,
        ActivationResolverLimits::default(),
        &mut catalog,
    )
    .unwrap();

    let names: Vec<Vec<u16>> = resolved
        .assemblies
        .iter()
        .map(|assembly| {
            assembly
                .details
                .root
                .assembly_identity
                .name
                .clone()
                .unwrap()
        })
        .collect();
    assert_eq!(names, vec![wide("A"), wide("B"), wide("C"), wide("D")]);
    let requests: Vec<Vec<u16>> = catalog
        .requests
        .iter()
        .map(|request| request.identity.name.clone().unwrap())
        .collect();
    assert_eq!(requests, vec![wide("B"), wide("C"), wide("D")]);
}

#[test]
fn normalizes_architecture_and_matches_identity_and_language_case_insensitively() {
    let root = br#"<assembly manifestVersion="1.0"><assemblyIdentity name="root"/>
      <dependency><dependentAssembly><assemblyIdentity name="ShArEd" type="WIN32"
        version="6.0.1.2" processorArchitecture="*" publicKeyToken="ABC"
        language="*"/></dependentAssembly></dependency>
    </assembly>"#;
    let dependency = br#"<assembly manifestVersion="1.0">
      <assemblyIdentity name="shared" type="not-part-of-identity" version="6.0.1.2"
        processorArchitecture="AMD64" publicKeyToken="abc" language="en-US"/>
    </assembly>"#;
    let mut catalog = MockCatalog::new(vec![(wide("shared"), source("shared", dependency))]);

    let resolved = resolve_activation_dependencies(
        source("root", root),
        Some(&wide("amd64")),
        ActivationResolverLimits::default(),
        &mut catalog,
    )
    .unwrap();

    assert_eq!(resolved.assemblies.len(), 2);
    assert_eq!(
        catalog.requests[0].identity.processor_architecture,
        Some(wide("amd64"))
    );
}

#[test]
fn enforces_assembly_queue_depth_and_byte_budgets() {
    let cases = [
        ActivationResolverLimits {
            max_assemblies: 1,
            ..ActivationResolverLimits::default()
        },
        ActivationResolverLimits {
            max_manifest_bytes: ROOT_WITH_DEP.len() + DEP.len() - 1,
            ..ActivationResolverLimits::default()
        },
    ];
    for limits in cases {
        let mut catalog = MockCatalog::new(vec![(wide("dep"), source("dep", DEP))]);
        assert_eq!(
            resolve_activation_dependencies(
                source("root", ROOT_WITH_DEP),
                None,
                limits,
                &mut catalog
            ),
            Err(STATUS_SXS_CANT_GEN_ACTCTX)
        );
    }

    let two_dependencies = br#"<assembly manifestVersion="1.0">
      <assemblyIdentity name="root"/>
      <dependency><dependentAssembly><assemblyIdentity name="one"/></dependentAssembly></dependency>
      <dependency><dependentAssembly><assemblyIdentity name="two"/></dependentAssembly></dependency>
    </assembly>"#;
    let mut catalog = MockCatalog::new(vec![]);
    assert_eq!(
        resolve_activation_dependencies(
            source("root", two_dependencies),
            None,
            ActivationResolverLimits {
                max_dependency_requests: 1,
                ..ActivationResolverLimits::default()
            },
            &mut catalog
        ),
        Err(STATUS_SXS_CANT_GEN_ACTCTX)
    );

    let child_with_dependency = br#"<assembly manifestVersion="1.0">
      <assemblyIdentity name="dep" version="1.0.0.0"/>
      <dependency><dependentAssembly><assemblyIdentity name="grandchild"/>
      </dependentAssembly></dependency>
    </assembly>"#;
    let mut catalog =
        MockCatalog::new(vec![(wide("dep"), source("dep", child_with_dependency))]);
    assert_eq!(
        resolve_activation_dependencies(
            source("root", ROOT_WITH_DEP),
            None,
            ActivationResolverLimits {
                max_depth: 1,
                ..ActivationResolverLimits::default()
            },
            &mut catalog
        ),
        Err(STATUS_SXS_CANT_GEN_ACTCTX)
    );
}

#[test]
fn accepts_newer_build_revision_and_rejects_older_candidates() {
    let request = br#"<assembly manifestVersion="1.0"><assemblyIdentity name="root"/>
      <dependency><dependentAssembly><assemblyIdentity name="dep" version="6.0.2.4"/>
      </dependentAssembly></dependency></assembly>"#;
    let newer = br#"<assembly manifestVersion="1.0">
      <assemblyIdentity name="dep" version="6.0.3.0"/>
    </assembly>"#;
    let mut catalog = MockCatalog::new(vec![(wide("dep"), source("dep", newer))]);
    let resolved = resolve_activation_dependencies(
        source("root", request),
        None,
        ActivationResolverLimits::default(),
        &mut catalog,
    )
    .unwrap();
    assert_eq!(
        resolved.assemblies[1]
            .details
            .root
            .assembly_identity
            .version,
        [6, 0, 3, 0]
    );

    let mut catalog = MockCatalog::new(vec![(wide("dep"), private_source("dep", newer))]);
    assert_eq!(
        resolve_activation_dependencies(
            source("root", request),
            None,
            ActivationResolverLimits::default(),
            &mut catalog
        ),
        Err(STATUS_SXS_CANT_GEN_ACTCTX)
    );

    let older = br#"<assembly manifestVersion="1.0">
      <assemblyIdentity name="dep" version="6.0.2.3"/>
    </assembly>"#;
    let mut catalog = MockCatalog::new(vec![(wide("dep"), source("dep", older))]);
    assert_eq!(
        resolve_activation_dependencies(
            source("root", request),
            None,
            ActivationResolverLimits::default(),
            &mut catalog
        ),
        Err(STATUS_SXS_CANT_GEN_ACTCTX)
    );
}

#[test]
fn optional_invalid_or_mismatched_candidates_are_skipped() {
    let root = br#"<assembly manifestVersion="1.0"><assemblyIdentity name="root"/>
      <dependency optional="yes"><dependentAssembly><assemblyIdentity name="bad"/>
      </dependentAssembly></dependency>
      <dependency><dependentAssembly allowDelayedBinding="true">
      <assemblyIdentity name="wrong"/></dependentAssembly></dependency></assembly>"#;
    let wrong =
        br#"<assembly manifestVersion="1.0"><assemblyIdentity name="other"/></assembly>"#;
    let mut catalog = MockCatalog::new(vec![
        (wide("bad"), source("bad", b"not xml")),
        (wide("wrong"), source("wrong", wrong)),
    ]);
    let resolved = resolve_activation_dependencies(
        source("root", root),
        None,
        ActivationResolverLimits::default(),
        &mut catalog,
    )
    .unwrap();
    assert_eq!(resolved.assemblies.len(), 1);
}

#[test]
fn rejects_corrupt_or_mismatched_catalog_results() {
    let mut corrupt = MockCatalog::new(vec![(
        wide("dep"),
        source("dep", b"<assembly manifestVersion=\"1.0\">"),
    )]);
    assert_eq!(
        resolve_activation_dependencies(
            source("root", ROOT_WITH_DEP),
            None,
            ActivationResolverLimits::default(),
            &mut corrupt
        ),
        Err(STATUS_SXS_INVALID_ACTCTXDATA_FORMAT)
    );

    let wrong_identity = br#"<assembly manifestVersion="1.0">
      <assemblyIdentity name="other" version="1.0.0.0"/>
    </assembly>"#;
    let mut mismatched = MockCatalog::new(vec![(wide("dep"), source("other", wrong_identity))]);
    assert_eq!(
        resolve_activation_dependencies(
            source("root", ROOT_WITH_DEP),
            None,
            ActivationResolverLimits::default(),
            &mut mismatched
        ),
        Err(STATUS_SXS_CANT_GEN_ACTCTX)
    );
}

#[test]
fn builds_and_ranks_winsxs_manifest_candidates() {
    let request = AssemblyRequest {
        identity: AssemblyIdentity {
            name: Some(wide("microsoft.windows.common-controls")),
            processor_architecture: Some(wide("amd64")),
            public_key_token: Some(wide("6595b64144ccf1df")),
            version: [6, 0, 0, 0],
            ..AssemblyIdentity::default()
        },
        language: Some(wide("neutral")),
    };
    assert_eq!(
        winsxs_manifest_pattern(&request).unwrap().unwrap(),
        wide("amd64_microsoft.windows.common-controls_6595b64144ccf1df_6.0.*.*_*_*.manifest")
    );
    assert_eq!(
        private_assembly_directory_name(&request).unwrap(),
        wide(
            "amd64_microsoft.windows.common-controls_6595b64144ccf1df_6.0.0.0_neutral_deadbeef"
        )
    );
    let builtin = rank_winsxs_manifest_candidate(
        &request,
        &wide(
            "amd64_microsoft.windows.common-controls_6595b64144ccf1df_6.0.2600.2982_none_deadbeef.manifest",
        ),
    )
    .unwrap()
    .unwrap();
    let native = rank_winsxs_manifest_candidate(
        &request,
        &wide(
            "amd64_microsoft.windows.common-controls_6595b64144ccf1df_6.0.3000.1_en-us_native.manifest",
        ),
    )
    .unwrap()
    .unwrap();
    assert_eq!(
        builtin,
        WinsxsManifestCandidateRank {
            non_builtin: false,
            build: 2600,
            revision: 2982,
        }
    );
    assert!(native > builtin);

    let mut localized = request.clone();
    localized.language = Some(wide("en-us"));
    assert_eq!(
        rank_winsxs_manifest_candidate(
            &localized,
            &wide(
                "amd64_microsoft.windows.common-controls_6595b64144ccf1df_6.0.3000.1_fr-fr_native.manifest",
            ),
        )
        .unwrap(),
        None
    );

    let mut newer_request = request;
    newer_request.identity.version = [6, 0, 2601, 0];
    assert_eq!(
        rank_winsxs_manifest_candidate(
            &newer_request,
            &wide(
                "amd64_microsoft.windows.common-controls_6595b64144ccf1df_6.0.2600.2982_none_deadbeef.manifest",
            ),
        )
        .unwrap(),
        None
    );
}

#[test]
fn a_resolution_can_be_driven_step_by_step() {
    let mut resolution = ActivationResolution::begin(
        source("root.exe", ROOT_WITH_DEP),
        None,
        ActivationResolverLimits::default(),
    )
    .unwrap();
    let request = resolution.pending().unwrap().clone();
    assert_eq!(request.identity.name, Some(wide("dep")));
    assert!(assembly_request_matches(&request, &request.identity, None));
    let mut other = request.identity.clone();
    other.name = Some(wide("other"));
    assert!(!assembly_request_matches(&request, &other, None));
    assert_eq!(resolution.accept(Ok(Some(source("dep", DEP)))), Ok(()));
    assert!(resolution.pending().is_none());
    assert_eq!(resolution.finish().assemblies.len(), 2);

    let mut failing = ActivationResolution::begin(
        source("root.exe", ROOT_WITH_DEP),
        None,
        ActivationResolverLimits::default(),
    )
    .unwrap();
    assert_eq!(failing.accept(Err(0xC000_0001)), Err(0xC000_0001));
}
