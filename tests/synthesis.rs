use cargo2buck2::names::{version_string, DepEdge, Version};
use cargo2buck2::rules::{InternalRule, Srcs};
use cargo2buck2::store::{BuckFile, PackageKey, RuleError};
use cargo2buck2::text::{str_less, str_same};
use cargo2buck2::synth::{
    buckify_workspace, classify, Category, CrateKind, Package, SynthError, Unit, UnitKind,
};

fn ver(major: u64, minor: u64, patch: u64) -> Version {
    Version { major, minor, patch, pre: String::new(), build: String::new() }
}

fn unit(kind: UnitKind, name: &str, path: &str) -> Unit {
    Unit {
        kind,
        name: name.to_string(),
        edition: "2021".to_string(),
        src_path: path.to_string(),
    }
}

fn local_pkg(name: &str, units: Vec<Unit>) -> Package {
    Package {
        name: name.to_string(),
        version: ver(0, 1, 0),
        checksum: None,
        has_custom_build: false,
        is_local: true,
        units,
        deps: vec![],
        features: vec![],
    }
}

fn emit(pkgs: &Vec<Package>) -> Vec<InternalRule> {
    buckify_workspace(pkgs).ok().unwrap().into_rules().ok().unwrap()
}

fn names(rules: &Vec<InternalRule>) -> Vec<String> {
    rules.iter().map(|r| r.name_text().to_string()).collect()
}

fn same_rules(a: &Vec<InternalRule>, b: &Vec<InternalRule>) -> bool {
    a.len() == b.len() && a.iter().zip(b.iter()).all(|(x, y)| x.same(y))
}

#[test]
fn scenario_a_leaf_binary() {
    let pkg = local_pkg("leaf", vec![unit(UnitKind::Bin, "main", "src/main.rs")]);
    let rules = emit(&vec![pkg]);
    assert_eq!(rules.len(), 1);
    match &rules[0] {
        InternalRule::RustBinary(b) => {
            assert_eq!(b.name, "main");
            assert_eq!(b.edition, "2021");
            assert_eq!(b.crate_root, "src/main.rs");
            assert_eq!(b.crate_name, "leaf");
            match &b.srcs {
                Srcs::Glob(g) => assert_eq!(g.0, vec!["src/*.rs".to_string()]),
                Srcs::Plain(_) => panic!("expected a glob"),
            }
            assert!(b.deps.is_empty());
            assert!(b.named_deps.is_none());
            assert_eq!(b.visibility, vec!["PUBLIC".to_string()]);
            assert_eq!(
                b.env,
                vec![
                    ("CARGO_PKG_NAME".to_string(), "leaf".to_string()),
                    ("CARGO_PKG_VERSION".to_string(), "0.1.0".to_string()),
                    ("CARGO_PKG_VERSION_PATCH".to_string(), "0".to_string()),
                ]
            );
        }
        _ => panic!("expected a rust_binary"),
    }
}

fn serde_pkg() -> Package {
    Package {
        name: "serde".to_string(),
        version: ver(1, 0, 0),
        checksum: Some("abc123".to_string()),
        has_custom_build: false,
        is_local: false,
        units: vec![unit(UnitKind::Lib(vec![CrateKind::Lib]), "serde", "src/lib.rs")],
        deps: vec![],
        features: vec!["std".to_string(), "derive".to_string()],
    }
}

#[test]
fn scenario_b_registry_library() {
    let rules = emit(&vec![serde_pkg()]);
    assert_eq!(rules.len(), 2);
    match &rules[0] {
        InternalRule::HttpArchive(a) => {
            assert_eq!(a.name, "serde-1.0.0.crate");
            assert_eq!(a.sha256, "abc123");
            assert_eq!(a.strip_prefix, "serde-1.0.0");
            assert_eq!(
                a.urls,
                vec!["https://static.crates.io/crates/serde/1.0.0/download".to_string()]
            );
        }
        _ => panic!("expected an http_archive first"),
    }
    match &rules[1] {
        InternalRule::RustLibrary(l) => {
            assert_eq!(l.name, "serde-1.0.0");
            assert_eq!(l.srcs, vec![":serde-1.0.0.crate".to_string()]);
            assert_eq!(l.crate_root, "serde-1.0.0.crate/src/lib.rs");
            assert_eq!(l.crate_name, "serde");
            assert!(!l.proc_macro);
            assert!(l.rustc_flags.is_none());
            assert_eq!(l.features, vec!["derive".to_string(), "std".to_string()]);
        }
        _ => panic!("expected a rust_library"),
    }
}

#[test]
fn scenario_c_local_build_script() {
    let mut pkg = local_pkg(
        "bs",
        vec![
            unit(UnitKind::Lib(vec![CrateKind::Lib]), "bs", "src/lib.rs"),
            unit(UnitKind::CustomBuild, "build-script-build", "build.rs"),
        ],
    );
    pkg.has_custom_build = true;
    let rules = emit(&vec![pkg]);
    assert_eq!(
        names(&rules),
        vec![
            "".to_string(),
            "bs-0.1.0-build-script-build".to_string(),
            "bs-0.1.0".to_string(),
            "bs-0.1.0-build-script-run".to_string(),
        ]
    );
    match &rules[0] {
        InternalRule::Load(l) => {
            assert_eq!(l.0, "@prelude//rust:cargo_buildscript.bzl");
            assert_eq!(l.1, "buildscript_run");
        }
        _ => panic!("expected the load directive first"),
    }
    match &rules[1] {
        InternalRule::RustBinary(b) => {
            assert_eq!(b.crate_name, "build_script_build");
            assert_eq!(b.crate_root, "build.rs");
            match &b.srcs {
                Srcs::Plain(v) => assert_eq!(v, &vec!["build.rs".to_string()]),
                Srcs::Glob(_) => panic!("expected a plain list"),
            }
        }
        _ => panic!("expected a rust_binary"),
    }
    match &rules[2] {
        InternalRule::RustLibrary(l) => {
            let out_dir = l.env.iter().find(|(k, _)| k == "OUT_DIR").map(|(_, v)| v.clone());
            assert_eq!(out_dir, Some(":bs-0.1.0-build-script-run[out_dir]".to_string()));
            assert_eq!(
                l.rustc_flags,
                Some(vec!["@$(location :bs-0.1.0-build-script-run[rustc_flags])".to_string()])
            );
            assert_eq!(l.srcs, vec!["src/lib.rs".to_string()]);
        }
        _ => panic!("expected a rust_library"),
    }
    match &rules[3] {
        InternalRule::BuildScriptRun(r) => {
            assert_eq!(r.buildscript_rule, ":bs-0.1.0-build-script-build");
            assert_eq!(r.package_name, "bs");
            assert_eq!(r.version, "0.1.0");
        }
        _ => panic!("expected a buildscript_run"),
    }
}

#[test]
fn scenario_d_aliased_dependency() {
    let mut pkg = local_pkg("app", vec![unit(UnitKind::Bin, "app", "src/main.rs")]);
    pkg.deps = vec![
        DepEdge { name: "bar".to_string(), version: ver(1, 0, 0), alias: Some("foo".to_string()) },
        DepEdge { name: "baz".to_string(), version: ver(2, 3, 4), alias: None },
    ];
    let rules = emit(&vec![pkg]);
    match &rules[0] {
        InternalRule::RustBinary(b) => {
            assert_eq!(
                b.named_deps,
                Some(vec![("foo".to_string(), ":bar-1.0.0".to_string())])
            );
            assert_eq!(b.deps, vec![":baz-2.3.4".to_string()]);
        }
        _ => panic!("expected a rust_binary"),
    }
}

#[test]
fn emission_ignores_package_order() {
    let a = local_pkg("a", vec![unit(UnitKind::Bin, "a_main", "src/main.rs")]);
    let b = local_pkg("b", vec![unit(UnitKind::Bin, "b_main", "src/main.rs")]);
    let first = emit(&vec![a, serde_pkg(), b]);
    let a = local_pkg("a", vec![unit(UnitKind::Bin, "a_main", "src/main.rs")]);
    let b = local_pkg("b", vec![unit(UnitKind::Bin, "b_main", "src/main.rs")]);
    let second = emit(&vec![serde_pkg(), b, a]);
    assert!(same_rules(&first, &second));
    assert_eq!(names(&first), vec!["a_main", "b_main", "serde-1.0.0.crate", "serde-1.0.0"]);
}

#[test]
fn adding_a_rule_twice_changes_nothing() {
    let key = PackageKey { name: "serde".to_string(), version: "1.0.0".to_string(), is_local: false };
    let pkg = serde_pkg();
    let mut once = BuckFile::new();
    let rule = cargo2buck2::synth::library(&pkg, &pkg.units[0], false);
    assert_eq!(once.add_rule(&key, rule), Ok(()));
    let mut twice = BuckFile::new();
    assert_eq!(twice.add_rule(&key, cargo2buck2::synth::library(&pkg, &pkg.units[0], false)), Ok(()));
    assert_eq!(twice.add_rule(&key, cargo2buck2::synth::library(&pkg, &pkg.units[0], false)), Ok(()));
    assert!(same_rules(&once.into_rules().ok().unwrap(), &twice.into_rules().ok().unwrap()));
}

fn serde_key() -> PackageKey {
    PackageKey { name: "serde".to_string(), version: "1.0.0".to_string(), is_local: false }
}

fn serde_lib(proc_macro: bool) -> InternalRule {
    let pkg = serde_pkg();
    cargo2buck2::synth::library(&pkg, &pkg.units[0], proc_macro)
}

#[test]
fn clashing_names_are_reported_in_either_order() {
    let mut xy = BuckFile::new();
    assert_eq!(xy.add_rule(&serde_key(), serde_lib(false)), Ok(()));
    assert_eq!(xy.add_rule(&serde_key(), serde_lib(true)), Ok(()));
    assert!(xy.has_clash());
    let mut yx = BuckFile::new();
    assert_eq!(yx.add_rule(&serde_key(), serde_lib(true)), Ok(()));
    assert_eq!(yx.add_rule(&serde_key(), serde_lib(false)), Ok(()));
    assert!(yx.has_clash());
    assert_eq!(xy.into_rules().err(), Some(RuleError::NameClash));
    assert_eq!(yx.into_rules().err(), Some(RuleError::NameClash));
}

#[test]
fn repeating_a_clashing_rule_changes_nothing() {
    let mut xy = BuckFile::new();
    xy.add_rule(&serde_key(), serde_lib(false)).unwrap();
    xy.add_rule(&serde_key(), serde_lib(true)).unwrap();
    let mut yxy = BuckFile::new();
    yxy.add_rule(&serde_key(), serde_lib(true)).unwrap();
    yxy.add_rule(&serde_key(), serde_lib(false)).unwrap();
    yxy.add_rule(&serde_key(), serde_lib(true)).unwrap();
    assert_eq!(xy.into_rules().err(), yxy.into_rules().err());
}

#[test]
fn two_binaries_with_one_name_are_refused() {
    let a = local_pkg("a", vec![unit(UnitKind::Bin, "main", "src/main.rs")]);
    let b = local_pkg("b", vec![unit(UnitKind::Bin, "main", "src/main.rs")]);
    assert_eq!(
        buckify_workspace(&vec![a, b]).err(),
        Some(SynthError::Rule(RuleError::NameClash))
    );
    let a = local_pkg("a", vec![unit(UnitKind::Bin, "main", "src/main.rs")]);
    let b = local_pkg("b", vec![unit(UnitKind::Bin, "main", "src/main.rs")]);
    assert_eq!(
        buckify_workspace(&vec![b, a]).err(),
        Some(SynthError::Rule(RuleError::NameClash))
    );
}

#[test]
fn registry_binary_root_is_under_the_archive() {
    let mut pkg = serde_pkg();
    pkg.units = vec![unit(UnitKind::Bin, "serde_tool", "src/bin/tool.rs")];
    let rules = emit(&vec![pkg]);
    match &rules[0] {
        InternalRule::RustBinary(b) => assert_eq!(b.crate_root, "serde-1.0.0.crate/src/bin/tool.rs"),
        _ => panic!("expected a rust_binary"),
    }
}

#[test]
fn load_rule_is_refused_by_the_store() {
    let key = PackageKey { name: "x".to_string(), version: "0.1.0".to_string(), is_local: true };
    let mut store = BuckFile::new();
    let load = InternalRule::Load(cargo2buck2::rules::Load("m".to_string(), "s".to_string()));
    assert_eq!(store.add_rule(&key, load), Err(RuleError::Unnamed));
    assert!(store.into_rules().ok().unwrap().is_empty());
}

#[test]
fn no_load_without_build_script() {
    let rules = emit(&vec![serde_pkg()]);
    assert!(rules.iter().all(|r| !matches!(r, InternalRule::Load(_))));
}

#[test]
fn registry_build_script_refers_to_archive() {
    let mut pkg = serde_pkg();
    pkg.has_custom_build = true;
    pkg.units.push(unit(UnitKind::CustomBuild, "build-script-build", "build.rs"));
    let rules = emit(&vec![pkg]);
    assert_eq!(
        names(&rules),
        vec![
            "".to_string(),
            "serde-1.0.0-build-script-build".to_string(),
            "serde-1.0.0.crate".to_string(),
            "serde-1.0.0".to_string(),
            "serde-1.0.0-build-script-run".to_string(),
        ]
    );
    match &rules[1] {
        InternalRule::RustBinary(b) => {
            assert_eq!(b.crate_root, "serde-1.0.0.crate/build.rs");
            match &b.srcs {
                Srcs::Plain(v) => assert_eq!(v, &vec![":serde-1.0.0.crate".to_string()]),
                Srcs::Glob(_) => panic!("expected a plain list"),
            }
        }
        _ => panic!("expected a rust_binary"),
    }
}

#[test]
fn unsupported_crate_kinds_fail() {
    assert_eq!(
        classify(&UnitKind::Lib(vec![CrateKind::Rlib])),
        Err(SynthError::UnsupportedCrateKind)
    );
    assert_eq!(
        classify(&UnitKind::Lib(vec![CrateKind::Lib, CrateKind::ProcMacro])),
        Err(SynthError::UnsupportedCrateKind)
    );
    let pkg = local_pkg("x", vec![unit(UnitKind::Lib(vec![CrateKind::Cdylib]), "x", "src/lib.rs")]);
    assert_eq!(buckify_workspace(&vec![pkg]).err(), Some(SynthError::UnsupportedCrateKind));
}

#[test]
fn classification_of_each_kind() {
    assert_eq!(classify(&UnitKind::Lib(vec![CrateKind::Lib])), Ok(Category::Library(false)));
    assert_eq!(classify(&UnitKind::Lib(vec![CrateKind::ProcMacro])), Ok(Category::Library(true)));
    assert_eq!(classify(&UnitKind::Bin), Ok(Category::Binary));
    assert_eq!(classify(&UnitKind::CustomBuild), Ok(Category::BuildScript));
    assert_eq!(classify(&UnitKind::Test), Ok(Category::Deferred));
    assert_eq!(classify(&UnitKind::ExampleBin), Ok(Category::Deferred));
}

#[test]
fn registry_package_without_checksum_fails() {
    let mut pkg = serde_pkg();
    pkg.checksum = None;
    assert_eq!(buckify_workspace(&vec![pkg]).err(), Some(SynthError::MissingChecksum));
}

#[test]
fn deferred_units_yield_nothing() {
    let pkg = local_pkg(
        "x",
        vec![unit(UnitKind::Test, "t", "tests/t.rs"), unit(UnitKind::Bench, "b", "benches/b.rs")],
    );
    assert!(emit(&vec![pkg]).is_empty());
}

#[test]
fn proc_macro_library_is_flagged() {
    let pkg = local_pkg("pm", vec![unit(UnitKind::Lib(vec![CrateKind::ProcMacro]), "pm", "src/lib.rs")]);
    let rules = emit(&vec![pkg]);
    match &rules[0] {
        InternalRule::RustLibrary(l) => assert!(l.proc_macro),
        _ => panic!("expected a rust_library"),
    }
}

#[test]
fn features_are_sorted_and_distinct() {
    let mut pkg = local_pkg("f", vec![unit(UnitKind::Bin, "f", "src/main.rs")]);
    pkg.features = vec!["std".to_string(), "alloc".to_string(), "std".to_string(), "default".to_string()];
    let rules = emit(&vec![pkg]);
    match &rules[0] {
        InternalRule::RustBinary(b) => assert_eq!(b.features, vec!["alloc", "default", "std"]),
        _ => panic!("expected a rust_binary"),
    }
}

#[test]
fn later_alias_replaces_earlier() {
    let mut pkg = local_pkg("app", vec![unit(UnitKind::Bin, "app", "src/main.rs")]);
    pkg.deps = vec![
        DepEdge { name: "zed".to_string(), version: ver(1, 0, 0), alias: Some("z".to_string()) },
        DepEdge { name: "aa".to_string(), version: ver(0, 2, 0), alias: Some("a".to_string()) },
        DepEdge { name: "zed2".to_string(), version: ver(3, 0, 0), alias: Some("z".to_string()) },
    ];
    let rules = emit(&vec![pkg]);
    match &rules[0] {
        InternalRule::RustBinary(b) => assert_eq!(
            b.named_deps,
            Some(vec![
                ("a".to_string(), ":aa-0.2.0".to_string()),
                ("z".to_string(), ":zed2-3.0.0".to_string()),
            ])
        ),
        _ => panic!("expected a rust_binary"),
    }
}

#[test]
fn version_text_forms() {
    assert_eq!(version_string(&ver(1, 2, 3)), "1.2.3");
    assert_eq!(version_string(&ver(10, 0, 120)), "10.0.120");
    let v = Version { major: 1, minor: 0, patch: 0, pre: "alpha.1".to_string(), build: "b7".to_string() };
    assert_eq!(version_string(&v), "1.0.0-alpha.1+b7");
    assert_eq!(
        version_string(&ver(u64::MAX, 0, 9)),
        "18446744073709551615.0.9"
    );
}

#[test]
fn text_order() {
    assert!(str_less("a", "b"));
    assert!(str_less("", "a"));
    assert!(str_less("ab", "abc"));
    assert!(!str_less("abc", "ab"));
    assert!(!str_less("same", "same"));
    assert!(str_less("Z", "a"));
    assert!(str_same("x", "x"));
    assert!(!str_same("x", "y"));
}

#[test]
fn custom_metadata_default_is_empty() {
    let m = cargo2buck2::metadata::CustomMetadata::default();
    assert!(m.read_env_vars_from_build_script.is_empty());
}

#[test]
fn is_false_negates() {
    assert!(cargo2buck2::rules::is_false(&false));
    assert!(!cargo2buck2::rules::is_false(&true));
}

#[test]
fn add_rule_takes_each_record_type() {
    let key = PackageKey { name: "p".to_string(), version: "1.0.0".to_string(), is_local: false };
    let mut store = BuckFile::new();
    let archive = cargo2buck2::rules::HttpArchive {
        name: "p-1.0.0.crate".to_string(),
        sha256: "00".to_string(),
        strip_prefix: "p-1.0.0".to_string(),
        urls: vec![],
        visibility: vec!["PUBLIC".to_string()],
    };
    assert_eq!(store.add_rule(&key, archive), Ok(()));
    let run = cargo2buck2::rules::BuildScriptRun {
        name: "p-1.0.0-build-script-run".to_string(),
        package_name: "p".to_string(),
        buildscript_rule: ":p-1.0.0-build-script-build".to_string(),
        env: vec![],
        features: vec![],
        version: "1.0.0".to_string(),
    };
    assert_eq!(store.add_rule(&key, run), Ok(()));
    assert_eq!(
        store.add_rule(&key, cargo2buck2::rules::Glob(vec!["*.rs".to_string()])),
        Err(RuleError::Unnamed)
    );
    let rules = store.into_rules().ok().unwrap();
    assert_eq!(names(&rules), vec!["", "p-1.0.0.crate", "p-1.0.0-build-script-run"]);
}

#[test]
fn decimal_rendering() {
    assert_eq!(cargo2buck2::text::decimal_string(0), "0");
    assert_eq!(cargo2buck2::text::decimal_string(7), "7");
    assert_eq!(cargo2buck2::text::decimal_string(1000), "1000");
}

#[test]
fn binary_with_build_script_gets_rustc_flags_entry() {
    let mut pkg = local_pkg(
        "bs",
        vec![
            unit(UnitKind::Bin, "bs", "src/main.rs"),
            unit(UnitKind::CustomBuild, "build-script-build", "build.rs"),
        ],
    );
    pkg.has_custom_build = true;
    let rules = emit(&vec![pkg]);
    let bin = rules
        .iter()
        .find_map(|r| match r {
            InternalRule::RustBinary(b) if b.name == "bs" => Some(b),
            _ => None,
        })
        .unwrap();
    let get = |k: &str| bin.env.iter().find(|(key, _)| key == k).map(|(_, v)| v.clone());
    assert_eq!(get("OUT_DIR"), Some(":bs-0.1.0-build-script-run[out_dir]".to_string()));
    assert_eq!(
        get("rustc_flags"),
        Some("@$(location :bs-0.1.0-build-script-run[rustc_flags])".to_string())
    );
}

#[test]
fn clashing_rules_of_two_packages_are_both_kept() {
    let a = PackageKey { name: "a".to_string(), version: "0.1.0".to_string(), is_local: true };
    let b = PackageKey { name: "b".to_string(), version: "0.1.0".to_string(), is_local: true };
    let mut store = BuckFile::new();
    store.add_rule(&a, serde_lib(false)).unwrap();
    store.add_rule(&b, serde_lib(false)).unwrap();
    assert!(store.has_clash());
    assert_eq!(store.into_rules().err(), Some(RuleError::NameClash));
}
