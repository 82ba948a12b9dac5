//! Classification of compilation units and synthesis of their rules into a store.
use vstd::prelude::*;
use crate::names::{
    dep_label, keys_sorted, lemma_aliased_deps, lemma_sorted_features, strictly_sorted,
    aliased_deps, cat, crate_id, crate_id_string, feature_list, label, label_string, named_dep_map,
    named_deps_of, positional_dep_list, positional_deps, sorted_features, version_string,
    version_text, DepEdge, DepEdgeModel, Version, VersionModel,
};
use crate::rules::{
    BuildScriptRun, BuildScriptRunModel, Glob, HttpArchive, HttpArchiveModel, InternalRule,
    PairsModel, RuleModel, RustBinary, RustBinaryModel, RustLibrary, RustLibraryModel, Srcs,
    SrcsModel,
};
use crate::store::{
    add_model, add_result, has_clash,
    BuckFile, Entry, PackageKey, PackageKeyModel, RuleError,
};
use crate::text::{decimal, decimal_string, lemma_str_lt_transitive, str_lt};

verus! {

/// A crate type a library unit may declare.
#[derive(PartialEq, Eq, Structural, Debug, Clone, Copy)]
pub enum CrateKind {
    Lib,
    ProcMacro,
    Rlib,
    Dylib,
    Cdylib,
    Staticlib,
    Bin,
    Other,
}

/// The kind of a compilation unit.
pub enum UnitKind {
    Lib(Vec<CrateKind>),
    Bin,
    ExampleLib,
    ExampleBin,
    Test,
    Bench,
    CustomBuild,
}

pub ghost enum UnitKindModel {
    Lib(Seq<CrateKind>),
    Bin,
    ExampleLib,
    ExampleBin,
    Test,
    Bench,
    CustomBuild,
}

impl View for UnitKind {
    type V = UnitKindModel;

    open spec fn view(&self) -> UnitKindModel {
        match self {
            UnitKind::Lib(v) => UnitKindModel::Lib(v@),
            UnitKind::Bin => UnitKindModel::Bin,
            UnitKind::ExampleLib => UnitKindModel::ExampleLib,
            UnitKind::ExampleBin => UnitKindModel::ExampleBin,
            UnitKind::Test => UnitKindModel::Test,
            UnitKind::Bench => UnitKindModel::Bench,
            UnitKind::CustomBuild => UnitKindModel::CustomBuild,
        }
    }
}

/// One compilation unit of a package.
pub struct Unit {
    pub kind: UnitKind,
    pub name: String,
    pub edition: String,
    /// The entry source file, relative to the package root.
    pub src_path: String,
}

pub ghost struct UnitModel {
    pub kind: UnitKindModel,
    pub name: Seq<char>,
    pub edition: Seq<char>,
    pub src_path: Seq<char>,
}

impl View for Unit {
    type V = UnitModel;

    open spec fn view(&self) -> UnitModel {
        UnitModel {
            kind: self.kind@,
            name: self.name@,
            edition: self.edition@,
            src_path: self.src_path@,
        }
    }
}

/// A resolved package: identity, origin, units, dependency edges and
/// activated features.
pub struct Package {
    pub name: String,
    pub version: Version,
    /// Archive checksum; registry packages have one.
    pub checksum: Option<String>,
    pub has_custom_build: bool,
    /// Whether the package comes from a local path rather than a registry.
    pub is_local: bool,
    pub units: Vec<Unit>,
    pub deps: Vec<DepEdge>,
    pub features: Vec<String>,
}

pub ghost struct PackageModel {
    pub name: Seq<char>,
    pub version: VersionModel,
    pub checksum: Option<Seq<char>>,
    pub has_custom_build: bool,
    pub is_local: bool,
    pub units: Seq<UnitModel>,
    pub deps: Seq<DepEdgeModel>,
    pub features: Seq<Seq<char>>,
}

impl View for Package {
    type V = PackageModel;

    open spec fn view(&self) -> PackageModel {
        PackageModel {
            name: self.name@,
            version: self.version@,
            checksum: match self.checksum {
                Some(c) => Some(c@),
                None => None,
            },
            has_custom_build: self.has_custom_build,
            is_local: self.is_local,
            units: self.units@.map_values(|u: Unit| u@),
            deps: self.deps@.map_values(|d: DepEdge| d@),
            features: self.features.deep_view(),
        }
    }
}

/// What a unit turns into.
#[derive(PartialEq, Eq, Structural, Debug, Clone, Copy)]
pub enum Category {
    /// A library; the flag tells a procedural macro.
    Library(bool),
    Binary,
    BuildScript,
    /// Examples, tests and benches: no rule.
    Deferred,
}

/// Why the rules of a workspace could not be made.
#[derive(PartialEq, Eq, Structural, Debug, Clone, Copy)]
pub enum SynthError {
    /// A library unit declares other than exactly one of `lib`, `proc-macro`.
    UnsupportedCrateKind,
    /// A registry package has no checksum.
    MissingChecksum,
    /// The store refused a rule, or two different rules share a name.
    Rule(RuleError),
}

pub open spec fn classify_spec(k: UnitKindModel) -> Result<Category, SynthError> {
    match k {
        UnitKindModel::Lib(kinds) => if kinds.len() == 1 && kinds[0] == CrateKind::Lib {
            Ok(Category::Library(false))
        } else if kinds.len() == 1 && kinds[0] == CrateKind::ProcMacro {
            Ok(Category::Library(true))
        } else {
            Err(SynthError::UnsupportedCrateKind)
        },
        UnitKindModel::Bin => Ok(Category::Binary),
        UnitKindModel::CustomBuild => Ok(Category::BuildScript),
        _ => Ok(Category::Deferred),
    }
}

/// Classifies a unit by its kind.
pub fn classify(kind: &UnitKind) -> (r: Result<Category, SynthError>)
    ensures
        r == classify_spec(kind@),
{
    match kind {
        UnitKind::Lib(kinds) => {
            if kinds.len() == 1 && kinds[0] == CrateKind::Lib {
                Ok(Category::Library(false))
            } else if kinds.len() == 1 && kinds[0] == CrateKind::ProcMacro {
                Ok(Category::Library(true))
            } else {
                Err(SynthError::UnsupportedCrateKind)
            }
        },
        UnitKind::Bin => Ok(Category::Binary),
        UnitKind::CustomBuild => Ok(Category::BuildScript),
        _ => Ok(Category::Deferred),
    }
}

pub open spec fn public_vis() -> Seq<Seq<char>> {
    seq!["PUBLIC"@]
}

pub open spec fn pkg_id(p: PackageModel) -> Seq<char> {
    crate_id(p.name, p.version)
}

/// `<name>-<version>.crate`.
pub open spec fn tarball(p: PackageModel) -> Seq<char> {
    pkg_id(p) + ".crate"@
}

pub open spec fn download_url(p: PackageModel) -> Seq<char> {
    "https://static.crates.io/crates/"@ + p.name + "/"@ + version_text(p.version) + "/download"@
}

pub open spec fn build_name(p: PackageModel) -> Seq<char> {
    pkg_id(p) + "-build-script-build"@
}

pub open spec fn run_name(p: PackageModel) -> Seq<char> {
    pkg_id(p) + "-build-script-run"@
}

pub open spec fn base_env(p: PackageModel) -> PairsModel {
    seq![
        ("CARGO_PKG_NAME"@, p.name),
        ("CARGO_PKG_VERSION"@, version_text(p.version)),
        ("CARGO_PKG_VERSION_PATCH"@, decimal(p.version.patch)),
    ]
}

pub open spec fn out_dir_ref(p: PackageModel) -> Seq<char> {
    label(run_name(p)) + "[out_dir]"@
}

pub open spec fn flags_ref(p: PackageModel) -> Seq<char> {
    "@$(location "@ + label(run_name(p)) + "[rustc_flags])"@
}

/// The environment of a library or binary: the base entries, and `OUT_DIR`
/// when the package has a build script.
pub open spec fn unit_env(p: PackageModel) -> PairsModel {
    if p.has_custom_build {
        base_env(p).push(("OUT_DIR"@, out_dir_ref(p)))
    } else {
        base_env(p)
    }
}

/// The environment of a binary: that of `unit_env`, and, when the package has
/// a build script, a `rustc_flags` entry for the flags the script emits.
pub open spec fn binary_env(p: PackageModel) -> PairsModel {
    if p.has_custom_build {
        unit_env(p).push(("rustc_flags"@, flags_ref(p)))
    } else {
        unit_env(p)
    }
}

/// Where a registry package's unit sources live: under the archive's root.
pub open spec fn archived_path(p: PackageModel, u: UnitModel) -> Seq<char> {
    tarball(p) + "/"@ + u.src_path
}

pub open spec fn archive_rule(p: PackageModel, sha: Seq<char>) -> RuleModel {
    RuleModel::HttpArchive(
        HttpArchiveModel {
            name: tarball(p),
            sha256: sha,
            strip_prefix: pkg_id(p),
            urls: seq![download_url(p)],
            visibility: public_vis(),
        },
    )
}

pub open spec fn library_rule(p: PackageModel, u: UnitModel, proc_macro: bool) -> RuleModel {
    RuleModel::RustLibrary(
        RustLibraryModel {
            name: pkg_id(p),
            visibility: public_vis(),
            srcs: if p.is_local { seq![u.src_path] } else { seq![label(tarball(p))] },
            edition: u.edition,
            crate_root: if p.is_local { u.src_path } else { archived_path(p, u) },
            crate_name: p.name,
            proc_macro,
            deps: positional_deps(p.deps),
            named_deps: named_deps_of(p.deps),
            features: sorted_features(p.features),
            env: unit_env(p),
            rustc_flags: if p.has_custom_build { Some(seq![flags_ref(p)]) } else { None },
        },
    )
}

pub open spec fn binary_rule(p: PackageModel, u: UnitModel) -> RuleModel {
    RuleModel::RustBinary(
        RustBinaryModel {
            name: u.name,
            visibility: public_vis(),
            srcs: SrcsModel::Glob(seq!["src/*.rs"@]),
            edition: u.edition,
            named_deps: named_deps_of(p.deps),
            deps: positional_deps(p.deps),
            crate_root: if p.is_local { u.src_path } else { archived_path(p, u) },
            crate_name: p.name,
            features: sorted_features(p.features),
            env: binary_env(p),
        },
    )
}

pub open spec fn build_binary_rule(p: PackageModel, u: UnitModel) -> RuleModel {
    RuleModel::RustBinary(
        RustBinaryModel {
            name: build_name(p),
            visibility: public_vis(),
            srcs: SrcsModel::Plain(
                if p.is_local { seq!["build.rs"@] } else { seq![label(tarball(p))] },
            ),
            edition: u.edition,
            named_deps: named_deps_of(p.deps),
            deps: positional_deps(p.deps),
            crate_root: if p.is_local { "build.rs"@ } else { archived_path(p, u) },
            crate_name: "build_script_build"@,
            features: sorted_features(p.features),
            env: base_env(p),
        },
    )
}

pub open spec fn run_rule(p: PackageModel) -> RuleModel {
    RuleModel::BuildScriptRun(
        BuildScriptRunModel {
            name: run_name(p),
            package_name: p.name,
            buildscript_rule: label(build_name(p)),
            env: base_env(p),
            features: sorted_features(p.features),
            version: version_text(p.version),
        },
    )
}

/// The archive rule a registry package's sources come from; none for a local
/// package.
pub open spec fn archive_rules(p: PackageModel) -> Result<Seq<RuleModel>, SynthError> {
    if p.is_local {
        Ok(Seq::empty())
    } else {
        match p.checksum {
            Some(c) => Ok(seq![archive_rule(p, c)]),
            None => Err(SynthError::MissingChecksum),
        }
    }
}

/// The rules a unit yields, in the order they are added.
pub open spec fn unit_rules(p: PackageModel, u: UnitModel) -> Result<Seq<RuleModel>, SynthError> {
    match classify_spec(u.kind) {
        Err(e) => Err(e),
        Ok(Category::Library(pm)) => match archive_rules(p) {
            Err(e) => Err(e),
            Ok(a) => Ok(a.push(library_rule(p, u, pm))),
        },
        Ok(Category::Binary) => Ok(seq![binary_rule(p, u)]),
        Ok(Category::BuildScript) => match archive_rules(p) {
            Err(e) => Err(e),
            Ok(a) => Ok(a + seq![build_binary_rule(p, u), run_rule(p)]),
        },
        Ok(Category::Deferred) => Ok(Seq::empty()),
    }
}

pub open spec fn package_key(p: PackageModel) -> PackageKeyModel {
    PackageKeyModel { name: p.name, version: version_text(p.version), is_local: p.is_local }
}

/// Adds `rules` to `s` one by one, stopping at the first refusal.
pub open spec fn add_all(s: Set<Entry>, k: PackageKeyModel, rules: Seq<RuleModel>) -> Result<
    Set<Entry>,
    SynthError,
>
    decreases rules.len(),
{
    if rules.len() == 0 {
        Ok(s)
    } else {
        match add_result(rules[0]) {
            Err(e) => Err(SynthError::Rule(e)),
            Ok(_) => add_all(add_model(s, (k, rules[0])), k, rules.drop_first()),
        }
    }
}

/// Adds the rules of `units` of package `p`, unit by unit, stopping at the
/// first error.
pub open spec fn add_units(s: Set<Entry>, p: PackageModel, units: Seq<UnitModel>) -> Result<
    Set<Entry>,
    SynthError,
>
    decreases units.len(),
{
    if units.len() == 0 {
        Ok(s)
    } else {
        match unit_rules(p, units[0]) {
            Err(e) => Err(e),
            Ok(rs) => match add_all(s, package_key(p), rs) {
                Err(e) => Err(e),
                Ok(s2) => add_units(s2, p, units.drop_first()),
            },
        }
    }
}

/// Adds the rules of every package, in turn, stopping at the first error.
pub open spec fn add_packages(s: Set<Entry>, ps: Seq<PackageModel>) -> Result<
    Set<Entry>,
    SynthError,
>
    decreases ps.len(),
{
    if ps.len() == 0 {
        Ok(s)
    } else {
        match add_units(s, ps[0], ps[0].units) {
            Err(e) => Err(e),
            Ok(s2) => add_packages(s2, ps.drop_first()),
        }
    }
}


fn public_list() -> (r: Vec<String>)
    ensures
        r.deep_view() == public_vis(),
{
    let mut v: Vec<String> = Vec::new();
    v.push("PUBLIC".to_owned());
    assert(v.deep_view() =~= public_vis());
    v
}

fn single(x: String) -> (r: Vec<String>)
    ensures
        r.deep_view() == seq![x@],
{
    let mut v: Vec<String> = Vec::new();
    v.push(x);
    assert(v.deep_view() =~= seq![x@]);
    v
}

fn pkg_id_string(p: &Package) -> (r: String)
    ensures
        r@ == pkg_id(p@),
{
    crate_id_string(p.name.as_str(), &p.version)
}

fn tarball_string(p: &Package) -> (r: String)
    ensures
        r@ == tarball(p@),
{
    cat(pkg_id_string(p).as_str(), ".crate")
}

fn build_name_string(p: &Package) -> (r: String)
    ensures
        r@ == build_name(p@),
{
    cat(pkg_id_string(p).as_str(), "-build-script-build")
}

fn run_name_string(p: &Package) -> (r: String)
    ensures
        r@ == run_name(p@),
{
    cat(pkg_id_string(p).as_str(), "-build-script-run")
}

fn archived_path_string(p: &Package, u: &Unit) -> (r: String)
    ensures
        r@ == archived_path(p@, u@),
{
    let a = cat(tarball_string(p).as_str(), "/");
    let r = cat(a.as_str(), u.src_path.as_str());
    assert(r@ =~= archived_path(p@, u@));
    r
}

fn base_env_list(p: &Package) -> (r: Vec<(String, String)>)
    ensures
        r.deep_view() == base_env(p@),
{
    let mut v: Vec<(String, String)> = Vec::new();
    v.push(("CARGO_PKG_NAME".to_owned(), p.name.clone()));
    v.push(("CARGO_PKG_VERSION".to_owned(), version_string(&p.version)));
    v.push(("CARGO_PKG_VERSION_PATCH".to_owned(), decimal_string(p.version.patch)));
    assert(v.deep_view() =~= base_env(p@));
    v
}

fn unit_env_list(p: &Package) -> (r: Vec<(String, String)>)
    ensures
        r.deep_view() == unit_env(p@),
{
    let mut v = base_env_list(p);
    if p.has_custom_build {
        let out_dir = cat(label_string(run_name_string(p).as_str()).as_str(), "[out_dir]");
        let ghost prev = v.deep_view();
        v.push(("OUT_DIR".to_owned(), out_dir));
        assert(v.deep_view() =~= prev.push(("OUT_DIR"@, out_dir_ref(p@))));
    }
    v
}

fn flags_string(p: &Package) -> (r: String)
    ensures
        r@ == flags_ref(p@),
{
    let a = cat("@$(location ", label_string(run_name_string(p).as_str()).as_str());
    let f = cat(a.as_str(), "[rustc_flags])");
    assert(f@ =~= flags_ref(p@));
    f
}

fn binary_env_list(p: &Package) -> (r: Vec<(String, String)>)
    ensures
        r.deep_view() == binary_env(p@),
{
    let mut v = unit_env_list(p);
    if p.has_custom_build {
        let ghost prev = v.deep_view();
        v.push(("rustc_flags".to_owned(), flags_string(p)));
        assert(v.deep_view() =~= prev.push(("rustc_flags"@, flags_ref(p@))));
    }
    v
}

fn flags_list(p: &Package) -> (r: Option<Vec<String>>)
    ensures
        r.deep_view() == (if p@.has_custom_build { Some(seq![flags_ref(p@)]) } else { None }),
{
    if p.has_custom_build {
        Some(single(flags_string(p)))
    } else {
        None
    }
}

/// The archive rule of a package, whose checksum is `sha`.
pub fn http_archive(p: &Package, sha: &String) -> (r: InternalRule)
    ensures
        r@ == archive_rule(p@, sha@),
{
    proof {
        reveal_strlit("https://static.crates.io/crates/");
    }
    let a = cat("https://static.crates.io/crates/", p.name.as_str());
    let b = cat(a.as_str(), "/");
    let c = cat(b.as_str(), version_string(&p.version).as_str());
    let url = cat(c.as_str(), "/download");
    assert(url@ =~= download_url(p@));
    InternalRule::HttpArchive(
        HttpArchive {
            name: tarball_string(p),
            sha256: sha.clone(),
            strip_prefix: pkg_id_string(p),
            urls: single(url),
            visibility: public_list(),
        },
    )
}

/// The library rule of unit `u`.
pub fn library(p: &Package, u: &Unit, proc_macro: bool) -> (r: InternalRule)
    ensures
        r@ == library_rule(p@, u@, proc_macro),        r@.wf(),
{
    proof {
        lemma_env_sorted(p@);
        lemma_sorted_features(p@.features);
        lemma_aliased_deps(p@.deps);
        assert(strictly_sorted(seq!["src/*.rs"@]));
    }
    let srcs = if p.is_local {
        single(u.src_path.clone())
    } else {
        single(label_string(tarball_string(p).as_str()))
    };
    let crate_root = if p.is_local {
        u.src_path.clone()
    } else {
        archived_path_string(p, u)
    };
    InternalRule::RustLibrary(
        RustLibrary {
            name: pkg_id_string(p),
            visibility: public_list(),
            srcs,
            edition: u.edition.clone(),
            crate_root,
            crate_name: p.name.clone(),
            proc_macro,
            deps: positional_dep_list(&p.deps),
            named_deps: named_dep_map(&p.deps),
            features: feature_list(&p.features),
            env: unit_env_list(p),
            rustc_flags: flags_list(p),
        },
    )
}

/// The binary rule of unit `u`.
pub fn binary(p: &Package, u: &Unit) -> (r: InternalRule)
    ensures
        r@ == binary_rule(p@, u@),        r@.wf(),
{
    proof {
        lemma_env_sorted(p@);
        lemma_sorted_features(p@.features);
        lemma_aliased_deps(p@.deps);
        assert(strictly_sorted(seq!["src/*.rs"@]));
    }
    InternalRule::RustBinary(
        RustBinary {
            name: u.name.clone(),
            visibility: public_list(),
            srcs: Srcs::Glob(Glob(single("src/*.rs".to_owned()))),
            edition: u.edition.clone(),
            named_deps: named_dep_map(&p.deps),
            deps: positional_dep_list(&p.deps),
            crate_root: if p.is_local {
                u.src_path.clone()
            } else {
                archived_path_string(p, u)
            },
            crate_name: p.name.clone(),
            features: feature_list(&p.features),
            env: binary_env_list(p),
        },
    )
}

/// The rule that builds the build script of unit `u`.
pub fn build_binary(p: &Package, u: &Unit) -> (r: InternalRule)
    ensures
        r@ == build_binary_rule(p@, u@),        r@.wf(),
{
    proof {
        lemma_env_sorted(p@);
        lemma_sorted_features(p@.features);
        lemma_aliased_deps(p@.deps);
        assert(strictly_sorted(seq!["src/*.rs"@]));
    }
    let srcs = if p.is_local {
        single("build.rs".to_owned())
    } else {
        single(label_string(tarball_string(p).as_str()))
    };
    let crate_root = if p.is_local {
        "build.rs".to_owned()
    } else {
        archived_path_string(p, u)
    };
    InternalRule::RustBinary(
        RustBinary {
            name: build_name_string(p),
            visibility: public_list(),
            srcs: Srcs::Plain(srcs),
            edition: u.edition.clone(),
            named_deps: named_dep_map(&p.deps),
            deps: positional_dep_list(&p.deps),
            crate_root,
            crate_name: "build_script_build".to_owned(),
            features: feature_list(&p.features),
            env: base_env_list(p),
        },
    )
}

/// The rule that runs the package's build script.
pub fn run(p: &Package) -> (r: InternalRule)
    ensures
        r@ == run_rule(p@),        r@.wf(),
{
    proof {
        lemma_env_sorted(p@);
        lemma_sorted_features(p@.features);
        lemma_aliased_deps(p@.deps);
        assert(strictly_sorted(seq!["src/*.rs"@]));
    }
    InternalRule::BuildScriptRun(
        BuildScriptRun {
            name: run_name_string(p),
            package_name: p.name.clone(),
            buildscript_rule: label_string(build_name_string(p).as_str()),
            env: base_env_list(p),
            features: feature_list(&p.features),
            version: version_string(&p.version),
        },
    )
}

fn archive_list(p: &Package) -> (r: Result<Vec<InternalRule>, SynthError>)
    ensures
        match archive_rules(p@) {
            Ok(a) => r is Ok && r->Ok_0@.map_values(|x: InternalRule| x@) == a,
            Err(e) => r == Err::<Vec<InternalRule>, SynthError>(e),
        },
{
    let mut v: Vec<InternalRule> = Vec::new();
    if p.is_local {
        assert(v@.map_values(|x: InternalRule| x@) =~= Seq::<RuleModel>::empty());
        return Ok(v);
    }
    match &p.checksum {
        Some(c) => {
            v.push(http_archive(p, c));
            assert(v@.map_values(|x: InternalRule| x@) =~= seq![archive_rule(p@, c@)]);
            Ok(v)
        },
        None => Err(SynthError::MissingChecksum),
    }
}

/// The rules unit `u` of package `p` yields, in the order they are added.
pub fn unit_rule_list(p: &Package, u: &Unit) -> (r: Result<Vec<InternalRule>, SynthError>)
    ensures
        match unit_rules(p@, u@) {
            Ok(a) => r is Ok && r->Ok_0@.map_values(|x: InternalRule| x@) == a,
            Err(e) => r == Err::<Vec<InternalRule>, SynthError>(e),
        },
{
    match classify(&u.kind) {
        Err(e) => Err(e),
        Ok(Category::Library(pm)) => {
            let mut v = match archive_list(p) {
                Ok(v) => v,
                Err(e) => {
                    return Err(e);
                },
            };
            let ghost prev = v@.map_values(|x: InternalRule| x@);
            v.push(library(p, u, pm));
            assert(v@.map_values(|x: InternalRule| x@) =~= prev.push(library_rule(p@, u@, pm)));
            Ok(v)
        },
        Ok(Category::Binary) => {
            let mut v: Vec<InternalRule> = Vec::new();
            v.push(binary(p, u));
            assert(v@.map_values(|x: InternalRule| x@) =~= seq![binary_rule(p@, u@)]);
            Ok(v)
        },
        Ok(Category::BuildScript) => {
            let mut v = match archive_list(p) {
                Ok(v) => v,
                Err(e) => {
                    return Err(e);
                },
            };
            let ghost prev = v@.map_values(|x: InternalRule| x@);
            v.push(build_binary(p, u));
            v.push(run(p));
            assert(v@.map_values(|x: InternalRule| x@) =~= prev + seq![
                build_binary_rule(p@, u@),
                run_rule(p@),
            ]);
            Ok(v)
        },
        Ok(Category::Deferred) => {
            let v: Vec<InternalRule> = Vec::new();
            assert(v@.map_values(|x: InternalRule| x@) =~= Seq::<RuleModel>::empty());
            Ok(v)
        },
    }
}

/// The store key of a package.
pub fn package_key_of(p: &Package) -> (r: PackageKey)
    ensures
        r@ == package_key(p@),
{
    PackageKey { name: p.name.clone(), version: version_string(&p.version), is_local: p.is_local }
}

/// The models of a list of rules.
pub open spec fn rule_models(v: Seq<InternalRule>) -> Seq<RuleModel> {
    v.map_values(|x: InternalRule| x@)
}

fn add_rules(store: &mut BuckFile, key: &PackageKey, rules: Vec<InternalRule>) -> (r: Result<
    (),
    SynthError,
>)
    requires
        old(store).wf(),
    ensures
        final(store).wf(),
        match add_all(old(store)@, key@, rule_models(rules@)) {
            Ok(s) => r is Ok && final(store)@ == s,
            Err(e) => r == Err::<(), SynthError>(e),
        },
{
    let ghost rules_m = rule_models(rules@);
    let ghost goal = add_all(store@, key@, rules_m);
    let mut rest = rules;
    while rest.len() > 0
        invariant
            store.wf(),
            goal == add_all(old(store)@, key@, rules_m),
            rules_m == rule_models(rules@),
            goal == add_all(store@, key@, rule_models(rest@)),
        decreases rest.len(),
    {
        let ghost before = rule_models(rest@);
        let rule = rest.remove(0);
        assert(before[0] == rule@);
        assert(before.drop_first() =~= rule_models(rest@));
        let ghost s0 = store@;
        let ghost e0 = (key@, rule@);
        match store.add_rule(key, rule) {
            Ok(()) => {
                assert(add_all(s0, key@, before) == add_all(
                    add_model(s0, e0),
                    key@,
                    before.drop_first(),
                ));
            },
            Err(e) => {
                assert(add_all(s0, key@, before) == Err::<Set<Entry>, SynthError>(
                    SynthError::Rule(e),
                ));
                assert(goal == Err::<Set<Entry>, SynthError>(SynthError::Rule(e)));
                return Err(SynthError::Rule(e));
            },
        }
    }
    assert(rule_models(rest@) =~= Seq::<RuleModel>::empty());
    Ok(())
}

/// Adds the rules of every unit of `p` to `store`, unit by unit, and stops at
/// the first error.
pub fn buckify_package(store: &mut BuckFile, p: &Package) -> (r: Result<(), SynthError>)
    requires
        old(store).wf(),
    ensures
        final(store).wf(),
        match add_units(old(store)@, p@, p@.units) {
            Ok(s) => r is Ok && final(store)@ == s,
            Err(e) => r == Err::<(), SynthError>(e),
        },
{
    let ghost goal = add_units(store@, p@, p@.units);
    let key = package_key_of(p);
    let mut i: usize = 0;
    assert(p@.units.skip(0) =~= p@.units);
    while i < p.units.len()
        invariant
            store.wf(),
            goal == add_units(old(store)@, p@, p@.units),
            i <= p.units.len(),
            key@ == package_key(p@),
            goal == add_units(store@, p@, p@.units.skip(i as int)),
        decreases p.units.len() - i,
    {
        let ghost rest = p@.units.skip(i as int);
        assert(rest[0] == p.units[i as int]@);
        assert(rest.drop_first() =~= p@.units.skip(i + 1));
        let rules = match unit_rule_list(p, &p.units[i]) {
            Ok(rules) => rules,
            Err(e) => {
                return Err(e);
            },
        };
        match add_rules(store, &key, rules) {
            Ok(()) => {},
            Err(e) => {
                return Err(e);
            },
        }
        i = i + 1;
    }
    assert(p@.units.skip(i as int) =~= Seq::<UnitModel>::empty());
    Ok(())
}

/// Makes the rules of a whole workspace, package by package; any error,
/// or two different rules under one name, discards everything.
pub fn buckify_workspace(pkgs: &Vec<Package>) -> (r: Result<BuckFile, SynthError>)
    ensures
        match add_packages(Set::empty(), pkgs@.map_values(|p: Package| p@)) {
            Ok(s) => if has_clash(s) {
                r is Err && r->Err_0 == SynthError::Rule(RuleError::NameClash)
            } else {
                r is Ok && r->Ok_0.wf() && r->Ok_0@ == s
            },
            Err(e) => r is Err && r->Err_0 == e,
        },
{
    let ghost all = pkgs@.map_values(|p: Package| p@);
    let mut store = BuckFile::new();
    let ghost goal = add_packages(store@, all);
    let mut i: usize = 0;
    assert(all.skip(0) =~= all);
    while i < pkgs.len()
        invariant
            store.wf(),
            i <= pkgs.len(),
            all == pkgs@.map_values(|p: Package| p@),
            goal == add_packages(Set::empty(), all),
            goal == add_packages(store@, all.skip(i as int)),
        decreases pkgs.len() - i,
    {
        let ghost rest = all.skip(i as int);
        assert(rest[0] == pkgs[i as int]@);
        assert(rest.drop_first() =~= all.skip(i + 1));
        match buckify_package(&mut store, &pkgs[i]) {
            Ok(()) => {},
            Err(e) => {
                return Err(e);
            },
        }
        i = i + 1;
    }
    assert(all.skip(i as int) =~= Seq::<PackageModel>::empty());
    if store.has_clash() {
        return Err(SynthError::Rule(RuleError::NameClash));
    }
    Ok(store)
}


/// The references an entry makes to rules of its own package: a build-script
/// run names its build binary; a registry package's library and build binary
/// name its archive in their sources.
pub open spec fn local_refs(x: Entry) -> Seq<Seq<char>> {
    match x.1 {
        RuleModel::BuildScriptRun(b) => seq![b.buildscript_rule],
        RuleModel::RustLibrary(l) => if !x.0.is_local && l.srcs.len() == 1 {
            seq![l.srcs[0]]
        } else {
            Seq::empty()
        },
        RuleModel::RustBinary(b) => match b.srcs {
            SrcsModel::Plain(v) => if !x.0.is_local && v.len() == 1 {
                seq![v[0]]
            } else {
                Seq::empty()
            },
            _ => Seq::empty(),
        },
        _ => Seq::empty(),
    }
}

/// Every reference that a unit's rules make to rules of their own package
/// names a rule that the same unit yields.
pub proof fn lemma_unit_refs_resolve(p: PackageModel, u: UnitModel)
    ensures
        unit_rules(p, u) is Ok ==> (forall|i: int, k: int|
            0 <= i < unit_rules(p, u)->Ok_0.len() && 0 <= k < local_refs(
                (package_key(p), unit_rules(p, u)->Ok_0[i]),
            ).len() ==> exists|j: int|
                0 <= j < unit_rules(p, u)->Ok_0.len() && (#[trigger] unit_rules(p, u)->Ok_0[j]).is_named()
                    && label(unit_rules(p, u)->Ok_0[j].name()) == #[trigger] local_refs(
                    (package_key(p), unit_rules(p, u)->Ok_0[i]),
                )[k]),
{
    if unit_rules(p, u) is Ok {
        let rs = unit_rules(p, u)->Ok_0;
        if !p.is_local && (classify_spec(u.kind) is Ok) && !(classify_spec(u.kind)->Ok_0 is Binary)
            && !(classify_spec(u.kind)->Ok_0 is Deferred) {
            assert(rs[0] == archive_rule(p, p.checksum->Some_0));
        }
        assert forall|i: int, k: int|
            0 <= i < rs.len() && 0 <= k < local_refs((package_key(p), rs[i])).len() implies exists|j: int|
                0 <= j < rs.len() && (#[trigger] rs[j]).is_named() && label(rs[j].name())
                    == #[trigger] local_refs((package_key(p), rs[i]))[k] by {
            match classify_spec(u.kind)->Ok_0 {
                Category::BuildScript => {
                    let d: int = if p.is_local { 0 } else { 1 };
                    assert(rs[d] == build_binary_rule(p, u));
                    if rs[i] is BuildScriptRun {
                        assert(rs[d].name() == build_name(p));
                    } else {
                        assert(rs[0].name() == tarball(p));
                    }
                },
                Category::Library(_) => {
                    if !p.is_local {
                        assert(rs[0].name() == tarball(p));
                    }
                },
                Category::Binary => {
                    assert(rs[0] == binary_rule(p, u));
                },
                _ => {},
            }
        }
    }
}

/// Whether one of `us`, a list of units of `p`, yields rule `r`.
pub open spec fn units_yield(p: PackageModel, us: Seq<UnitModel>, r: RuleModel) -> bool {
    exists|i: int|
        0 <= i < us.len() && (#[trigger] unit_rules(p, us[i])) is Ok && unit_rules(
            p,
            us[i],
        )->Ok_0.contains(r)
}

/// Whether package `p` yields entry `x`.
pub open spec fn package_yields(p: PackageModel, x: Entry) -> bool {
    x.0 == package_key(p) && units_yield(p, p.units, x.1)
}

/// Whether every unit of every package of `ps` yields its rules without error.
pub open spec fn all_units_ok(ps: Seq<PackageModel>) -> bool {
    forall|j: int, i: int|
        0 <= j < ps.len() && 0 <= i < ps[j].units.len() ==> (#[trigger] unit_rules(
            ps[j],
            ps[j].units[i],
        )) is Ok
}

/// The entries the packages of `ps` yield.
pub open spec fn yielded(ps: Seq<PackageModel>) -> Set<Entry> {
    Set::new(|x: Entry| exists|j: int| 0 <= j < ps.len() && #[trigger] package_yields(ps[j], x))
}

proof fn lemma_add_all(a: Set<Entry>, k: PackageKeyModel, rs: Seq<RuleModel>)
    requires
        forall|i: int| 0 <= i < rs.len() ==> (#[trigger] rs[i]).is_named(),
    ensures
        add_all(a, k, rs) == Ok::<Set<Entry>, SynthError>(
            a.union(Set::new(|x: Entry| x.0 == k && rs.contains(x.1))),
        ),
    decreases rs.len(),
{
    if rs.len() == 0 {
        assert(a.union(Set::new(|x: Entry| x.0 == k && rs.contains(x.1))) =~= a);
    } else {
        let e = (k, rs[0]);
        let t = rs.drop_first();
        assert forall|i: int| 0 <= i < t.len() implies (#[trigger] t[i]).is_named() by {
            assert(t[i] == rs[i + 1]);
        }
        lemma_add_all(add_model(a, e), k, t);
        assert forall|x: Entry| #[trigger] rs.contains(x.1) <==> (x.1 == rs[0] || t.contains(x.1)) by {
            if rs.contains(x.1) && x.1 != rs[0] {
                let m = choose|m: int| 0 <= m < rs.len() && rs[m] == x.1;
                assert(t[m - 1] == x.1);
            }
            if t.contains(x.1) {
                let m = choose|m: int| 0 <= m < t.len() && t[m] == x.1;
                assert(rs[m + 1] == x.1);
            }
            assert(rs[0] == rs[0] && rs.contains(rs[0]));
        }
        assert(add_model(a, e).union(Set::new(|x: Entry| x.0 == k && t.contains(x.1))) =~= a.union(
            Set::new(|x: Entry| x.0 == k && rs.contains(x.1)),
        ));
    }
}

proof fn lemma_add_units(a: Set<Entry>, p: PackageModel, us: Seq<UnitModel>)
    ensures
        (add_units(a, p, us) is Ok) == (forall|i: int|
            0 <= i < us.len() ==> (#[trigger] unit_rules(p, us[i])) is Ok),
        add_units(a, p, us) is Ok ==> add_units(a, p, us)->Ok_0 == a.union(
            Set::new(|x: Entry| x.0 == package_key(p) && units_yield(p, us, x.1)),
        ),
    decreases us.len(),
{
    if us.len() == 0 {
        assert(a.union(Set::new(|x: Entry| x.0 == package_key(p) && units_yield(p, us, x.1))) =~= a);
    } else {
        let t = us.drop_first();
        if unit_rules(p, us[0]) is Ok {
            let rs = unit_rules(p, us[0])->Ok_0;
            lemma_add_all(a, package_key(p), rs);
            let a1 = a.union(Set::new(|x: Entry| x.0 == package_key(p) && rs.contains(x.1)));
            lemma_add_units(a1, p, t);
            if forall|i: int| 0 <= i < t.len() ==> (#[trigger] unit_rules(p, t[i])) is Ok {
                assert forall|i: int| 0 <= i < us.len() implies (#[trigger] unit_rules(p, us[i])) is Ok by {
                    if i > 0 {
                        assert(us[i] == t[i - 1]);
                    }
                }
            }
            if forall|i: int| 0 <= i < us.len() ==> (#[trigger] unit_rules(p, us[i])) is Ok {
                assert forall|i: int| 0 <= i < t.len() implies (#[trigger] unit_rules(p, t[i])) is Ok by {
                    assert(t[i] == us[i + 1]);
                }
            }
            assert forall|r: RuleModel| #[trigger] units_yield(p, us, r) <==> (rs.contains(r)
                || units_yield(p, t, r)) by {
                if units_yield(p, us, r) {
                    let i = choose|i: int|
                        0 <= i < us.len() && (#[trigger] unit_rules(p, us[i])) is Ok && unit_rules(
                            p,
                            us[i],
                        )->Ok_0.contains(r);
                    if i > 0 {
                        assert(t[i - 1] == us[i]);
                    }
                }
                if units_yield(p, t, r) {
                    let i = choose|i: int|
                        0 <= i < t.len() && (#[trigger] unit_rules(p, t[i])) is Ok && unit_rules(
                            p,
                            t[i],
                        )->Ok_0.contains(r);
                    assert(us[i + 1] == t[i]);
                }
                if rs.contains(r) {
                    assert(unit_rules(p, us[0]) is Ok);
                }
            }
            assert(a1.union(Set::new(|x: Entry| x.0 == package_key(p) && units_yield(p, t, x.1)))
                =~= a.union(Set::new(|x: Entry| x.0 == package_key(p) && units_yield(p, us, x.1))));
        }
    }
}

proof fn lemma_packages_split(ps: Seq<PackageModel>)
    requires
        ps.len() > 0,
    ensures
        all_units_ok(ps) == ((forall|i: int|
            0 <= i < ps[0].units.len() ==> (#[trigger] unit_rules(ps[0], ps[0].units[i])) is Ok)
            && all_units_ok(ps.drop_first())),
        yielded(ps) == Set::new(|x: Entry| package_yields(ps[0], x)).union(
            yielded(ps.drop_first()),
        ),
{
    let t = ps.drop_first();
    if all_units_ok(t) && (forall|i: int|
        0 <= i < ps[0].units.len() ==> (#[trigger] unit_rules(ps[0], ps[0].units[i])) is Ok) {
        assert forall|j: int, i: int|
            0 <= j < ps.len() && 0 <= i < ps[j].units.len() implies (#[trigger] unit_rules(
                ps[j],
                ps[j].units[i],
            )) is Ok by {
            if j > 0 {
                assert(ps[j] == t[j - 1]);
            }
        }
    }
    if all_units_ok(ps) {
        assert forall|j: int, i: int|
            0 <= j < t.len() && 0 <= i < t[j].units.len() implies (#[trigger] unit_rules(
                t[j],
                t[j].units[i],
            )) is Ok by {
            assert(t[j] == ps[j + 1]);
        }
    }
    assert forall|x: Entry| yielded(ps).contains(x) <==> (package_yields(ps[0], x) || yielded(
        t,
    ).contains(x)) by {
        if yielded(ps).contains(x) {
            let j = choose|j: int| 0 <= j < ps.len() && #[trigger] package_yields(ps[j], x);
            if j > 0 {
                assert(t[j - 1] == ps[j]);
            }
        }
        if yielded(t).contains(x) {
            let j = choose|j: int| 0 <= j < t.len() && #[trigger] package_yields(t[j], x);
            assert(ps[j + 1] == t[j]);
        }
    }
    assert(yielded(ps) =~= Set::new(|x: Entry| package_yields(ps[0], x)).union(yielded(t)));
}

/// A workspace's rules are made without error exactly when every unit yields
/// its rules, and the store then holds exactly the entries its packages yield.
pub proof fn lemma_add_packages(a: Set<Entry>, ps: Seq<PackageModel>)
    ensures
        (add_packages(a, ps) is Ok) == all_units_ok(ps),
        add_packages(a, ps) is Ok ==> add_packages(a, ps)->Ok_0 == a.union(yielded(ps)),
    decreases ps.len(),
{
    if ps.len() == 0 {
        assert(a.union(yielded(ps)) =~= a);
    } else {
        let p = ps[0];
        let t = ps.drop_first();
        lemma_add_units(a, p, p.units);
        lemma_packages_split(ps);
        if add_units(a, p, p.units) is Ok {
            let a1 = a.union(Set::new(|x: Entry| x.0 == package_key(p) && units_yield(p, p.units, x.1)));
            lemma_add_packages(a1, t);
            assert(Set::new(|x: Entry| x.0 == package_key(p) && units_yield(p, p.units, x.1))
                =~= Set::new(|x: Entry| package_yields(ps[0], x)));
            assert(a1.union(yielded(t)) =~= a.union(yielded(ps)));
        }
    }
}

/// Whether the rules of workspace `ps` are made without error or clash.
pub open spec fn workspace_ok(ps: Seq<PackageModel>) -> bool {
    add_packages(Set::empty(), ps) is Ok && !has_clash(add_packages(Set::empty(), ps)->Ok_0)
}

/// The entries stored for workspace `ps`.
pub open spec fn workspace_entries(ps: Seq<PackageModel>) -> Set<Entry> {
    add_packages(Set::empty(), ps)->Ok_0
}

proof fn lemma_workspace_entries(ps: Seq<PackageModel>)
    requires
        add_packages(Set::empty(), ps) is Ok,
    ensures
        forall|x: Entry| #[trigger] workspace_entries(ps).contains(x) <==> exists|j: int|
            0 <= j < ps.len() && #[trigger] package_yields(ps[j], x),
        all_units_ok(ps),
{
    lemma_add_packages(Set::empty(), ps);
    assert(Set::<Entry>::empty().union(yielded(ps)) =~= yielded(ps));
}

/// The outcome for a workspace does not depend on the order its packages are
/// listed in: two listings of the same packages either both fail, or both
/// give the same store, hence both report a clash or both emit the same rules.
pub proof fn lemma_workspace_order_irrelevant(ps: Seq<PackageModel>, qs: Seq<PackageModel>)
    requires
        forall|p: PackageModel| ps.contains(p) <==> qs.contains(p),
    ensures
        (add_packages(Set::empty(), ps) is Ok) == (add_packages(Set::empty(), qs) is Ok),
        add_packages(Set::empty(), ps) is Ok ==> add_packages(Set::empty(), ps)
            == add_packages(Set::empty(), qs),
{
    let e = Set::<Entry>::empty();
    lemma_add_packages(e, ps);
    lemma_add_packages(e, qs);
    if all_units_ok(ps) {
        assert forall|j: int, i: int| 0 <= j < qs.len() && 0 <= i < qs[j].units.len() implies (#[trigger] unit_rules(
            qs[j],
            qs[j].units[i],
        )) is Ok by {
            assert(qs.contains(qs[j]));
            let m = choose|m: int| 0 <= m < ps.len() && ps[m] == qs[j];
            assert(unit_rules(ps[m], ps[m].units[i]) is Ok);
        }
    }
    if all_units_ok(qs) {
        assert forall|j: int, i: int| 0 <= j < ps.len() && 0 <= i < ps[j].units.len() implies (#[trigger] unit_rules(
            ps[j],
            ps[j].units[i],
        )) is Ok by {
            assert(ps.contains(ps[j]));
            let m = choose|m: int| 0 <= m < qs.len() && qs[m] == ps[j];
            assert(unit_rules(qs[m], qs[m].units[i]) is Ok);
        }
    }
    if add_packages(e, ps) is Ok {
        assert forall|x: Entry| yielded(ps).contains(x) <==> yielded(qs).contains(x) by {
            if yielded(ps).contains(x) {
                let j = choose|j: int| 0 <= j < ps.len() && #[trigger] package_yields(ps[j], x);
                assert(ps.contains(ps[j]));
                let m = choose|m: int| 0 <= m < qs.len() && qs[m] == ps[j];
                assert(package_yields(qs[m], x));
            }
            if yielded(qs).contains(x) {
                let j = choose|j: int| 0 <= j < qs.len() && #[trigger] package_yields(qs[j], x);
                assert(qs.contains(qs[j]));
                let m = choose|m: int| 0 <= m < ps.len() && ps[m] == qs[j];
                assert(package_yields(ps[m], x));
            }
        }
        assert(e.union(yielded(ps)) =~= e.union(yielded(qs)));
    }
}

/// In a workspace whose rules were made, every unit's rules are stored, under
/// its package's key, as `unit_rules` gives them: for a registry library the
/// archive and the library rule referring to it; for a build script the build
/// binary and the run rule; for a binary its rule, with renamed dependencies
/// only in its alias mapping.
pub proof fn lemma_unit_rules_stored(ps: Seq<PackageModel>, q: int, t: int)
    requires
        workspace_ok(ps),
        0 <= q < ps.len(),
        0 <= t < ps[q].units.len(),
    ensures
        unit_rules(ps[q], ps[q].units[t]) is Ok,
        forall|r: RuleModel|
            #[trigger] unit_rules(ps[q], ps[q].units[t])->Ok_0.contains(r) ==> workspace_entries(
                ps,
            ).contains((package_key(ps[q]), r)),
{
    lemma_workspace_entries(ps);
    let p = ps[q];
    assert(unit_rules(ps[q], ps[q].units[t]) is Ok);
    assert forall|r: RuleModel|
        #[trigger] unit_rules(p, p.units[t])->Ok_0.contains(r) implies workspace_entries(ps).contains(
            (package_key(p), r),
        ) by {
        assert(units_yield(p, p.units, r));
        assert(package_yields(ps[q], (package_key(p), r)));
    }
}

/// In a workspace whose rules were made, every reference a rule makes to a
/// rule of its own package (build binary, source archive) names a stored rule.
pub proof fn lemma_workspace_refs_resolve(ps: Seq<PackageModel>)
    requires
        workspace_ok(ps),
    ensures
        forall|x: Entry, k: int|
            #![trigger workspace_entries(ps).contains(x), local_refs(x)[k]]
            workspace_entries(ps).contains(x) && 0 <= k < local_refs(x).len() ==> exists|
                y: Entry,
            |
                #[trigger] workspace_entries(ps).contains(y) && y.1.is_named() && label(y.1.name())
                    == local_refs(x)[k],
{
    lemma_workspace_entries(ps);
    let st = workspace_entries(ps);
    assert forall|x: Entry, k: int|
        #![trigger st.contains(x), local_refs(x)[k]]
        st.contains(x) && 0 <= k < local_refs(x).len() implies exists|
        y: Entry,
    | #[trigger] st.contains(y) && y.1.is_named() && label(y.1.name()) == local_refs(x)[k] by {
        let j = choose|j: int| 0 <= j < ps.len() && #[trigger] package_yields(ps[j], x);
        let p = ps[j];
        let i = choose|i: int|
            0 <= i < p.units.len() && (#[trigger] unit_rules(p, p.units[i])) is Ok && unit_rules(
                p,
                p.units[i],
            )->Ok_0.contains(x.1);
        let rs = unit_rules(p, p.units[i])->Ok_0;
        lemma_unit_refs_resolve(p, p.units[i]);
        let m = choose|m: int| 0 <= m < rs.len() && rs[m] == x.1;
        assert(local_refs(x) == local_refs((package_key(p), rs[m])));
        let n = choose|n: int|
            0 <= n < rs.len() && (#[trigger] rs[n]).is_named() && label(rs[n].name())
                == local_refs((package_key(p), rs[m]))[k];
        let y = (x.0, rs[n]);
        assert(units_yield(p, p.units, rs[n]));
        assert(package_yields(ps[j], y));
        assert(st.contains(y));
    }
}

/// In a workspace whose rules were made, the build-script run rule that the
/// `OUT_DIR` and `rustc_flags` entries of a package's rules point at is
/// stored, provided the package flagged as having a build script has a
/// build-script unit.
pub proof fn lemma_build_outputs_resolve(ps: Seq<PackageModel>)
    requires
        workspace_ok(ps),
        forall|j: int|
            0 <= j < ps.len() && (#[trigger] ps[j]).has_custom_build ==> exists|i: int|
                0 <= i < ps[j].units.len() && (#[trigger] ps[j].units[i]).kind is CustomBuild,
    ensures
        forall|j: int|
            0 <= j < ps.len() && (#[trigger] ps[j]).has_custom_build ==> workspace_entries(
                ps,
            ).contains((package_key(ps[j]), run_rule(ps[j]))),
{
    assert forall|j: int| 0 <= j < ps.len() && (#[trigger] ps[j]).has_custom_build implies workspace_entries(
        ps,
    ).contains((package_key(ps[j]), run_rule(ps[j]))) by {
        let p = ps[j];
        let i = choose|i: int| 0 <= i < p.units.len() && (#[trigger] p.units[i]).kind is CustomBuild;
        lemma_unit_rules_stored(ps, j, i);
        let rs = unit_rules(p, p.units[i])->Ok_0;
        let d: int = if p.is_local { 0 } else { 1 };
        assert(rs[d + 1] == run_rule(p));
        assert(rs.contains(run_rule(p)));
    }
}

/// The positional dependency references of a rule.
pub open spec fn rule_deps(r: RuleModel) -> Seq<Seq<char>> {
    match r {
        RuleModel::RustLibrary(l) => l.deps,
        RuleModel::RustBinary(b) => b.deps,
        _ => Seq::empty(),
    }
}

/// The aliased dependency entries of a rule; empty when it has none.
pub open spec fn rule_named_deps(r: RuleModel) -> PairsModel {
    match r {
        RuleModel::RustLibrary(l) => match l.named_deps {
            Some(m) => m,
            None => Seq::empty(),
        },
        RuleModel::RustBinary(b) => match b.named_deps {
            Some(m) => m,
            None => Seq::empty(),
        },
        _ => Seq::empty(),
    }
}

proof fn lemma_positional_from_edges(deps: Seq<DepEdgeModel>)
    ensures
        forall|k: int|
            0 <= k < positional_deps(deps).len() ==> exists|i: int|
                0 <= i < deps.len() && #[trigger] positional_deps(deps)[k] == dep_label(deps[i]),
    decreases deps.len(),
{
    if deps.len() > 0 {
        let init = deps.drop_last();
        lemma_positional_from_edges(init);
        assert forall|k: int| 0 <= k < positional_deps(deps).len() implies exists|i: int|
            0 <= i < deps.len() && #[trigger] positional_deps(deps)[k] == dep_label(deps[i]) by {
            if k < positional_deps(init).len() {
                let i = choose|i: int|
                    0 <= i < init.len() && #[trigger] positional_deps(init)[k] == dep_label(init[i]);
                assert(deps[i] == init[i]);
            } else {
                assert(positional_deps(deps)[k] == dep_label(deps[deps.len() - 1]));
            }
        }
    }
}

/// The dependency lists of every rule a unit yields are those of its package.
proof fn lemma_unit_rule_deps(p: PackageModel, u: UnitModel, r: RuleModel)
    requires
        unit_rules(p, u) is Ok,
        unit_rules(p, u)->Ok_0.contains(r),
    ensures
        rule_deps(r) == positional_deps(p.deps) || rule_deps(r).len() == 0,
        rule_named_deps(r) == aliased_deps(p.deps) || rule_named_deps(r).len() == 0,
{
    let rs = unit_rules(p, u)->Ok_0;
    let m = choose|m: int| 0 <= m < rs.len() && rs[m] == r;
    match classify_spec(u.kind)->Ok_0 {
        Category::Library(pm) => {
            if !p.is_local && m == 0 {
            } else {
                assert(r == library_rule(p, u, pm));
            }
        },
        Category::Binary => {
            assert(r == binary_rule(p, u));
        },
        Category::BuildScript => {},
        Category::Deferred => {},
    }
}

/// When every dependency edge points at a listed package that has a library
/// unit, every dependency reference of every stored rule, positional or
/// aliased, names a stored rule.
pub proof fn lemma_dep_refs_resolve(ps: Seq<PackageModel>)
    requires
        workspace_ok(ps),
        forall|j: int, i: int|
            0 <= j < ps.len() && 0 <= i < ps[j].deps.len() ==> exists|q: int, t: int|
                0 <= q < ps.len() && ps[q].name == (#[trigger] ps[j].deps[i]).name
                    && ps[q].version == ps[j].deps[i].version && 0 <= t < ps[q].units.len()
                    && (#[trigger] ps[q].units[t]).kind is Lib,
    ensures
        forall|x: Entry, k: int|
            #![trigger workspace_entries(ps).contains(x), rule_deps(x.1)[k]]
            workspace_entries(ps).contains(x) && 0 <= k < rule_deps(x.1).len() ==> exists|
                y: Entry,
            |
                #[trigger] workspace_entries(ps).contains(y) && y.1.is_named() && label(y.1.name())
                    == rule_deps(x.1)[k],
        forall|x: Entry, n: Seq<char>, v: Seq<char>|
            #[trigger] workspace_entries(ps).contains(x) && #[trigger] rule_named_deps(x.1).contains(
                (n, v),
            ) ==> exists|y: Entry|
                #[trigger] workspace_entries(ps).contains(y) && y.1.is_named() && label(y.1.name())
                    == v,
{
    lemma_workspace_entries(ps);
    let st = workspace_entries(ps);
    assert forall|x: Entry, k: int|
        #![trigger st.contains(x), rule_deps(x.1)[k]]
        st.contains(x) && 0 <= k < rule_deps(x.1).len() implies exists|
        y: Entry,
    | #[trigger] st.contains(y) && y.1.is_named() && label(y.1.name()) == rule_deps(x.1)[k] by {
        let j = choose|j: int| 0 <= j < ps.len() && #[trigger] package_yields(ps[j], x);
        let p = ps[j];
        let i = choose|i: int|
            0 <= i < p.units.len() && (#[trigger] unit_rules(p, p.units[i])) is Ok && unit_rules(
                p,
                p.units[i],
            )->Ok_0.contains(x.1);
        lemma_unit_rule_deps(p, p.units[i], x.1);
        lemma_positional_from_edges(p.deps);
        let d = choose|d: int|
            0 <= d < p.deps.len() && #[trigger] positional_deps(p.deps)[k] == dep_label(p.deps[d]);
        let (q, t) = choose|q: int, t: int|
            0 <= q < ps.len() && ps[q].name == (#[trigger] ps[j].deps[d]).name && ps[q].version
                == ps[j].deps[d].version && 0 <= t < ps[q].units.len()
                && (#[trigger] ps[q].units[t]).kind is Lib;
        lemma_unit_rules_stored(ps, q, t);
        let lq = ps[q];
        let pm = classify_spec(lq.units[t].kind)->Ok_0->Library_0;
        let rs = unit_rules(lq, lq.units[t])->Ok_0;
        assert(rs.last() == library_rule(lq, lq.units[t], pm));
        assert(rs.contains(rs.last()));
        let y = (package_key(lq), library_rule(lq, lq.units[t], pm));
        assert(st.contains(y));
    }
    assert forall|x: Entry, n: Seq<char>, v: Seq<char>|
        #[trigger] st.contains(x) && #[trigger] rule_named_deps(x.1).contains((n, v)) implies exists|
        y: Entry,
    | #[trigger] st.contains(y) && y.1.is_named() && label(y.1.name()) == v by {
        let j = choose|j: int| 0 <= j < ps.len() && #[trigger] package_yields(ps[j], x);
        let p = ps[j];
        let i = choose|i: int|
            0 <= i < p.units.len() && (#[trigger] unit_rules(p, p.units[i])) is Ok && unit_rules(
                p,
                p.units[i],
            )->Ok_0.contains(x.1);
        lemma_unit_rule_deps(p, p.units[i], x.1);
        lemma_aliased_deps(p.deps);
        assert(aliased_deps(p.deps).contains((n, v)));
        let d = choose|d: int|
            0 <= d < p.deps.len() && (#[trigger] p.deps[d]).alias == Some(n) && dep_label(p.deps[d])
                == v && forall|jj: int| d < jj < p.deps.len() ==> p.deps[jj].alias != Some(n);
        let (q, t) = choose|q: int, t: int|
            0 <= q < ps.len() && ps[q].name == (#[trigger] ps[j].deps[d]).name && ps[q].version
                == ps[j].deps[d].version && 0 <= t < ps[q].units.len()
                && (#[trigger] ps[q].units[t]).kind is Lib;
        lemma_unit_rules_stored(ps, q, t);
        let lq = ps[q];
        let pm = classify_spec(lq.units[t].kind)->Ok_0->Library_0;
        let rs = unit_rules(lq, lq.units[t])->Ok_0;
        assert(rs.last() == library_rule(lq, lq.units[t], pm));
        assert(rs.contains(rs.last()));
        let y = (package_key(lq), library_rule(lq, lq.units[t], pm));
        assert(st.contains(y));
    }
}


/// The environment keys, in the order they take.
proof fn lemma_env_keys_ordered()
    ensures
        str_lt("CARGO_PKG_NAME"@, "CARGO_PKG_VERSION"@),
        str_lt("CARGO_PKG_VERSION"@, "CARGO_PKG_VERSION_PATCH"@),
        str_lt("CARGO_PKG_VERSION_PATCH"@, "OUT_DIR"@),
        str_lt("OUT_DIR"@, "rustc_flags"@),
{
    reveal_strlit("CARGO_PKG_NAME");
    reveal_strlit("CARGO_PKG_VERSION");
    reveal_strlit("CARGO_PKG_VERSION_PATCH");
    reveal_strlit("OUT_DIR");
    reveal_strlit("rustc_flags");
    reveal_with_fuel(str_lt, 20);
}


proof fn lemma_env_sorted(p: PackageModel)
    ensures
        keys_sorted(base_env(p)),
        keys_sorted(unit_env(p)),
        keys_sorted(binary_env(p)),
{
    lemma_env_keys_ordered();
    let k0 = "CARGO_PKG_NAME"@;
    let k1 = "CARGO_PKG_VERSION"@;
    let k2 = "CARGO_PKG_VERSION_PATCH"@;
    let k3 = "OUT_DIR"@;
    let k4 = "rustc_flags"@;
    lemma_str_lt_transitive(k0, k1, k2);
    lemma_str_lt_transitive(k1, k2, k3);
    lemma_str_lt_transitive(k2, k3, k4);
    lemma_str_lt_transitive(k0, k2, k3);
    lemma_str_lt_transitive(k1, k3, k4);
    lemma_str_lt_transitive(k0, k3, k4);
    let env = binary_env(p);
    let u = unit_env(p);
    let b = base_env(p);
    assert(b[0].0 == k0 && b[1].0 == k1 && b[2].0 == k2);
    if p.has_custom_build {
        assert(u[3].0 == k3 && env[4].0 == k4);
    }
}

/// Every rule a unit yields is well formed: environment and alias keys in
/// order, features and patterns sorted and distinct.
pub proof fn lemma_unit_rules_wf(p: PackageModel, u: UnitModel)
    ensures
        unit_rules(p, u) is Ok ==> forall|i: int|
            0 <= i < unit_rules(p, u)->Ok_0.len() ==> (#[trigger] unit_rules(p, u)->Ok_0[i]).wf(),
{
    lemma_env_sorted(p);
    lemma_sorted_features(p.features);
    lemma_aliased_deps(p.deps);
    assert(strictly_sorted(seq!["src/*.rs"@]));
}

} // verus!
