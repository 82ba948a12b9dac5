//! Build rules: one record type per rule kind, their models, and equality.
use vstd::prelude::*;
use crate::names::{keys_sorted, strictly_sorted};

verus! {

/// A string pair list as a sequence of key/value texts.
pub type PairsModel = Seq<(Seq<char>, Seq<char>)>;

/// A `rust_binary` rule.
pub struct RustBinary {
    pub name: String,
    pub visibility: Vec<String>,
    pub srcs: Srcs,
    pub edition: String,
    /// Aliased dependencies, ordered by alias; absent when there are none.
    pub named_deps: Option<Vec<(String, String)>>,
    pub deps: Vec<String>,
    pub crate_root: String,
    pub crate_name: String,
    pub features: Vec<String>,
    /// Environment entries, ordered by key.
    pub env: Vec<(String, String)>,
}

/// A `glob` call over the listed patterns.
pub struct Glob(pub Vec<String>);

/// A `load` directive: module path and imported symbol.
pub struct Load(pub String, pub String);

/// The sources of a binary: a glob pattern or a plain list.
pub enum Srcs {
    Glob(Glob),
    Plain(Vec<String>),
}

/// A `rust_library` rule.
pub struct RustLibrary {
    pub name: String,
    pub visibility: Vec<String>,
    pub srcs: Vec<String>,
    pub edition: String,
    pub crate_root: String,
    pub crate_name: String,
    pub proc_macro: bool,
    pub deps: Vec<String>,
    /// Aliased dependencies, ordered by alias; absent when there are none.
    pub named_deps: Option<Vec<(String, String)>>,
    pub features: Vec<String>,
    /// Environment entries, ordered by key.
    pub env: Vec<(String, String)>,
    pub rustc_flags: Option<Vec<String>>,
}

/// An `http_archive` rule: a downloaded source tarball.
pub struct HttpArchive {
    pub name: String,
    pub sha256: String,
    pub strip_prefix: String,
    pub urls: Vec<String>,
    pub visibility: Vec<String>,
}

/// A `buildscript_run` rule: runs a build script binary.
pub struct BuildScriptRun {
    pub name: String,
    pub package_name: String,
    pub buildscript_rule: String,
    /// Environment entries, ordered by key.
    pub env: Vec<(String, String)>,
    pub features: Vec<String>,
    pub version: String,
}

/// Any one rule.
pub enum InternalRule {
    RustBinary(RustBinary),
    Glob(Glob),
    Load(Load),
    RustLibrary(RustLibrary),
    HttpArchive(HttpArchive),
    BuildScriptRun(BuildScriptRun),
}

pub ghost enum SrcsModel {
    Glob(Seq<Seq<char>>),
    Plain(Seq<Seq<char>>),
}

pub ghost struct RustBinaryModel {
    pub name: Seq<char>,
    pub visibility: Seq<Seq<char>>,
    pub srcs: SrcsModel,
    pub edition: Seq<char>,
    pub named_deps: Option<PairsModel>,
    pub deps: Seq<Seq<char>>,
    pub crate_root: Seq<char>,
    pub crate_name: Seq<char>,
    pub features: Seq<Seq<char>>,
    pub env: PairsModel,
}

pub ghost struct RustLibraryModel {
    pub name: Seq<char>,
    pub visibility: Seq<Seq<char>>,
    pub srcs: Seq<Seq<char>>,
    pub edition: Seq<char>,
    pub crate_root: Seq<char>,
    pub crate_name: Seq<char>,
    pub proc_macro: bool,
    pub deps: Seq<Seq<char>>,
    pub named_deps: Option<PairsModel>,
    pub features: Seq<Seq<char>>,
    pub env: PairsModel,
    pub rustc_flags: Option<Seq<Seq<char>>>,
}

pub ghost struct HttpArchiveModel {
    pub name: Seq<char>,
    pub sha256: Seq<char>,
    pub strip_prefix: Seq<char>,
    pub urls: Seq<Seq<char>>,
    pub visibility: Seq<Seq<char>>,
}

pub ghost struct BuildScriptRunModel {
    pub name: Seq<char>,
    pub package_name: Seq<char>,
    pub buildscript_rule: Seq<char>,
    pub env: PairsModel,
    pub features: Seq<Seq<char>>,
    pub version: Seq<char>,
}

pub ghost enum RuleModel {
    RustBinary(RustBinaryModel),
    Glob(Seq<Seq<char>>),
    Load(Seq<char>, Seq<char>),
    RustLibrary(RustLibraryModel),
    HttpArchive(HttpArchiveModel),
    BuildScriptRun(BuildScriptRunModel),
}

impl View for Srcs {
    type V = SrcsModel;

    open spec fn view(&self) -> SrcsModel {
        match self {
            Srcs::Glob(g) => SrcsModel::Glob(g.0.deep_view()),
            Srcs::Plain(v) => SrcsModel::Plain(v.deep_view()),
        }
    }
}

impl View for RustBinary {
    type V = RustBinaryModel;

    open spec fn view(&self) -> RustBinaryModel {
        RustBinaryModel {
            name: self.name@,
            visibility: self.visibility.deep_view(),
            srcs: self.srcs@,
            edition: self.edition@,
            named_deps: self.named_deps.deep_view(),
            deps: self.deps.deep_view(),
            crate_root: self.crate_root@,
            crate_name: self.crate_name@,
            features: self.features.deep_view(),
            env: self.env.deep_view(),
        }
    }
}

impl View for RustLibrary {
    type V = RustLibraryModel;

    open spec fn view(&self) -> RustLibraryModel {
        RustLibraryModel {
            name: self.name@,
            visibility: self.visibility.deep_view(),
            srcs: self.srcs.deep_view(),
            edition: self.edition@,
            crate_root: self.crate_root@,
            crate_name: self.crate_name@,
            proc_macro: self.proc_macro,
            deps: self.deps.deep_view(),
            named_deps: self.named_deps.deep_view(),
            features: self.features.deep_view(),
            env: self.env.deep_view(),
            rustc_flags: self.rustc_flags.deep_view(),
        }
    }
}

impl View for HttpArchive {
    type V = HttpArchiveModel;

    open spec fn view(&self) -> HttpArchiveModel {
        HttpArchiveModel {
            name: self.name@,
            sha256: self.sha256@,
            strip_prefix: self.strip_prefix@,
            urls: self.urls.deep_view(),
            visibility: self.visibility.deep_view(),
        }
    }
}

impl View for BuildScriptRun {
    type V = BuildScriptRunModel;

    open spec fn view(&self) -> BuildScriptRunModel {
        BuildScriptRunModel {
            name: self.name@,
            package_name: self.package_name@,
            buildscript_rule: self.buildscript_rule@,
            env: self.env.deep_view(),
            features: self.features.deep_view(),
            version: self.version@,
        }
    }
}

impl View for InternalRule {
    type V = RuleModel;

    open spec fn view(&self) -> RuleModel {
        match self {
            InternalRule::RustBinary(r) => RuleModel::RustBinary(r@),
            InternalRule::Glob(g) => RuleModel::Glob(g.0.deep_view()),
            InternalRule::Load(l) => RuleModel::Load(l.0@, l.1@),
            InternalRule::RustLibrary(r) => RuleModel::RustLibrary(r@),
            InternalRule::HttpArchive(r) => RuleModel::HttpArchive(r@),
            InternalRule::BuildScriptRun(r) => RuleModel::BuildScriptRun(r@),
        }
    }
}

impl RuleModel {
    /// Position of the rule's kind in the emission order.
    pub open spec fn tag(self) -> nat {
        match self {
            RuleModel::RustBinary(_) => 0,
            RuleModel::Glob(_) => 1,
            RuleModel::Load(..) => 2,
            RuleModel::HttpArchive(_) => 3,
            RuleModel::RustLibrary(_) => 4,
            RuleModel::BuildScriptRun(_) => 5,
        }
    }

    /// Key/value lists have strictly increasing keys; feature and pattern
    /// lists are strictly increasing (sorted, no repeats), as the maps and
    /// sets they stand for.
    pub open spec fn wf(self) -> bool {
        match self {
            RuleModel::RustBinary(b) => keys_sorted(b.env) && (b.named_deps is Some ==> keys_sorted(
                b.named_deps->Some_0,
            )) && strictly_sorted(b.features) && (b.srcs is Glob ==> strictly_sorted(
                b.srcs->Glob_0,
            )),
            RuleModel::RustLibrary(l) => keys_sorted(l.env) && (l.named_deps is Some ==> keys_sorted(
                l.named_deps->Some_0,
            )) && strictly_sorted(l.features),
            RuleModel::BuildScriptRun(r) => keys_sorted(r.env) && strictly_sorted(r.features),
            RuleModel::Glob(g) => strictly_sorted(g),
            _ => true,
        }
    }

    /// Whether this kind of rule carries a name.
    pub open spec fn is_named(self) -> bool {
        !(self is Glob || self is Load)
    }

    /// The rule's name; empty for the kinds that carry none.
    pub open spec fn name(self) -> Seq<char> {
        match self {
            RuleModel::RustBinary(r) => r.name,
            RuleModel::RustLibrary(r) => r.name,
            RuleModel::HttpArchive(r) => r.name,
            RuleModel::BuildScriptRun(r) => r.name,
            _ => Seq::empty(),
        }
    }
}

impl RustBinary {
    /// Environment and alias keys in order, features and glob patterns sorted
    /// and distinct.
    pub open spec fn wf(&self) -> bool {
        RuleModel::RustBinary(self@).wf()
    }
}

impl RustLibrary {
    /// Environment and alias keys in order, features sorted and distinct.
    pub open spec fn wf(&self) -> bool {
        RuleModel::RustLibrary(self@).wf()
    }
}

impl BuildScriptRun {
    /// Environment keys in order, features sorted and distinct.
    pub open spec fn wf(&self) -> bool {
        RuleModel::BuildScriptRun(self@).wf()
    }
}

impl Glob {
    /// Patterns sorted and distinct.
    pub open spec fn wf(&self) -> bool {
        strictly_sorted(self.0.deep_view())
    }
}

/// Whether `b` is true; used to leave a false `proc_macro` out of the output.
pub fn is_false(b: &bool) -> (r: bool)
    ensures
        r == !*b,
{
    !*b
}

/// Equality of two string lists.
pub fn strs_eq(a: &Vec<String>, b: &Vec<String>) -> (r: bool)
    ensures
        r == (a.deep_view() == b.deep_view()),
{
    if a.len() != b.len() {
        assert(a.deep_view().len() != b.deep_view().len());
        return false;
    }
    let mut i: usize = 0;
    while i < a.len()
        invariant
            a.len() == b.len(),
            i <= a.len(),
            forall|j: int| 0 <= j < i ==> a[j]@ == b[j]@,
        decreases a.len() - i,
    {
        if a[i] != b[i] {
            assert(a.deep_view()[i as int] != b.deep_view()[i as int]);
            return false;
        }
        i = i + 1;
    }
    assert(a.deep_view() =~= b.deep_view());
    true
}

/// Equality of two key/value lists.
pub fn pairs_eq(a: &Vec<(String, String)>, b: &Vec<(String, String)>) -> (r: bool)
    ensures
        r == (a.deep_view() == b.deep_view()),
{
    if a.len() != b.len() {
        assert(a.deep_view().len() != b.deep_view().len());
        return false;
    }
    let mut i: usize = 0;
    while i < a.len()
        invariant
            a.len() == b.len(),
            i <= a.len(),
            forall|j: int| 0 <= j < i ==> a[j].0@ == b[j].0@ && a[j].1@ == b[j].1@,
        decreases a.len() - i,
    {
        if a[i].0 != b[i].0 || a[i].1 != b[i].1 {
            assert(a.deep_view()[i as int] != b.deep_view()[i as int]);
            return false;
        }
        i = i + 1;
    }
    assert(a.deep_view() =~= b.deep_view());
    true
}

fn opt_pairs_eq(a: &Option<Vec<(String, String)>>, b: &Option<Vec<(String, String)>>) -> (r: bool)
    ensures
        r == (a.deep_view() == b.deep_view()),
{
    match (a, b) {
        (Some(x), Some(y)) => pairs_eq(x, y),
        (None, None) => true,
        _ => false,
    }
}

fn opt_strs_eq(a: &Option<Vec<String>>, b: &Option<Vec<String>>) -> (r: bool)
    ensures
        r == (a.deep_view() == b.deep_view()),
{
    match (a, b) {
        (Some(x), Some(y)) => strs_eq(x, y),
        (None, None) => true,
        _ => false,
    }
}

fn srcs_eq(a: &Srcs, b: &Srcs) -> (r: bool)
    ensures
        r == (a@ == b@),
{
    match (a, b) {
        (Srcs::Glob(x), Srcs::Glob(y)) => strs_eq(&x.0, &y.0),
        (Srcs::Plain(x), Srcs::Plain(y)) => strs_eq(x, y),
        _ => false,
    }
}

impl RustBinary {
    /// Field-wise equality.
    pub fn same(&self, o: &RustBinary) -> (r: bool)
        ensures
            r == (self@ == o@),
    {
        self.name == o.name && strs_eq(&self.visibility, &o.visibility) && srcs_eq(
            &self.srcs,
            &o.srcs,
        ) && self.edition == o.edition && opt_pairs_eq(&self.named_deps, &o.named_deps)
            && strs_eq(&self.deps, &o.deps) && self.crate_root == o.crate_root && self.crate_name
            == o.crate_name && strs_eq(&self.features, &o.features) && pairs_eq(
            &self.env,
            &o.env,
        )
    }
}

impl RustLibrary {
    /// Field-wise equality.
    pub fn same(&self, o: &RustLibrary) -> (r: bool)
        ensures
            r == (self@ == o@),
    {
        self.name == o.name && strs_eq(&self.visibility, &o.visibility) && strs_eq(
            &self.srcs,
            &o.srcs,
        ) && self.edition == o.edition && self.crate_root == o.crate_root && self.crate_name
            == o.crate_name && self.proc_macro == o.proc_macro && strs_eq(&self.deps, &o.deps)
            && opt_pairs_eq(&self.named_deps, &o.named_deps) && strs_eq(
            &self.features,
            &o.features,
        ) && pairs_eq(&self.env, &o.env) && opt_strs_eq(&self.rustc_flags, &o.rustc_flags)
    }
}

impl HttpArchive {
    /// Field-wise equality.
    pub fn same(&self, o: &HttpArchive) -> (r: bool)
        ensures
            r == (self@ == o@),
    {
        self.name == o.name && self.sha256 == o.sha256 && self.strip_prefix == o.strip_prefix
            && strs_eq(&self.urls, &o.urls) && strs_eq(&self.visibility, &o.visibility)
    }
}

impl BuildScriptRun {
    /// Field-wise equality.
    pub fn same(&self, o: &BuildScriptRun) -> (r: bool)
        ensures
            r == (self@ == o@),
    {
        self.name == o.name && self.package_name == o.package_name && self.buildscript_rule
            == o.buildscript_rule && pairs_eq(&self.env, &o.env) && strs_eq(
            &self.features,
            &o.features,
        ) && self.version == o.version
    }
}

impl InternalRule {
    /// Field-wise equality of two rules of any kind.
    pub fn same(&self, o: &InternalRule) -> (r: bool)
        ensures
            r == (self@ == o@),
    {
        match (self, o) {
            (InternalRule::RustBinary(a), InternalRule::RustBinary(b)) => a.same(b),
            (InternalRule::Glob(a), InternalRule::Glob(b)) => strs_eq(&a.0, &b.0),
            (InternalRule::Load(a), InternalRule::Load(b)) => a.0 == b.0 && a.1 == b.1,
            (InternalRule::RustLibrary(a), InternalRule::RustLibrary(b)) => a.same(b),
            (InternalRule::HttpArchive(a), InternalRule::HttpArchive(b)) => a.same(b),
            (InternalRule::BuildScriptRun(a), InternalRule::BuildScriptRun(b)) => a.same(b),
            _ => false,
        }
    }

    /// Position of the rule's kind in the emission order.
    pub fn tag(&self) -> (r: u8)
        ensures
            r as nat == self@.tag(),
    {
        match self {
            InternalRule::RustBinary(_) => 0,
            InternalRule::Glob(_) => 1,
            InternalRule::Load(_) => 2,
            InternalRule::HttpArchive(_) => 3,
            InternalRule::RustLibrary(_) => 4,
            InternalRule::BuildScriptRun(_) => 5,
        }
    }

    /// The rule's name; empty for the kinds that carry none.
    pub fn name_text(&self) -> (r: &str)
        ensures
            r@ == self@.name(),
    {
        match self {
            InternalRule::RustBinary(r) => r.name.as_str(),
            InternalRule::RustLibrary(r) => r.name.as_str(),
            InternalRule::HttpArchive(r) => r.name.as_str(),
            InternalRule::BuildScriptRun(r) => r.name.as_str(),
            _ => {
                proof {
                    reveal_strlit("");
                }
                ""
            },
        }
    }

    /// Whether this is a `buildscript_run` rule.
    pub fn is_buildscript_run(&self) -> (r: bool)
        ensures
            r == self@ is BuildScriptRun,
    {
        match self {
            InternalRule::BuildScriptRun(_) => true,
            _ => false,
        }
    }

    /// The rule's name, for the kinds that carry one.
    pub fn name(&self) -> (r: Option<&String>)
        ensures
            r is Some == self@.is_named(),
            r is Some ==> r->0@ == self@.name(),
    {
        match self {
            InternalRule::RustBinary(r) => Some(&r.name),
            InternalRule::RustLibrary(r) => Some(&r.name),
            InternalRule::HttpArchive(r) => Some(&r.name),
            InternalRule::BuildScriptRun(r) => Some(&r.name),
            _ => None,
        }
    }
}

/// A rule record of one kind that can be stored as an `InternalRule`.
pub trait StarlarkRule: Sized {
    /// The rule this record becomes.
    spec fn rule_model(&self) -> RuleModel;

    fn into_internal_rule(self) -> (r: InternalRule)
        ensures
            r@ == self.rule_model(),
    ;
}

impl StarlarkRule for InternalRule {
    open spec fn rule_model(&self) -> RuleModel {
        self@
    }

    fn into_internal_rule(self) -> (r: InternalRule) {
        self
    }
}

impl StarlarkRule for RustBinary {
    open spec fn rule_model(&self) -> RuleModel {
        RuleModel::RustBinary(self@)
    }

    fn into_internal_rule(self) -> (r: InternalRule) {
        InternalRule::RustBinary(self)
    }
}

impl StarlarkRule for Glob {
    open spec fn rule_model(&self) -> RuleModel {
        RuleModel::Glob(self.0.deep_view())
    }

    fn into_internal_rule(self) -> (r: InternalRule) {
        InternalRule::Glob(self)
    }
}

impl StarlarkRule for Load {
    open spec fn rule_model(&self) -> RuleModel {
        RuleModel::Load(self.0@, self.1@)
    }

    fn into_internal_rule(self) -> (r: InternalRule) {
        InternalRule::Load(self)
    }
}

impl StarlarkRule for RustLibrary {
    open spec fn rule_model(&self) -> RuleModel {
        RuleModel::RustLibrary(self@)
    }

    fn into_internal_rule(self) -> (r: InternalRule) {
        InternalRule::RustLibrary(self)
    }
}

impl StarlarkRule for HttpArchive {
    open spec fn rule_model(&self) -> RuleModel {
        RuleModel::HttpArchive(self@)
    }

    fn into_internal_rule(self) -> (r: InternalRule) {
        InternalRule::HttpArchive(self)
    }
}

impl StarlarkRule for BuildScriptRun {
    open spec fn rule_model(&self) -> RuleModel {
        RuleModel::BuildScriptRun(self@)
    }

    fn into_internal_rule(self) -> (r: InternalRule) {
        InternalRule::BuildScriptRun(self)
    }
}

} // verus!
