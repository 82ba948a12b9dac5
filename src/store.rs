//! The rule store: rules grouped by package, free of duplicates, kept in a
//! fixed order so that what is emitted depends only on what the store holds.
use vstd::prelude::*;
use crate::rules::{InternalRule, Load, RuleModel, StarlarkRule};
use crate::text::{str_less, str_same, str_lt, lemma_str_lt_irreflexive, lemma_str_lt_transitive,
    lemma_str_lt_total};

verus! {

/// Identifies a package: name, version text and whether it is a local path
/// (as opposed to a registry archive).
pub struct PackageKey {
    pub name: String,
    pub version: String,
    pub is_local: bool,
}

pub ghost struct PackageKeyModel {
    pub name: Seq<char>,
    pub version: Seq<char>,
    pub is_local: bool,
}

impl View for PackageKey {
    type V = PackageKeyModel;

    open spec fn view(&self) -> PackageKeyModel {
        PackageKeyModel { name: self.name@, version: self.version@, is_local: self.is_local }
    }
}

/// A rule together with the package it belongs to.
pub type Entry = (PackageKeyModel, RuleModel);

/// Why a rule was not added.
#[derive(PartialEq, Eq, Structural, Debug, Clone, Copy)]
pub enum RuleError {
    /// The rule kind carries no name (`load`, `glob`); such rules are not stored.
    Unnamed,
    /// Two different rules were added under one name.
    NameClash,
}

pub open spec fn bool_lt(a: bool, b: bool) -> bool {
    !a && b
}

/// The store's total order: package (name, version, locality), then rule kind,
/// then rule name.
pub open spec fn entry_lt(a: Entry, b: Entry) -> bool {
    str_lt(a.0.name, b.0.name) || (a.0.name == b.0.name && (str_lt(a.0.version, b.0.version) || (
    a.0.version == b.0.version && (bool_lt(a.0.is_local, b.0.is_local) || (a.0.is_local
        == b.0.is_local && (a.1.tag() < b.1.tag() || (a.1.tag() == b.1.tag() && str_lt(
        a.1.name(),
        b.1.name(),
    ))))))))
}

pub open spec fn same_key(a: Entry, b: Entry) -> bool {
    a.0 == b.0 && a.1.tag() == b.1.tag() && a.1.name() == b.1.name()
}

pub proof fn lemma_entry_lt_irreflexive(a: Entry)
    ensures
        !entry_lt(a, a),
{
    lemma_str_lt_irreflexive(a.0.name);
    lemma_str_lt_irreflexive(a.0.version);
    lemma_str_lt_irreflexive(a.1.name());
}

pub proof fn lemma_entry_lt_transitive(a: Entry, b: Entry, c: Entry)
    requires
        entry_lt(a, b),
        entry_lt(b, c),
    ensures
        entry_lt(a, c),
{
    if str_lt(a.0.name, b.0.name) && str_lt(b.0.name, c.0.name) {
        lemma_str_lt_transitive(a.0.name, b.0.name, c.0.name);
    }
    if str_lt(a.0.version, b.0.version) && str_lt(b.0.version, c.0.version) {
        lemma_str_lt_transitive(a.0.version, b.0.version, c.0.version);
    }
    if str_lt(a.1.name(), b.1.name()) && str_lt(b.1.name(), c.1.name()) {
        lemma_str_lt_transitive(a.1.name(), b.1.name(), c.1.name());
    }
}

pub proof fn lemma_entry_lt_total(a: Entry, b: Entry)
    requires
        !same_key(a, b),
    ensures
        entry_lt(a, b) || entry_lt(b, a),
{
    if a.0.name != b.0.name {
        lemma_str_lt_total(a.0.name, b.0.name);
    } else if a.0.version != b.0.version {
        lemma_str_lt_total(a.0.version, b.0.version);
    } else if a.1.name() != b.1.name() {
        lemma_str_lt_total(a.1.name(), b.1.name());
    }
}

/// Stored entries are strictly ordered, named, and their names are pairwise distinct.
pub open spec fn entries_wf(s: Seq<Entry>) -> bool {
    &&& forall|i: int, j: int| 0 <= i < j < s.len() ==> entry_lt(s[i], s[j])
    &&& forall|i: int| 0 <= i < s.len() ==> (#[trigger] s[i]).1.is_named()
    &&& forall|i: int, j: int|
        0 <= i < s.len() && 0 <= j < s.len() && i != j ==> s[i].1.name() != s[j].1.name()
}

/// Whether a `buildscript_run` rule is stored.
pub open spec fn has_run(s: Seq<Entry>) -> bool {
    exists|i: int| 0 <= i < s.len() && (#[trigger] s[i]).1 is BuildScriptRun
}

/// Stored entries in the store's order: sorted (entries of equal key in any
/// order), pairwise different, and named.
pub open spec fn stored_wf(s: Seq<Entry>) -> bool {
    &&& forall|i: int, j: int| 0 <= i < j < s.len() ==> !entry_lt(s[j], s[i])
    &&& forall|i: int, j: int| 0 <= i < s.len() && 0 <= j < s.len() && i != j ==> s[i] != s[j]
    &&& forall|i: int| 0 <= i < s.len() ==> (#[trigger] s[i]).1.is_named()
}

/// Whether two different entries of `a` carry one name.
pub open spec fn has_clash(a: Set<Entry>) -> bool {
    exists|x: Entry, y: Entry|
        #[trigger] a.contains(x) && #[trigger] a.contains(y) && x != y && x.1.name() == y.1.name()
}

/// Whether adding a rule succeeds: exactly when the rule kind carries a name.
pub open spec fn add_result(r: RuleModel) -> Result<(), RuleError> {
    if r.is_named() {
        Ok(())
    } else {
        Err(RuleError::Unnamed)
    }
}

/// The store's content after adding `e`: the entries added so far, with `e`
/// when it is named.
pub open spec fn add_model(a: Set<Entry>, e: Entry) -> Set<Entry> {
    if e.1.is_named() {
        a.insert(e)
    } else {
        a
    }
}

/// The content after adding each of `es` in turn.
pub open spec fn add_list(a: Set<Entry>, es: Seq<Entry>) -> Set<Entry>
    decreases es.len(),
{
    if es.len() == 0 {
        a
    } else {
        add_list(add_model(a, es[0]), es.drop_first())
    }
}

/// The entries of `a` in the store's order.
pub open spec fn ordered(a: Set<Entry>) -> Seq<Entry> {
    choose|s: Seq<Entry>| entries_wf(s) && forall|x: Entry| s.contains(x) <==> a.contains(x)
}

/// The `load` directive that imports `buildscript_run`.
pub open spec fn load_model() -> RuleModel {
    RuleModel::Load(
        "@prelude//rust:cargo_buildscript.bzl"@,
        "buildscript_run"@,
    )
}

/// The rules in emission order: the `load` directive when a `buildscript_run`
/// rule is stored, then the stored rules in order.
pub open spec fn emitted(s: Seq<Entry>) -> Seq<RuleModel> {
    let rules = s.map_values(|e: Entry| e.1);
    if has_run(s) {
        seq![load_model()] + rules
    } else {
        rules
    }
}

proof fn lemma_wf_tail(s: Seq<Entry>)
    requires
        entries_wf(s),
        s.len() > 0,
    ensures
        entries_wf(s.drop_first()),
{
    let t = s.drop_first();
    assert forall|i: int, j: int| 0 <= i < j < t.len() implies entry_lt(t[i], t[j]) by {
        assert(t[i] == s[i + 1] && t[j] == s[j + 1]);
    }
    assert forall|i: int| 0 <= i < t.len() implies (#[trigger] t[i]).1.is_named() by {
        assert(t[i] == s[i + 1]);
    }
    assert forall|i: int, j: int|
        0 <= i < t.len() && 0 <= j < t.len() && i != j implies t[i].1.name() != t[j].1.name() by {
        assert(t[i] == s[i + 1] && t[j] == s[j + 1]);
    }
}

/// Two well-formed entry sequences that hold the same entries are equal: the
/// order of the store is fixed by its content alone.
pub proof fn lemma_content_determines_entries(a: Seq<Entry>, b: Seq<Entry>)
    requires
        entries_wf(a),
        entries_wf(b),
        forall|x: Entry| a.contains(x) <==> b.contains(x),
    ensures
        a == b,
    decreases a.len(),
{
    if a.len() == 0 {
        if b.len() > 0 {
            assert(b.contains(b[0]));
        }
        assert(a =~= b);
    } else {
        assert(a.contains(a[0]));
        let j = choose|j: int| 0 <= j < b.len() && b[j] == a[0];
        assert(b.contains(b[0]));
        let i = choose|i: int| 0 <= i < a.len() && a[i] == b[0];
        if j > 0 {
            if i > 0 {
                lemma_entry_lt_transitive(b[0], b[j], a[i]);
            }
            lemma_entry_lt_irreflexive(b[0]);
        }
        assert(a[0] == b[0]);
        lemma_wf_tail(a);
        lemma_wf_tail(b);
        let ta = a.drop_first();
        let tb = b.drop_first();
        assert forall|x: Entry| ta.contains(x) <==> tb.contains(x) by {
            if ta.contains(x) {
                let k = choose|k: int| 0 <= k < ta.len() && ta[k] == x;
                assert(a[k + 1] == x);
                assert(a.contains(x));
                let m = choose|m: int| 0 <= m < b.len() && b[m] == x;
                if m == 0 {
                    lemma_entry_lt_irreflexive(x);
                }
                assert(tb[m - 1] == x);
            }
            if tb.contains(x) {
                let k = choose|k: int| 0 <= k < tb.len() && tb[k] == x;
                assert(b[k + 1] == x);
                assert(b.contains(x));
                let m = choose|m: int| 0 <= m < a.len() && a[m] == x;
                if m == 0 {
                    lemma_entry_lt_irreflexive(x);
                }
                assert(ta[m - 1] == x);
            }
        }
        lemma_content_determines_entries(ta, tb);
        assert(a =~= seq![a[0]] + ta);
        assert(b =~= seq![b[0]] + tb);
    }
}

impl PackageKey {
    /// Field-wise equality.
    pub fn same(&self, o: &PackageKey) -> (r: bool)
        ensures
            r == (self@ == o@),
    {
        self.name == o.name && self.version == o.version && self.is_local == o.is_local
    }

    /// A copy of this key.
    pub fn duplicate(&self) -> (r: PackageKey)
        ensures
            r@ == self@,
    {
        PackageKey { name: self.name.clone(), version: self.version.clone(), is_local: self.is_local }
    }
}

/// Whether the entry `(pa, ra)` sorts strictly before `(pb, rb)`.
fn entry_less(pa: &PackageKey, ra: &InternalRule, pb: &PackageKey, rb: &InternalRule) -> (r: bool)
    ensures
        r == entry_lt((pa@, ra@), (pb@, rb@)),
{
    if str_less(pa.name.as_str(), pb.name.as_str()) {
        return true;
    }
    if pa.name != pb.name {
        return false;
    }
    if str_less(pa.version.as_str(), pb.version.as_str()) {
        return true;
    }
    if pa.version != pb.version {
        return false;
    }
    if !pa.is_local && pb.is_local {
        return true;
    }
    if pa.is_local != pb.is_local {
        return false;
    }
    let ta = ra.tag();
    let tb = rb.tag();
    if ta < tb {
        return true;
    }
    if ta != tb {
        return false;
    }
    str_less(ra.name_text(), rb.name_text())
}

/// The rules of a workspace: every distinct (package, rule) entry added, in
/// the store's order; whether two different entries carry one name; and
/// whether the `buildscript_run` import is needed.
pub struct BuckFile {
    entries: Vec<(PackageKey, InternalRule)>,
    name_clash: bool,
    add_buildscript_run_import: bool,
}

impl BuckFile {
    /// The stored entries, in order.
    pub closed spec fn entries_model(&self) -> Seq<Entry> {
        self.entries@.map_values(|p: (PackageKey, InternalRule)| (p.0@, p.1@))
    }
}

impl View for BuckFile {
    type V = Set<Entry>;

    closed spec fn view(&self) -> Set<Entry> {
        Set::new(|x: Entry| self.entries_model().contains(x))
    }
}

impl BuckFile {
    /// The entries are in order, different and named; the clash flag tells
    /// whether two of them share a name; the import flag is set exactly when a
    /// `buildscript_run` rule is stored.
    pub closed spec fn wf(&self) -> bool {
        &&& stored_wf(self.entries_model())
        &&& self.name_clash == has_clash(self@)
        &&& self.add_buildscript_run_import == has_run(self.entries_model())
    }

    /// Whether the `load` directive will be emitted.
    pub closed spec fn needs_import(&self) -> bool {
        self.add_buildscript_run_import
    }

    pub proof fn lemma_wf(&self)
        requires
            self.wf(),
        ensures
            self.needs_import() == exists|x: Entry| #[trigger] self@.contains(x) && x.1 is BuildScriptRun,
    {
        let s = self.entries_model();
        if has_run(s) {
            let k = choose|k: int| 0 <= k < s.len() && (#[trigger] s[k]).1 is BuildScriptRun;
            assert(s.contains(s[k]));
            assert(self@.contains(s[k]));
        }
        if exists|x: Entry| #[trigger] self@.contains(x) && x.1 is BuildScriptRun {
            let x = choose|x: Entry| #[trigger] self@.contains(x) && x.1 is BuildScriptRun;
            assert(s.contains(x));
            let k = choose|k: int| 0 <= k < s.len() && s[k] == x;
            assert(s[k].1 is BuildScriptRun);
        }
    }

    /// An empty store.
    pub fn new() -> (r: BuckFile)
        ensures
            r.wf(),
            r@ == Set::<Entry>::empty(),
            !r.needs_import(),
    {
        let r = BuckFile {
            entries: Vec::new(),
            name_clash: false,
            add_buildscript_run_import: false,
        };
        assert(r.entries_model() =~= Seq::<Entry>::empty());
        assert(r@ =~= Set::<Entry>::empty());
        r
    }

    /// Whether two different rules were added under one name.
    pub fn has_clash(&self) -> (r: bool)
        requires
            self.wf(),
        ensures
            r == has_clash(self@),
    {
        self.name_clash
    }

    /// Adds `rule` to the rules of `pkg_id`. The store holds every distinct
    /// entry added, so it depends only on the set of entries added: adding one
    /// again changes nothing, and the order of adds does not matter. Only a rule
    /// kind without a name is refused.
    pub fn add_rule<R: StarlarkRule>(&mut self, pkg_id: &PackageKey, rule: R) -> (r: Result<
        (),
        RuleError,
    >)
        requires
            old(self).wf(),
        ensures
            final(self).wf(),
            r == add_result(rule.rule_model()),
            final(self)@ == add_model(old(self)@, (pkg_id@, rule.rule_model())),
    {
        let item = rule.into_internal_rule();
        let ghost s = self.entries_model();
        let ghost e = (pkg_id@, item@);
        if item.name().is_none() {
            return Err(RuleError::Unnamed);
        }
        let mut present = false;
        let mut clash = false;
        let mut i: usize = 0;
        while i < self.entries.len()
            invariant
                self.wf(),
                self.entries_model() == s,
                s == old(self).entries_model(),
                e == (pkg_id@, item@),
                item@ == rule.rule_model(),
                e.1.is_named(),
                i <= self.entries.len(),
                present == exists|j: int| 0 <= j < i && s[j] == e,
                clash == exists|j: int| 0 <= j < i && s[j].1.name() == e.1.name() && s[j] != e,
            decreases self.entries.len() - i,
        {
            assert(s[i as int] == (self.entries@[i as int].0@, self.entries@[i as int].1@));
            if str_same(self.entries[i].1.name_text(), item.name_text()) {
                if self.entries[i].0.same(pkg_id) && self.entries[i].1.same(&item) {
                    present = true;
                } else {
                    clash = true;
                }
            }
            i = i + 1;
        }
        if present {
            proof {
                let j = choose|j: int| 0 <= j < s.len() && s[j] == e;
                assert(s.contains(e));
                assert(self@.insert(e) =~= self@);
            }
            return Ok(());
        }
        assert(!s.contains(e));
        let mut pos: usize = 0;
        while pos < self.entries.len() && !entry_less(
            pkg_id,
            &item,
            &self.entries[pos].0,
            &self.entries[pos].1,
        )
            invariant
                self.wf(),
                self.entries_model() == s,
                s == old(self).entries_model(),
                e == (pkg_id@, item@),
                pos <= self.entries.len(),
                forall|j: int| 0 <= j < pos ==> !entry_lt(e, #[trigger] s[j]),
            decreases self.entries.len() - pos,
        {
            assert(s[pos as int] == (self.entries@[pos as int].0@, self.entries@[pos as int].1@));
            pos = pos + 1;
        }
        if pos < self.entries.len() {
            assert(s[pos as int] == (self.entries@[pos as int].0@, self.entries@[pos as int].1@));
        }
        let is_run = item.is_buildscript_run();
        self.entries.insert(pos, (pkg_id.duplicate(), item));
        if clash {
            self.name_clash = true;
        }
        if is_run {
            self.add_buildscript_run_import = true;
        }
        proof {
            let n = self.entries_model();
            assert(n =~= s.insert(pos as int, e));
            lemma_insert_keeps_order(s, e, pos as int);
            let a = old(self)@;
            assert forall|x: Entry| n.contains(x) <==> (s.contains(x) || x == e) by {
                if n.contains(x) {
                    let k = choose|k: int| 0 <= k < n.len() && n[k] == x;
                    if k < pos {
                        assert(s[k] == x);
                    } else if k > pos {
                        assert(s[k - 1] == x);
                    }
                }
                if s.contains(x) {
                    let k = choose|k: int| 0 <= k < s.len() && s[k] == x;
                    if k < pos {
                        assert(n[k] == x);
                    } else {
                        assert(n[k + 1] == x);
                    }
                }
                if x == e {
                    assert(n[pos as int] == x);
                }
            }
            assert(self@ =~= a.insert(e));
            // the clash flag
            if has_clash(self@) {
                let (x, y) = choose|x: Entry, y: Entry|
                    #[trigger] self@.contains(x) && #[trigger] self@.contains(y) && x != y
                        && x.1.name() == y.1.name();
                if a.contains(x) && a.contains(y) {
                } else {
                    let o = if x == e { y } else { x };
                    assert(a.contains(o));
                    assert(s.contains(o));
                    let j = choose|j: int| 0 <= j < s.len() && s[j] == o;
                    assert(s[j].1.name() == e.1.name() && s[j] != e);
                }
            }
            if clash {
                let j = choose|j: int| 0 <= j < s.len() && s[j].1.name() == e.1.name() && s[j] != e;
                assert(s.contains(s[j]));
                assert(self@.contains(s[j]) && self@.contains(e));
            }
            if has_clash(a) {
                let (x, y) = choose|x: Entry, y: Entry|
                    #[trigger] a.contains(x) && #[trigger] a.contains(y) && x != y && x.1.name()
                        == y.1.name();
                assert(self@.contains(x) && self@.contains(y));
            }
            // the import flag
            if is_run {
                assert(n[pos as int] == e);
            } else if has_run(n) {
                let k = choose|k: int| 0 <= k < n.len() && (#[trigger] n[k]).1 is BuildScriptRun;
                if k < pos {
                    assert(n[k] == s[k]);
                } else {
                    assert(n[k] == s[k - 1]);
                }
            }
            if has_run(s) {
                let k = choose|k: int| 0 <= k < s.len() && (#[trigger] s[k]).1 is BuildScriptRun;
                if k < pos {
                    assert(n[k] == s[k]);
                } else {
                    assert(n[k + 1] == s[k]);
                }
            }
        }
        Ok(())
    }

/// The rules in emission order: the `load` directive for `buildscript_run`
    /// first when a `buildscript_run` rule is stored, then every stored rule,
    /// package by package in the store's order; an error when two different
    /// rules were added under one name.
    pub fn into_rules(self) -> (r: Result<Vec<InternalRule>, RuleError>)
        requires
            self.wf(),
        ensures
            has_clash(self@) ==> r == Err::<Vec<InternalRule>, RuleError>(RuleError::NameClash),
            !has_clash(self@) ==> r is Ok && r->Ok_0@.map_values(|x: InternalRule| x@)
                == emitted(ordered(self@)),
            !has_clash(self@) ==> entries_wf(ordered(self@)) && forall|x: Entry|
                #[trigger] ordered(self@).contains(x) <==> self@.contains(x),
    {
        if self.name_clash {
            return Err(RuleError::NameClash);
        }
        let ghost s = self.entries_model();
        proof {
            lemma_unclashed_ordered(s, self@);
        }
        let mut out: Vec<InternalRule> = Vec::new();
        if self.add_buildscript_run_import {
            proof {
                reveal_strlit("@prelude//rust:cargo_buildscript.bzl");
                reveal_strlit("buildscript_run");
            }
            out.push(
                InternalRule::Load(
                    Load(
                        "@prelude//rust:cargo_buildscript.bzl".to_owned(),
                        "buildscript_run".to_owned(),
                    ),
                ),
            );
        }
        let ghost head = out@.map_values(|x: InternalRule| x@);
        assert(head == (if has_run(s) { seq![load_model()] } else { Seq::<RuleModel>::empty() }));
        let mut rest = self.entries;
        let ghost all = rest@;
        let ghost mut k: int = 0;
        while rest.len() > 0
            invariant
                0 <= k <= all.len(),
                rest@ == all.subrange(k, all.len() as int),
                out@.map_values(|x: InternalRule| x@) == head + all.subrange(0, k).map_values(
                    |p: (PackageKey, InternalRule)| p.1@,
                ),
            decreases rest.len(),
        {
            let item = rest.remove(0);
            assert(item == all[k]);
            let rule = item.1;
            let ghost prev = out@;
            out.push(rule);
            proof {
                assert(out@.map_values(|x: InternalRule| x@) =~= prev.map_values(
                    |x: InternalRule| x@,
                ).push(all[k].1@));
                assert(all.subrange(0, k + 1).map_values(|p: (PackageKey, InternalRule)| p.1@)
                    =~= all.subrange(0, k).map_values(|p: (PackageKey, InternalRule)| p.1@).push(
                    all[k].1@,
                ));
                k = k + 1;
                assert(rest@ =~= all.subrange(k, all.len() as int));
            }
            assert(out@.map_values(|x: InternalRule| x@) =~= head + all.subrange(0, k).map_values(
                |p: (PackageKey, InternalRule)| p.1@,
            ));
        }
        assert(all.subrange(0, k) =~= all);
        assert(all.map_values(|p: (PackageKey, InternalRule)| p.1@) =~= s.map_values(|e: Entry| e.1));
        assert(s == self.entries_model());
        assert(out@.map_values(|x: InternalRule| x@) =~= emitted(s));
        Ok(out)
    }
}

/// Inserting `e` after every entry that does not sort after it keeps the
/// entries in order, different and named.
proof fn lemma_insert_keeps_order(s: Seq<Entry>, e: Entry, pos: int)
    requires
        stored_wf(s),
        e.1.is_named(),
        !s.contains(e),
        0 <= pos <= s.len(),
        forall|j: int| 0 <= j < pos ==> !entry_lt(e, #[trigger] s[j]),
        pos < s.len() ==> entry_lt(e, s[pos]),
    ensures
        stored_wf(s.insert(pos, e)),
{
    let n = s.insert(pos, e);
    assert forall|a: int, b: int| 0 <= a < b < n.len() implies !entry_lt(n[b], n[a]) by {
        if b < pos {
            assert(n[a] == s[a] && n[b] == s[b]);
        } else if b == pos {
            assert(n[a] == s[a]);
        } else if a < pos {
            assert(n[a] == s[a] && n[b] == s[b - 1]);
        } else if a == pos {
            assert(n[b] == s[b - 1]);
            if entry_lt(s[b - 1], e) {
                lemma_entry_lt_transitive(s[b - 1], e, s[pos]);
                if b - 1 == pos {
                    lemma_entry_lt_irreflexive(s[pos]);
                }
            }
        } else {
            assert(n[a] == s[a - 1] && n[b] == s[b - 1]);
        }
    }
    assert forall|a: int, b: int| 0 <= a < n.len() && 0 <= b < n.len() && a != b implies n[a] != n[b] by {
        if a != pos && b != pos {
            let a0 = if a < pos { a } else { a - 1 };
            let b0 = if b < pos { b } else { b - 1 };
            assert(n[a] == s[a0] && n[b] == s[b0]);
        } else if a == pos {
            let b0 = if b < pos { b } else { b - 1 };
            assert(n[b] == s[b0]);
            assert(s.contains(s[b0]));
        } else {
            let a0 = if a < pos { a } else { a - 1 };
            assert(n[a] == s[a0]);
            assert(s.contains(s[a0]));
        }
    }
    assert forall|a: int| 0 <= a < n.len() implies (#[trigger] n[a]).1.is_named() by {
        if a < pos {
            assert(n[a] == s[a]);
        } else if a > pos {
            assert(n[a] == s[a - 1]);
        }
    }
}

/// Stored entries without a clash are strictly ordered, and are the entries
/// of `ordered` of their set.
proof fn lemma_unclashed_ordered(s: Seq<Entry>, a: Set<Entry>)
    requires
        stored_wf(s),
        a == Set::new(|x: Entry| s.contains(x)),
        !has_clash(a),
    ensures
        entries_wf(s),
        ordered(a) == s,
{
    assert forall|i: int, j: int|
        0 <= i < s.len() && 0 <= j < s.len() && i != j implies s[i].1.name() != s[j].1.name() by {
        assert(a.contains(s[i]) && a.contains(s[j]));
    }
    assert forall|i: int, j: int| 0 <= i < j < s.len() implies entry_lt(s[i], s[j]) by {
        assert(s[i].1.name() != s[j].1.name());
        lemma_entry_lt_total(s[i], s[j]);
    }
    let c = ordered(a);
    assert(entries_wf(s) && forall|x: Entry| s.contains(x) <==> a.contains(x));
    lemma_content_determines_entries(c, s);
}

/// Adding two rules in either order gives the same store.
pub proof fn lemma_add_order_irrelevant(a: Set<Entry>, x: Entry, y: Entry)
    ensures
        add_model(add_model(a, x), y) == add_model(add_model(a, y), x),
{
    assert(add_model(add_model(a, x), y) =~= add_model(add_model(a, y), x));
}

/// Adding a rule a second time changes nothing.
pub proof fn lemma_add_idempotent(a: Set<Entry>, e: Entry)
    ensures
        add_model(add_model(a, e), e) == add_model(a, e),
{
    assert(add_model(add_model(a, e), e) =~= add_model(a, e));
}

/// Nothing added is lost or changed: adding keeps every stored entry, of this
/// package and of others, and stores the new one when it is named.
pub proof fn lemma_add_keeps(a: Set<Entry>, e: Entry)
    ensures
        forall|z: Entry| a.contains(z) ==> #[trigger] add_model(a, e).contains(z),
        e.1.is_named() ==> add_model(a, e).contains(e),
        forall|z: Entry| #[trigger] add_model(a, e).contains(z) ==> a.contains(z) || z == e,
{
}

/// A list of adds stores exactly the named entries of the list: the store
/// depends neither on the order of the calls nor on repeats among them.
pub proof fn lemma_add_list(a: Set<Entry>, es: Seq<Entry>)
    ensures
        add_list(a, es) == a.union(Set::new(|x: Entry| es.contains(x) && x.1.is_named())),
    decreases es.len(),
{
    if es.len() == 0 {
        assert(a.union(Set::new(|x: Entry| es.contains(x) && x.1.is_named())) =~= a);
    } else {
        let t = es.drop_first();
        lemma_add_list(add_model(a, es[0]), t);
        assert forall|x: Entry| es.contains(x) <==> (x == es[0] || t.contains(x)) by {
            if es.contains(x) && x != es[0] {
                let m = choose|m: int| 0 <= m < es.len() && es[m] == x;
                assert(t[m - 1] == x);
            }
            if t.contains(x) {
                let m = choose|m: int| 0 <= m < t.len() && t[m] == x;
                assert(es[m + 1] == x);
            }
            assert(es[0] == es[0] && es.contains(es[0]));
        }
        assert(add_model(a, es[0]).union(Set::new(|x: Entry| t.contains(x) && x.1.is_named()))
            =~= a.union(Set::new(|x: Entry| es.contains(x) && x.1.is_named())));
    }
}

/// Two lists of adds holding the same entries, in any order and with any
/// repeats, give the same store, hence the same emitted rules.
pub proof fn lemma_call_lists_same_store(es: Seq<Entry>, fs: Seq<Entry>)
    requires
        forall|x: Entry| es.contains(x) <==> fs.contains(x),
    ensures
        add_list(Set::empty(), es) == add_list(Set::empty(), fs),
        emitted(ordered(add_list(Set::empty(), es))) == emitted(ordered(add_list(Set::empty(), fs))),
{
    lemma_add_list(Set::empty(), es);
    lemma_add_list(Set::empty(), fs);
    assert(Set::<Entry>::empty().union(Set::new(|x: Entry| es.contains(x) && x.1.is_named()))
        =~= Set::<Entry>::empty().union(Set::new(|x: Entry| fs.contains(x) && x.1.is_named())));
}

/// The `load` directive is emitted for a store exactly when a
/// `buildscript_run` rule was added to it.
pub proof fn lemma_load_iff_added_run(a: Set<Entry>, s: Seq<Entry>)
    requires
        entries_wf(s),
        forall|x: Entry| #[trigger] s.contains(x) <==> a.contains(x),
    ensures
        has_run(s) == exists|x: Entry| #[trigger] a.contains(x) && x.1 is BuildScriptRun,
{
    if has_run(s) {
        let k = choose|k: int| 0 <= k < s.len() && (#[trigger] s[k]).1 is BuildScriptRun;
        assert(s.contains(s[k]));
    }
    if exists|x: Entry| #[trigger] a.contains(x) && x.1 is BuildScriptRun {
        let x = choose|x: Entry| #[trigger] a.contains(x) && x.1 is BuildScriptRun;
        assert(s.contains(x));
        let k = choose|k: int| 0 <= k < s.len() && s[k] == x;
        assert(s[k].1 is BuildScriptRun);
    }
}

/// In the emitted rules, no two named rules share a name.
pub proof fn lemma_emitted_names_unique(s: Seq<Entry>)
    requires
        entries_wf(s),
    ensures
        forall|i: int, j: int|
            0 <= i < emitted(s).len() && 0 <= j < emitted(s).len() && i != j
                && emitted(s)[i].is_named() && emitted(s)[j].is_named() ==> emitted(s)[i].name()
                != emitted(s)[j].name(),
{
    let rules = s.map_values(|e: Entry| e.1);
    let d: int = if has_run(s) { 1 } else { 0 };
    assert forall|i: int, j: int|
        0 <= i < emitted(s).len() && 0 <= j < emitted(s).len() && i != j
            && emitted(s)[i].is_named() && emitted(s)[j].is_named() implies emitted(s)[i].name()
        != emitted(s)[j].name() by {
        if d == 1 {
            assert(emitted(s)[0] == load_model());
        }
        assert(emitted(s)[i] == s[i - d].1);
        assert(emitted(s)[j] == s[j - d].1);
    }
}

/// The `load` directive is emitted exactly when a `buildscript_run` rule is,
/// and then it comes first.
pub proof fn lemma_load_iff_run(s: Seq<Entry>)
    requires
        entries_wf(s),
    ensures
        emitted(s).contains(load_model()) <==> (exists|i: int|
            0 <= i < emitted(s).len() && (#[trigger] emitted(s)[i]) is BuildScriptRun),
        emitted(s).contains(load_model()) ==> emitted(s)[0] == load_model(),
{
    let d: int = if has_run(s) { 1 } else { 0 };
    assert forall|i: int| d <= i < emitted(s).len() implies (#[trigger] emitted(s)[i]) == s[i - d].1 by {}
    if has_run(s) {
        let k = choose|k: int| 0 <= k < s.len() && (#[trigger] s[k]).1 is BuildScriptRun;
        assert(emitted(s)[k + 1] is BuildScriptRun);
        assert(emitted(s)[0] == load_model());
    } else {
        if emitted(s).contains(load_model()) {
            let k = choose|k: int| 0 <= k < emitted(s).len() && emitted(s)[k] == load_model();
            assert(s[k].1.is_named());
        }
        if exists|i: int| 0 <= i < emitted(s).len() && (#[trigger] emitted(s)[i]) is BuildScriptRun {
            let k = choose|k: int| 0 <= k < emitted(s).len() && (#[trigger] emitted(s)[k]) is BuildScriptRun;
            assert(s[k].1 is BuildScriptRun);
        }
    }
}


} // verus!
