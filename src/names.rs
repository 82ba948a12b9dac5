//! Inputs from the resolver, and the texts derived from them: versions,
//! rule names, references, dependency lists, feature lists and environments.
use vstd::prelude::*;
use crate::rules::PairsModel;
use crate::text::{
    decimal, decimal_string, lemma_str_lt_irreflexive, lemma_str_lt_total, lemma_str_lt_transitive,
    str_less, str_lt,
};

verus! {

/// A semantic version.
pub struct Version {
    pub major: u64,
    pub minor: u64,
    pub patch: u64,
    /// Pre-release identifiers, empty when there are none.
    pub pre: String,
    /// Build metadata, empty when there is none.
    pub build: String,
}

pub ghost struct VersionModel {
    pub major: nat,
    pub minor: nat,
    pub patch: nat,
    pub pre: Seq<char>,
    pub build: Seq<char>,
}

impl View for Version {
    type V = VersionModel;

    open spec fn view(&self) -> VersionModel {
        VersionModel {
            major: self.major as nat,
            minor: self.minor as nat,
            patch: self.patch as nat,
            pre: self.pre@,
            build: self.build@,
        }
    }
}

/// One resolved dependency edge: the package depended on, and the name the
/// dependent gave it, if it renamed it.
pub struct DepEdge {
    pub name: String,
    pub version: Version,
    pub alias: Option<String>,
}

pub ghost struct DepEdgeModel {
    pub name: Seq<char>,
    pub version: VersionModel,
    pub alias: Option<Seq<char>>,
}

impl View for DepEdge {
    type V = DepEdgeModel;

    open spec fn view(&self) -> DepEdgeModel {
        DepEdgeModel {
            name: self.name@,
            version: self.version@,
            alias: match self.alias {
                Some(a) => Some(a@),
                None => None,
            },
        }
    }
}

/// `major.minor.patch`, then `-pre` and `+build` when present.
pub open spec fn version_text(v: VersionModel) -> Seq<char> {
    decimal(v.major) + "."@ + decimal(v.minor) + "."@ + decimal(v.patch) + (if v.pre.len() > 0 {
        "-"@ + v.pre
    } else {
        Seq::empty()
    }) + (if v.build.len() > 0 {
        "+"@ + v.build
    } else {
        Seq::empty()
    })
}

/// `<name>-<version>`.
pub open spec fn crate_id(name: Seq<char>, v: VersionModel) -> Seq<char> {
    name + "-"@ + version_text(v)
}

/// A reference to the rule called `name`.
pub open spec fn label(name: Seq<char>) -> Seq<char> {
    ":"@ + name
}

/// Where a dependency edge points: `:<name>-<version>`.
pub open spec fn dep_label(d: DepEdgeModel) -> Seq<char> {
    label(crate_id(d.name, d.version))
}

/// References to the dependencies that were not renamed, in edge order.
pub open spec fn positional_deps(deps: Seq<DepEdgeModel>) -> Seq<Seq<char>>
    decreases deps.len(),
{
    if deps.len() == 0 {
        Seq::empty()
    } else {
        let rest = positional_deps(deps.drop_last());
        if deps.last().alias is None {
            rest.push(dep_label(deps.last()))
        } else {
            rest
        }
    }
}

/// `l` with the entry for key `k` set to `v`; keys stay in order and unique
/// when they were.
pub open spec fn assoc_insert(l: PairsModel, k: Seq<char>, v: Seq<char>) -> PairsModel
    decreases l.len(),
{
    if l.len() == 0 {
        seq![(k, v)]
    } else if l[0].0 == k {
        seq![(k, v)] + l.drop_first()
    } else if str_lt(k, l[0].0) {
        seq![(k, v)] + l
    } else {
        seq![l[0]] + assoc_insert(l.drop_first(), k, v)
    }
}

/// The renamed dependencies as alias/reference entries ordered by alias; a
/// later edge with the same alias replaces an earlier one.
pub open spec fn aliased_deps(deps: Seq<DepEdgeModel>) -> PairsModel
    decreases deps.len(),
{
    if deps.len() == 0 {
        Seq::empty()
    } else {
        let rest = aliased_deps(deps.drop_last());
        match deps.last().alias {
            Some(a) => assoc_insert(rest, a, dep_label(deps.last())),
            None => rest,
        }
    }
}

/// The aliased-reference mapping, absent when no edge was renamed.
pub open spec fn named_deps_of(deps: Seq<DepEdgeModel>) -> Option<PairsModel> {
    if aliased_deps(deps).len() == 0 {
        None
    } else {
        Some(aliased_deps(deps))
    }
}

/// `l` with `x` added; elements stay in order and unique when they were.
pub open spec fn set_insert(l: Seq<Seq<char>>, x: Seq<char>) -> Seq<Seq<char>>
    decreases l.len(),
{
    if l.len() == 0 {
        seq![x]
    } else if l[0] == x {
        l
    } else if str_lt(x, l[0]) {
        seq![x] + l
    } else {
        seq![l[0]] + set_insert(l.drop_first(), x)
    }
}

/// The distinct features, in order.
pub open spec fn sorted_features(fs: Seq<Seq<char>>) -> Seq<Seq<char>>
    decreases fs.len(),
{
    if fs.len() == 0 {
        Seq::empty()
    } else {
        set_insert(sorted_features(fs.drop_last()), fs.last())
    }
}

/// `a` followed by `b`.
pub fn cat(a: &str, b: &str) -> (r: String)
    ensures
        r@ == a@ + b@,
{
    let mut s = a.to_owned();
    s.append(b);
    s
}

/// The version's text, as `version_text` gives it.
pub fn version_string(v: &Version) -> (r: String)
    ensures
        r@ == version_text(v@),
{
    proof {
        reveal_strlit(".");
        reveal_strlit("-");
        reveal_strlit("+");
    }
    let mut s = decimal_string(v.major);
    s.append(".");
    s.append(decimal_string(v.minor).as_str());
    s.append(".");
    s.append(decimal_string(v.patch).as_str());
    if v.pre.unicode_len() > 0 {
        s.append("-");
        s.append(v.pre.as_str());
    } else {
        assert(s@ + Seq::<char>::empty() =~= s@);
    }
    if v.build.unicode_len() > 0 {
        s.append("+");
        s.append(v.build.as_str());
    } else {
        assert(s@ + Seq::<char>::empty() =~= s@);
    }
    assert(s@ =~= version_text(v@));
    s
}

/// `<name>-<version>`.
pub fn crate_id_string(name: &str, v: &Version) -> (r: String)
    ensures
        r@ == crate_id(name@, v@),
{
    proof {
        reveal_strlit("-");
    }
    let s = cat(name, "-");
    let r = cat(s.as_str(), version_string(v).as_str());
    assert(r@ =~= crate_id(name@, v@));
    r
}

/// A reference to the rule called `name`.
pub fn label_string(name: &str) -> (r: String)
    ensures
        r@ == label(name@),
{
    proof {
        reveal_strlit(":");
    }
    cat(":", name)
}

proof fn lemma_set_insert_at(l: Seq<Seq<char>>, x: Seq<char>, i: int)
    requires
        0 <= i <= l.len(),
        forall|j: int| 0 <= j < i ==> l[j] != x && !str_lt(x, #[trigger] l[j]),
        i < l.len() ==> l[i] == x || str_lt(x, l[i]),
    ensures
        set_insert(l, x) == (if i < l.len() && l[i] == x { l } else { l.insert(i, x) }),
    decreases i,
{
    if i == 0 {
        if l.len() > 0 && l[0] != x {
            assert(l.insert(0, x) =~= seq![x] + l);
        }
        if l.len() == 0 {
            assert(l.insert(0, x) =~= seq![x]);
        }
    } else {
        let t = l.drop_first();
        assert forall|j: int| 0 <= j < i - 1 implies t[j] != x && !str_lt(x, #[trigger] t[j]) by {
            assert(t[j] == l[j + 1]);
        }
        lemma_set_insert_at(t, x, i - 1);
        assert(l[0] != x && !str_lt(x, l[0]));
        if i < l.len() && l[i] == x {
            assert(l =~= seq![l[0]] + t);
        } else {
            assert(l.insert(i, x) =~= seq![l[0]] + t.insert(i - 1, x));
        }
    }
}

/// Adds `x` to the ordered list `l` unless it is there already.
pub fn insert_sorted(l: &mut Vec<String>, x: String)
    ensures
        final(l).deep_view() == set_insert(old(l).deep_view(), x@),
{
    let ghost s = l.deep_view();
    let mut i: usize = 0;
    while i < l.len() && l[i] != x && !str_less(x.as_str(), l[i].as_str())
        invariant
            s == l.deep_view(),
            i <= l.len(),
            forall|j: int| 0 <= j < i ==> s[j] != x@ && !str_lt(x@, #[trigger] s[j]),
        decreases l.len() - i,
    {
        i = i + 1;
    }
    proof {
        lemma_set_insert_at(s, x@, i as int);
    }
    if i < l.len() && l[i] == x {
        return;
    }
    l.insert(i, x);
    assert(l.deep_view() =~= s.insert(i as int, x@));
}

/// The package's features, distinct and in order.
pub fn feature_list(fs: &Vec<String>) -> (r: Vec<String>)
    ensures
        r.deep_view() == sorted_features(fs.deep_view()),
        strictly_sorted(r.deep_view()),
        forall|y: Seq<char>| r.deep_view().contains(y) <==> fs.deep_view().contains(y),
{
    proof {
        lemma_sorted_features(fs.deep_view());
    }
    let mut out: Vec<String> = Vec::new();
    let mut i: usize = 0;
    while i < fs.len()
        invariant
            i <= fs.len(),
            out.deep_view() == sorted_features(fs.deep_view().take(i as int)),
        decreases fs.len() - i,
    {
        proof {
            assert(fs.deep_view().take(i + 1).drop_last() =~= fs.deep_view().take(i as int));
        }
        insert_sorted(&mut out, fs[i].clone());
        i = i + 1;
    }
    assert(fs.deep_view().take(i as int) =~= fs.deep_view());
    out
}

proof fn lemma_assoc_insert_at(l: PairsModel, k: Seq<char>, v: Seq<char>, i: int)
    requires
        0 <= i <= l.len(),
        forall|j: int| 0 <= j < i ==> l[j].0 != k && !str_lt(k, #[trigger] l[j].0),
        i < l.len() ==> l[i].0 == k || str_lt(k, l[i].0),
    ensures
        assoc_insert(l, k, v) == (if i < l.len() && l[i].0 == k {
            l.update(i, (k, v))
        } else {
            l.insert(i, (k, v))
        }),
    decreases i,
{
    if i == 0 {
        if l.len() > 0 && l[0].0 == k {
            assert(l.update(0, (k, v)) =~= seq![(k, v)] + l.drop_first());
        } else if l.len() > 0 {
            assert(l.insert(0, (k, v)) =~= seq![(k, v)] + l);
        } else {
            assert(l.insert(0, (k, v)) =~= seq![(k, v)]);
        }
    } else {
        let t = l.drop_first();
        assert forall|j: int| 0 <= j < i - 1 implies t[j].0 != k && !str_lt(k, #[trigger] t[j].0) by {
            assert(t[j] == l[j + 1]);
        }
        lemma_assoc_insert_at(t, k, v, i - 1);
        assert(l[0].0 != k && !str_lt(k, l[0].0));
        if i < l.len() && l[i].0 == k {
            assert(l.update(i, (k, v)) =~= seq![l[0]] + t.update(i - 1, (k, v)));
        } else {
            assert(l.insert(i, (k, v)) =~= seq![l[0]] + t.insert(i - 1, (k, v)));
        }
    }
}

/// Sets the entry for key `k` to `v` in the key-ordered list `l`.
fn assoc_set(l: &mut Vec<(String, String)>, k: String, v: String)
    ensures
        final(l).deep_view() == assoc_insert(old(l).deep_view(), k@, v@),
{
    let ghost s = l.deep_view();
    let mut i: usize = 0;
    while i < l.len() && l[i].0 != k && !str_less(k.as_str(), l[i].0.as_str())
        invariant
            s == l.deep_view(),
            i <= l.len(),
            forall|j: int| 0 <= j < i ==> s[j].0 != k@ && !str_lt(k@, #[trigger] s[j].0),
        decreases l.len() - i,
    {
        i = i + 1;
    }
    proof {
        lemma_assoc_insert_at(s, k@, v@, i as int);
    }
    if i < l.len() && l[i].0 == k {
        l.set(i, (k, v));
        assert(l.deep_view() =~= s.update(i as int, (k@, v@)));
        return;
    }
    l.insert(i, (k, v));
    assert(l.deep_view() =~= s.insert(i as int, (k@, v@)));
}

/// The reference for a dependency edge.
pub fn dep_label_string(d: &DepEdge) -> (r: String)
    ensures
        r@ == dep_label(d@),
{
    label_string(crate_id_string(d.name.as_str(), &d.version).as_str())
}

/// References to the dependencies that were not renamed.
pub fn positional_dep_list(deps: &Vec<DepEdge>) -> (r: Vec<String>)
    ensures
        r.deep_view() == positional_deps(deps@.map_values(|d: DepEdge| d@)),
{
    let ghost m = deps@.map_values(|d: DepEdge| d@);
    let mut out: Vec<String> = Vec::new();
    let mut i: usize = 0;
    while i < deps.len()
        invariant
            i <= deps.len(),
            m == deps@.map_values(|d: DepEdge| d@),
            out.deep_view() == positional_deps(m.take(i as int)),
        decreases deps.len() - i,
    {
        assert(m.take(i + 1).drop_last() =~= m.take(i as int));
        assert(m.take(i + 1).last() == deps[i as int]@);
        if deps[i].alias.is_none() {
            let ghost prev = out.deep_view();
            out.push(dep_label_string(&deps[i]));
            assert(out.deep_view() =~= prev.push(dep_label(deps[i as int]@)));
        }
        i = i + 1;
    }
    assert(m.take(i as int) =~= m);
    out
}

/// The aliased-reference mapping, `None` when no edge was renamed.
pub fn named_dep_map(deps: &Vec<DepEdge>) -> (r: Option<Vec<(String, String)>>)
    ensures
        r.deep_view() == named_deps_of(deps@.map_values(|d: DepEdge| d@)),
        r is None <==> forall|i: int| 0 <= i < deps.len() ==> deps[i].alias is None,
        r is Some ==> keys_sorted(r->Some_0.deep_view()),
        r is Some ==> forall|a: Seq<char>, b: Seq<char>|
            #[trigger] r->Some_0.deep_view().contains((a, b)) <==> last_alias_is(
                deps@.map_values(|d: DepEdge| d@),
                a,
                b,
            ),
{
    proof {
        lemma_aliased_deps(deps@.map_values(|d: DepEdge| d@));
        lemma_aliased_deps_empty(deps@.map_values(|d: DepEdge| d@));
    }
    let ghost m = deps@.map_values(|d: DepEdge| d@);
    let mut out: Vec<(String, String)> = Vec::new();
    let mut i: usize = 0;
    while i < deps.len()
        invariant
            i <= deps.len(),
            m == deps@.map_values(|d: DepEdge| d@),
            out.deep_view() == aliased_deps(m.take(i as int)),
        decreases deps.len() - i,
    {
        assert(m.take(i + 1).drop_last() =~= m.take(i as int));
        assert(m.take(i + 1).last() == deps[i as int]@);
        match &deps[i].alias {
            Some(a) => {
                assoc_set(&mut out, a.clone(), dep_label_string(&deps[i]));
            },
            None => {},
        }
        i = i + 1;
    }
    assert(m.take(i as int) =~= m);
    if out.len() == 0 {
        assert(out.deep_view().len() == 0);
        assert forall|j: int| 0 <= j < deps.len() implies deps[j].alias is None by {
            assert(m[j].alias is None);
        }
        None
    } else {
        assert(out.deep_view().len() > 0);
        let ghost j = choose|j: int| 0 <= j < m.len() && !((#[trigger] m[j]).alias is None);
        assert(!(deps[j].alias is None));
        Some(out)
    }
}


/// Strictly increasing texts: sorted and without repeats.
pub open spec fn strictly_sorted(l: Seq<Seq<char>>) -> bool {
    forall|i: int, j: int| 0 <= i < j < l.len() ==> str_lt(l[i], l[j])
}

/// Keys strictly increasing: sorted by key, each key once.
pub open spec fn keys_sorted(l: PairsModel) -> bool {
    forall|i: int, j: int| 0 <= i < j < l.len() ==> str_lt(l[i].0, l[j].0)
}

pub proof fn lemma_set_insert(l: Seq<Seq<char>>, x: Seq<char>)
    requires
        strictly_sorted(l),
    ensures
        strictly_sorted(set_insert(l, x)),
        forall|y: Seq<char>| #[trigger] set_insert(l, x).contains(y) <==> (l.contains(y) || y == x),
    decreases l.len(),
{
    let r = set_insert(l, x);
    if l.len() == 0 {
        assert(r[0] == x);
    } else if l[0] == x {
    } else if str_lt(x, l[0]) {
        assert forall|i: int, j: int| 0 <= i < j < r.len() implies str_lt(r[i], r[j]) by {
            if i == 0 && j > 1 {
                lemma_str_lt_transitive(x, l[0], l[j - 1]);
            }
            if i > 0 {
                assert(r[i] == l[i - 1] && r[j] == l[j - 1]);
            }
        }
        assert forall|y: Seq<char>| r.contains(y) <==> (l.contains(y) || y == x) by {
            if r.contains(y) {
                let k = choose|k: int| 0 <= k < r.len() && r[k] == y;
                if k > 0 {
                    assert(l[k - 1] == y);
                }
            }
            if l.contains(y) {
                let k = choose|k: int| 0 <= k < l.len() && l[k] == y;
                assert(r[k + 1] == y);
            }
            if y == x {
                assert(r[0] == y);
            }
        }
    } else {
        let t = l.drop_first();
        assert forall|i: int, j: int| 0 <= i < j < t.len() implies str_lt(t[i], t[j]) by {
            assert(t[i] == l[i + 1] && t[j] == l[j + 1]);
        }
        lemma_set_insert(t, x);
        let rt = set_insert(t, x);
        lemma_str_lt_total(x, l[0]);
        assert forall|k: int| 0 <= k < rt.len() implies str_lt(l[0], #[trigger] rt[k]) by {
            assert(rt.contains(rt[k]));
            if rt[k] != x {
                assert(t.contains(rt[k]));
                let m = choose|m: int| 0 <= m < t.len() && t[m] == rt[k];
                assert(l[m + 1] == t[m]);
            }
        }
        assert forall|i: int, j: int| 0 <= i < j < r.len() implies str_lt(r[i], r[j]) by {
            if i == 0 {
                assert(r[j] == rt[j - 1]);
            } else {
                assert(r[i] == rt[i - 1] && r[j] == rt[j - 1]);
            }
        }
        assert forall|y: Seq<char>| r.contains(y) <==> (l.contains(y) || y == x) by {
            if r.contains(y) {
                let k = choose|k: int| 0 <= k < r.len() && r[k] == y;
                if k > 0 {
                    assert(rt[k - 1] == y);
                    assert(rt.contains(y));
                    if y != x {
                        assert(t.contains(y));
                        let m = choose|m: int| 0 <= m < t.len() && t[m] == y;
                        assert(l[m + 1] == y);
                    }
                }
            }
            if l.contains(y) {
                let k = choose|k: int| 0 <= k < l.len() && l[k] == y;
                if k > 0 {
                    assert(t[k - 1] == y);
                    assert(t.contains(y));
                    assert(rt.contains(y));
                    let m = choose|m: int| 0 <= m < rt.len() && rt[m] == y;
                    assert(r[m + 1] == y);
                } else {
                    assert(r[0] == y);
                }
            }
            if y == x {
                assert(rt.contains(x));
                let m = choose|m: int| 0 <= m < rt.len() && rt[m] == x;
                assert(r[m + 1] == y);
            }
        }
    }
}

/// The feature list is strictly sorted and holds exactly the given features.
pub proof fn lemma_sorted_features(fs: Seq<Seq<char>>)
    ensures
        strictly_sorted(sorted_features(fs)),
        forall|y: Seq<char>| #[trigger] sorted_features(fs).contains(y) <==> fs.contains(y),
    decreases fs.len(),
{
    if fs.len() > 0 {
        let init = fs.drop_last();
        lemma_sorted_features(init);
        lemma_set_insert(sorted_features(init), fs.last());
        assert forall|y: Seq<char>| #[trigger] sorted_features(fs).contains(y) <==> fs.contains(y) by {
            if init.contains(y) {
                let k = choose|k: int| 0 <= k < init.len() && init[k] == y;
                assert(fs[k] == y);
            }
            if fs.contains(y) {
                let k = choose|k: int| 0 <= k < fs.len() && fs[k] == y;
                if k < fs.len() - 1 {
                    assert(init[k] == y);
                }
            }
        }
    }
}


pub proof fn lemma_assoc_insert(l: PairsModel, k: Seq<char>, v: Seq<char>)
    requires
        keys_sorted(l),
    ensures
        keys_sorted(assoc_insert(l, k, v)),
        forall|a: Seq<char>, b: Seq<char>|
            #[trigger] assoc_insert(l, k, v).contains((a, b)) <==> ((a == k && b == v) || (a != k
                && l.contains((a, b)))),
    decreases l.len(),
{
    let r = assoc_insert(l, k, v);
    if l.len() == 0 {
        assert forall|a: Seq<char>, b: Seq<char>| r.contains((a, b)) <==> ((a == k && b == v) || (a
            != k && l.contains((a, b)))) by {
            if r.contains((a, b)) {
                assert(r[0] == (a, b));
            }
            if a == k && b == v {
                assert(r[0] == (a, b));
            }
        }
    } else if l[0].0 == k || str_lt(k, l[0].0) {
        let t = if l[0].0 == k { l.drop_first() } else { l };
        assert(r == seq![(k, v)] + t);
        assert forall|i: int, j: int| 0 <= i < j < r.len() implies str_lt(r[i].0, r[j].0) by {
            if i == 0 {
                if l[0].0 == k {
                    assert(r[j] == l[j]);
                } else if j > 1 {
                    lemma_str_lt_transitive(k, l[0].0, l[j - 1].0);
                }
            } else {
                if l[0].0 == k {
                    assert(r[i] == l[i] && r[j] == l[j]);
                } else {
                    assert(r[i] == l[i - 1] && r[j] == l[j - 1]);
                }
            }
        }
        assert forall|a: Seq<char>, b: Seq<char>| r.contains((a, b)) <==> ((a == k && b == v) || (a
            != k && l.contains((a, b)))) by {
            if r.contains((a, b)) {
                let m = choose|m: int| 0 <= m < r.len() && r[m] == (a, b);
                if m > 0 {
                    if l[0].0 == k {
                        assert(l[m] == (a, b));
                        assert(str_lt(l[0].0, l[m].0));
                        lemma_str_lt_irreflexive(k);
                    } else {
                        assert(l[m - 1] == (a, b));
                        if m - 1 > 0 {
                            assert(str_lt(l[0].0, l[m - 1].0));
                            lemma_str_lt_transitive(k, l[0].0, l[m - 1].0);
                        }
                        lemma_str_lt_irreflexive(k);
                    }
                }
            }
            if a != k && l.contains((a, b)) {
                let m = choose|m: int| 0 <= m < l.len() && l[m] == (a, b);
                if l[0].0 == k {
                    assert(m > 0);
                    assert(r[m] == (a, b));
                } else {
                    assert(r[m + 1] == (a, b));
                }
            }
            if a == k && b == v {
                assert(r[0] == (a, b));
            }
        }
    } else {
        let t = l.drop_first();
        assert forall|i: int, j: int| 0 <= i < j < t.len() implies str_lt(t[i].0, t[j].0) by {
            assert(t[i] == l[i + 1] && t[j] == l[j + 1]);
        }
        lemma_assoc_insert(t, k, v);
        let rt = assoc_insert(t, k, v);
        lemma_str_lt_total(k, l[0].0);
        assert forall|m: int| 0 <= m < rt.len() implies str_lt(l[0].0, #[trigger] rt[m].0) by {
            assert(rt.contains(rt[m]));
            let (a, b) = rt[m];
            assert(rt.contains((a, b)));
            if a != k {
                assert(t.contains((a, b)));
                let q = choose|q: int| 0 <= q < t.len() && t[q] == (a, b);
                assert(l[q + 1] == t[q]);
            }
        }
        assert forall|i: int, j: int| 0 <= i < j < r.len() implies str_lt(r[i].0, r[j].0) by {
            if i == 0 {
                assert(r[j] == rt[j - 1]);
            } else {
                assert(r[i] == rt[i - 1] && r[j] == rt[j - 1]);
            }
        }
        assert forall|a: Seq<char>, b: Seq<char>| r.contains((a, b)) <==> ((a == k && b == v) || (a
            != k && l.contains((a, b)))) by {
            if r.contains((a, b)) {
                let m = choose|m: int| 0 <= m < r.len() && r[m] == (a, b);
                if m > 0 {
                    assert(rt[m - 1] == (a, b));
                    assert(rt.contains((a, b)));
                    if a != k {
                        let q = choose|q: int| 0 <= q < t.len() && t[q] == (a, b);
                        assert(l[q + 1] == (a, b));
                    }
                }
            }
            if a != k && l.contains((a, b)) {
                let m = choose|m: int| 0 <= m < l.len() && l[m] == (a, b);
                if m > 0 {
                    assert(t[m - 1] == (a, b));
                    assert(t.contains((a, b)));
                    assert(rt.contains((a, b)));
                    let q = choose|q: int| 0 <= q < rt.len() && rt[q] == (a, b);
                    assert(r[q + 1] == (a, b));
                } else {
                    assert(r[0] == (a, b));
                }
            }
            if r.contains((a, b)) && !(a == k && b == v) {
                let m = choose|m: int| 0 <= m < r.len() && r[m] == (a, b);
                if m == 0 {
                    assert(l[0] == (a, b));
                }
            }
            if a == k && b == v {
                assert(rt.contains((a, b)));
                let q = choose|q: int| 0 <= q < rt.len() && rt[q] == (a, b);
                assert(r[q + 1] == (a, b));
            }
        }
    }
}

proof fn lemma_assoc_insert_len(l: PairsModel, k: Seq<char>, v: Seq<char>)
    ensures
        assoc_insert(l, k, v).len() >= l.len(),
        assoc_insert(l, k, v).len() >= 1,
    decreases l.len(),
{
    if l.len() > 0 {
        lemma_assoc_insert_len(l.drop_first(), k, v);
    }
}

/// No entry in the alias mapping exactly when no edge was renamed.
pub proof fn lemma_aliased_deps_empty(deps: Seq<DepEdgeModel>)
    ensures
        (aliased_deps(deps).len() == 0) <==> forall|i: int|
            0 <= i < deps.len() ==> (#[trigger] deps[i]).alias is None,
    decreases deps.len(),
{
    if deps.len() > 0 {
        let init = deps.drop_last();
        lemma_aliased_deps_empty(init);
        if let Some(a0) = deps.last().alias {
            lemma_assoc_insert_len(aliased_deps(init), a0, dep_label(deps.last()));
        }
        if forall|i: int| 0 <= i < init.len() ==> (#[trigger] init[i]).alias is None {
            assert forall|i: int| 0 <= i < deps.len() - 1 implies (#[trigger] deps[i]).alias is None by {
                assert(init[i] == deps[i]);
            }
        } else {
            let i = choose|i: int| 0 <= i < init.len() && !((#[trigger] init[i]).alias is None);
            assert(deps[i] == init[i]);
        }
    }
}

/// Whether `b` is the reference of the last edge of `deps` renamed to `a`.
pub open spec fn last_alias_is(deps: Seq<DepEdgeModel>, a: Seq<char>, b: Seq<char>) -> bool {
    exists|i: int|
        0 <= i < deps.len() && (#[trigger] deps[i]).alias == Some(a) && dep_label(deps[i]) == b
            && forall|j: int| i < j < deps.len() ==> deps[j].alias != Some(a)
}

/// The alias mapping is ordered by alias, and maps each alias to the
/// reference of the last edge renamed to it.
pub proof fn lemma_aliased_deps(deps: Seq<DepEdgeModel>)
    ensures
        keys_sorted(aliased_deps(deps)),
        forall|a: Seq<char>, b: Seq<char>|
            #[trigger] aliased_deps(deps).contains((a, b)) <==> last_alias_is(deps, a, b),
    decreases deps.len(),
{
    if deps.len() == 0 {
        assert forall|a: Seq<char>, b: Seq<char>| !last_alias_is(deps, a, b) by {}
    } else {
        let init = deps.drop_last();
        let n = deps.len() - 1;
        lemma_aliased_deps(init);
        let rest = aliased_deps(init);
        if let Some(a0) = deps.last().alias {
            lemma_assoc_insert(rest, a0, dep_label(deps.last()));
        }
        assert forall|a: Seq<char>, b: Seq<char>|
            #[trigger] aliased_deps(deps).contains((a, b)) <==> last_alias_is(deps, a, b) by {
            if deps[n].alias == Some(a) {
                if last_alias_is(deps, a, b) {
                    let i = choose|i: int|
                        0 <= i < deps.len() && (#[trigger] deps[i]).alias == Some(a) && dep_label(
                            deps[i],
                        ) == b && forall|j: int| i < j < deps.len() ==> deps[j].alias != Some(a);
                    assert(i == n);
                }
                if aliased_deps(deps).contains((a, b)) {
                    assert(deps[n].alias == Some(a) && dep_label(deps[n]) == b);
                }
            } else {
                if last_alias_is(deps, a, b) {
                    let i = choose|i: int|
                        0 <= i < deps.len() && (#[trigger] deps[i]).alias == Some(a) && dep_label(
                            deps[i],
                        ) == b && forall|j: int| i < j < deps.len() ==> deps[j].alias != Some(a);
                    assert(i < n);
                    assert(init[i] == deps[i]);
                    assert forall|j: int| i < j < init.len() implies init[j].alias != Some(a) by {
                        assert(init[j] == deps[j]);
                    }
                    assert(last_alias_is(init, a, b));
                }
                if last_alias_is(init, a, b) {
                    let i = choose|i: int|
                        0 <= i < init.len() && (#[trigger] init[i]).alias == Some(a) && dep_label(
                            init[i],
                        ) == b && forall|j: int| i < j < init.len() ==> init[j].alias != Some(a);
                    assert(deps[i] == init[i]);
                    assert forall|j: int| i < j < deps.len() implies deps[j].alias != Some(a) by {
                        if j < n {
                            assert(init[j] == deps[j]);
                        }
                    }
                    assert(last_alias_is(deps, a, b));
                }
            }
        }
    }
}


/// Two strictly sorted lists holding the same texts are equal.
pub proof fn lemma_sorted_content_determines(a: Seq<Seq<char>>, b: Seq<Seq<char>>)
    requires
        strictly_sorted(a),
        strictly_sorted(b),
        forall|x: Seq<char>| a.contains(x) <==> b.contains(x),
    ensures
        a == b,
    decreases a.len(),
{
    if a.len() == 0 {
        if b.len() > 0 {
            assert(b.contains(b[0]));
        }
        assert(a =~= b);
    } else {
        assert(a.contains(a[0]));
        let j = choose|j: int| 0 <= j < b.len() && b[j] == a[0];
        assert(b.contains(b[0]));
        let i = choose|i: int| 0 <= i < a.len() && a[i] == b[0];
        if j > 0 {
            if i > 0 {
                lemma_str_lt_transitive(b[0], b[j], a[i]);
            }
            lemma_str_lt_irreflexive(b[0]);
        }
        let ta = a.drop_first();
        let tb = b.drop_first();
        assert forall|x: Seq<char>| ta.contains(x) <==> tb.contains(x) by {
            if ta.contains(x) {
                let k = choose|k: int| 0 <= k < ta.len() && ta[k] == x;
                assert(a[k + 1] == x);
                assert(a.contains(x));
                let m = choose|m: int| 0 <= m < b.len() && b[m] == x;
                if m == 0 {
                    assert(str_lt(a[0], a[k + 1]));
                    lemma_str_lt_irreflexive(x);
                }
                assert(tb[m - 1] == x);
            }
            if tb.contains(x) {
                let k = choose|k: int| 0 <= k < tb.len() && tb[k] == x;
                assert(b[k + 1] == x);
                assert(b.contains(x));
                let m = choose|m: int| 0 <= m < a.len() && a[m] == x;
                if m == 0 {
                    assert(str_lt(b[0], b[k + 1]));
                    lemma_str_lt_irreflexive(x);
                }
                assert(ta[m - 1] == x);
            }
        }
        assert forall|p: int, q: int| 0 <= p < q < ta.len() implies str_lt(ta[p], ta[q]) by {
            assert(ta[p] == a[p + 1] && ta[q] == a[q + 1]);
        }
        assert forall|p: int, q: int| 0 <= p < q < tb.len() implies str_lt(tb[p], tb[q]) by {
            assert(tb[p] == b[p + 1] && tb[q] == b[q + 1]);
        }
        lemma_sorted_content_determines(ta, tb);
        assert(a =~= seq![a[0]] + ta);
        assert(b =~= seq![b[0]] + tb);
    }
}


/// The feature list does not depend on the order or repeats of the features
/// given.
pub proof fn lemma_features_order_irrelevant(fs: Seq<Seq<char>>, gs: Seq<Seq<char>>)
    requires
        forall|x: Seq<char>| fs.contains(x) <==> gs.contains(x),
    ensures
        sorted_features(fs) == sorted_features(gs),
{
    lemma_sorted_features(fs);
    lemma_sorted_features(gs);
    lemma_sorted_content_determines(sorted_features(fs), sorted_features(gs));
}

} // verus!
