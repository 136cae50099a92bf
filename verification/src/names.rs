//! Unique identifiers: every named entity gets a name that no other entity
//! of its C namespace has been given before.
use vstd::prelude::*;
use vstd::string::*;
use crate::btf::Btf;
use crate::text::decimal;
use crate::text::push_decimal;
use crate::types::BtfEnum;
use crate::types::BtfType;

verus! {

/// The C namespaces in which identifiers compete. Struct, union and enum
/// tags share one; typedef names and enumerators share another.
#[derive(Debug, Clone, Copy, PartialEq, Eq, Hash, Structural)]
pub enum NamedKind {
    Composite,
    Typedef,
    Func,
}

/// How often each given name of each namespace has been handed out.
pub type Versions = Map<(NamedKind, Seq<char>), nat>;

/// Where a resolved name comes from: the namespace, the given name, and
/// the version of it that the entity got.
pub struct NameOrigin {
    pub kind: NamedKind,
    pub name: Seq<char>,
    pub version: nat,
}

/// The state of name resolution: the name each type id has been resolved to
/// (empty while unresolved), the version counters, and where each resolved
/// name comes from.
pub struct Names {
    pub resolved: Seq<Seq<char>>,
    pub versions: Versions,
    pub origins: Seq<NameOrigin>,
}

/// The state in which no name has been resolved for any of `n` types.
pub open spec fn fresh_names(n: nat) -> Names {
    Names {
        resolved: Seq::new(n, |i: int| Seq::<char>::empty()),
        versions: Map::empty(),
        origins: Seq::new(
            n,
            |i: int| NameOrigin { kind: NamedKind::Composite, name: Seq::empty(), version: 0 },
        ),
    }
}

/// How often `name` has been handed out in the namespace `kind`.
pub open spec fn version_of(versions: Versions, kind: NamedKind, name: Seq<char>) -> nat {
    if versions.contains_key((kind, name)) {
        versions[(kind, name)]
    } else {
        0
    }
}

/// The version that the next use of `name` gets. The counter stops at the
/// largest 32-bit number.
pub open spec fn next_version(versions: Versions, kind: NamedKind, name: Seq<char>) -> nat {
    let v = version_of(versions, kind, name);
    if v < u32::MAX {
        v + 1
    } else {
        v
    }
}

/// The identifier of version `v` of `name`: the name itself for the first,
/// the name with `__` and the version for the others.
pub open spec fn versioned(name: Seq<char>, v: nat) -> Seq<char> {
    if v == 1 {
        name
    } else {
        name + "__"@ + decimal(v)
    }
}

/// Resolves the name of the entity `id`, whose given name is `name`, in
/// the namespace `kind`: the identifier, and the state afterwards. The first
/// resolution takes the next version of the name; later ones repeat it.
pub open spec fn resolve_kind_name(ns: Names, kind: NamedKind, id: int, name: Seq<char>) -> (
    Seq<char>,
    Names,
) {
    if name.len() == 0 {
        (Seq::empty(), ns)
    } else if ns.resolved[id].len() == 0 {
        let v = next_version(ns.versions, kind, name);
        let r = versioned(name, v);
        (
            r,
            Names {
                resolved: ns.resolved.update(id, r),
                versions: ns.versions.insert((kind, name), v),
                origins: ns.origins.update(id, NameOrigin { kind, name, version: v }),
            },
        )
    } else {
        (ns.resolved[id], ns)
    }
}

/// Resolves the name of the type `id`. Kinds without a name of their own
/// resolve to the empty string.
pub open spec fn resolve_name(types: Seq<BtfType>, ns: Names, id: int) -> (Seq<char>, Names) {
    match types[id] {
        BtfType::Struct(t) => resolve_kind_name(ns, NamedKind::Composite, id, t.name@),
        BtfType::Union(t) => resolve_kind_name(ns, NamedKind::Composite, id, t.name@),
        BtfType::Enum(t) => resolve_kind_name(ns, NamedKind::Composite, id, t.name@),
        BtfType::Fwd(t) => resolve_kind_name(ns, NamedKind::Composite, id, t.name@),
        BtfType::Typedef(t) => resolve_kind_name(ns, NamedKind::Typedef, id, t.name@),
        BtfType::Func(t) => resolve_kind_name(ns, NamedKind::Func, id, t.name@),
        _ => (Seq::empty(), ns),
    }
}

/// Resolves the enumerator `name` of the enum `t` with id `id`. Enumerators
/// compete with typedef names, and every use counts. The first use of a name
/// keeps it; a later one is told apart by the resolved name of its enum, or
/// by the version where the enum has no name.
pub open spec fn resolve_enum_val_name(
    types: Seq<BtfType>,
    ns: Names,
    id: int,
    t: BtfEnum,
    name: Seq<char>,
) -> (Seq<char>, Names) {
    let v = next_version(ns.versions, NamedKind::Typedef, name);
    let counted = Names {
        resolved: ns.resolved,
        versions: ns.versions.insert((NamedKind::Typedef, name), v),
        origins: ns.origins,
    };
    if v == 1 {
        (name, counted)
    } else if t.name@.len() != 0 {
        let (uniq, after) = resolve_name(types, counted, id);
        (name + "__"@ + uniq, after)
    } else {
        (name + "__"@ + decimal(v), counted)
    }
}

/// What holds of the names at all times: every resolved name is a version
/// of its given name, and a version that has been counted; and two
/// entities with the same given name in the same namespace have
/// different versions of it, unless the counter has reached its limit.
pub open spec fn names_inv(ns: Names) -> bool {
    &&& ns.origins.len() == ns.resolved.len()
    &&& forall|i: int|
        0 <= i < ns.resolved.len() && (#[trigger] ns.resolved[i]).len() > 0 ==> {
            &&& ns.resolved[i] == versioned(ns.origins[i].name, ns.origins[i].version)
            &&& 1 <= ns.origins[i].version <= version_of(
                ns.versions,
                ns.origins[i].kind,
                ns.origins[i].name,
            )
        }
    &&& forall|i: int, j: int|
        0 <= i < ns.resolved.len() && 0 <= j < ns.resolved.len() && i != j && (
        #[trigger] ns.resolved[i]).len() > 0 && (#[trigger] ns.resolved[j]).len() > 0
            && ns.origins[i].kind == ns.origins[j].kind && ns.origins[i].name == ns.origins[j].name
            ==> ns.origins[i].version != ns.origins[j].version || ns.origins[i].version
            >= u32::MAX
}

/// Counting one more use of a name keeps what holds of the names.
pub proof fn lemma_count_keeps_inv(ns: Names, kind: NamedKind, name: Seq<char>)
    requires
        names_inv(ns),
    ensures
        names_inv(
            Names {
                resolved: ns.resolved,
                versions: ns.versions.insert((kind, name), next_version(ns.versions, kind, name)),
                origins: ns.origins,
            },
        ),
{
    let after = Names {
        resolved: ns.resolved,
        versions: ns.versions.insert((kind, name), next_version(ns.versions, kind, name)),
        origins: ns.origins,
    };
    assert forall|i: int|
        0 <= i < after.resolved.len() && (#[trigger] after.resolved[i]).len() > 0 implies {
        &&& after.resolved[i] == versioned(after.origins[i].name, after.origins[i].version)
        &&& 1 <= after.origins[i].version <= version_of(
            after.versions,
            after.origins[i].kind,
            after.origins[i].name,
        )
    } by {
        assert(ns.resolved[i].len() > 0);
        if (ns.origins[i].kind, ns.origins[i].name) != (kind, name) {
            assert(version_of(after.versions, ns.origins[i].kind, ns.origins[i].name)
                == version_of(ns.versions, ns.origins[i].kind, ns.origins[i].name));
        }
    }
}

/// A version of a nonempty name is not empty.
pub proof fn lemma_versioned_nonempty(name: Seq<char>, v: nat)
    requires
        name.len() > 0,
    ensures
        versioned(name, v).len() > 0,
{
}

/// Resolving a name keeps what holds of the names.
pub proof fn lemma_resolve_keeps_inv(ns: Names, kind: NamedKind, id: int, name: Seq<char>)
    requires
        names_inv(ns),
        0 <= id < ns.resolved.len(),
    ensures
        names_inv(resolve_kind_name(ns, kind, id, name).1),
{
    let after = resolve_kind_name(ns, kind, id, name).1;
    if name.len() != 0 && ns.resolved[id].len() == 0 {
        let v = next_version(ns.versions, kind, name);
        lemma_versioned_nonempty(name, v);
        assert forall|i: int|
            0 <= i < after.resolved.len() && (#[trigger] after.resolved[i]).len() > 0 implies {
            &&& after.resolved[i] == versioned(after.origins[i].name, after.origins[i].version)
            &&& 1 <= after.origins[i].version <= version_of(
                after.versions,
                after.origins[i].kind,
                after.origins[i].name,
            )
        } by {
            if i != id {
                assert(ns.resolved[i].len() > 0);
                if (ns.origins[i].kind, ns.origins[i].name) != (kind, name) {
                    assert(version_of(after.versions, ns.origins[i].kind, ns.origins[i].name)
                        == version_of(ns.versions, ns.origins[i].kind, ns.origins[i].name));
                }
            }
        }
        assert forall|i: int, j: int|
            0 <= i < after.resolved.len() && 0 <= j < after.resolved.len() && i != j && (
            #[trigger] after.resolved[i]).len() > 0 && (#[trigger] after.resolved[j]).len() > 0
                && after.origins[i].kind == after.origins[j].kind && after.origins[i].name
                == after.origins[j].name implies after.origins[i].version
            != after.origins[j].version || after.origins[i].version >= u32::MAX by {
            if i == id {
                assert(ns.resolved[j].len() > 0);
            } else if j == id {
                assert(ns.resolved[i].len() > 0);
            } else {
                assert(ns.resolved[i].len() > 0);
                assert(ns.resolved[j].len() > 0);
            }
        }
    }
}

/// Different versions of a name are different.
pub proof fn lemma_versions_differ(name: Seq<char>, a: nat, b: nat)
    requires
        a != b,
    ensures
        versioned(name, a) != versioned(name, b),
{
    reveal_strlit("__");
    let ta = name + "__"@ + decimal(a);
    let tb = name + "__"@ + decimal(b);
    crate::text::lemma_decimal_len(a);
    crate::text::lemma_decimal_len(b);
    if a == 1 {
        assert(tb.len() > name.len());
    } else if b == 1 {
        assert(ta.len() > name.len());
    } else {
        if ta == tb {
            assert(decimal(a) =~= ta.skip(name.len() as int + 2));
            assert(decimal(b) =~= tb.skip(name.len() as int + 2));
            crate::text::lemma_decimal_injective(a, b);
        }
    }
}

/// Name uniqueness among namesakes: two entities that were resolved from
/// the same given name in the same namespace have been given different
/// identifiers, as long as the counter of that name is below its limit.
pub proof fn law_namesakes_get_distinct_identifiers(ns: Names, i: int, j: int)
    requires
        names_inv(ns),
        0 <= i < ns.resolved.len(),
        0 <= j < ns.resolved.len(),
        i != j,
        ns.resolved[i].len() > 0,
        ns.resolved[j].len() > 0,
        ns.origins[i].kind == ns.origins[j].kind,
        ns.origins[i].name == ns.origins[j].name,
        version_of(ns.versions, ns.origins[i].kind, ns.origins[i].name) < u32::MAX,
    ensures
        ns.resolved[i] != ns.resolved[j],
{
    lemma_versions_differ(ns.origins[i].name, ns.origins[i].version, ns.origins[j].version);
}

/// Whether two underscores in a row occur in the text.
pub open spec fn has_double_underscore(text: Seq<char>) -> bool {
    exists|p: int| 0 <= p && p + 1 < text.len() && #[trigger] text[p] == '_' && text[p + 1] == '_'
}

/// Versions of different names that hold no two underscores in a row are
/// different.
pub proof fn lemma_versions_of_different_names_differ(a: Seq<char>, v: nat, b: Seq<char>, w: nat)
    requires
        a != b,
        !has_double_underscore(a),
        !has_double_underscore(b),
        v >= 1,
        w >= 1,
    ensures
        versioned(a, v) != versioned(b, w),
{
    reveal_strlit("__");
    let ta = a + "__"@ + decimal(v);
    let tb = b + "__"@ + decimal(w);
    crate::text::lemma_decimal_starts_with_digit(v);
    crate::text::lemma_decimal_starts_with_digit(w);
    if v == 1 && w != 1 {
        if a == tb {
            assert(a[b.len() as int] == '_' && a[b.len() as int + 1] == '_');
        }
    } else if v != 1 && w == 1 {
        if ta == b {
            assert(b[a.len() as int] == '_' && b[a.len() as int + 1] == '_');
        }
    } else if v != 1 && w != 1 {
        if ta == tb {
            if a.len() == b.len() {
                assert(a =~= ta.take(a.len() as int));
                assert(b =~= tb.take(b.len() as int));
            } else if a.len() < b.len() {
                lemma_shorter_name(a, decimal(v), b, decimal(w));
            } else {
                lemma_shorter_name(b, decimal(w), a, decimal(v));
            }
        }
    }
}

/// If a name, two underscores and a number read the same as a longer name,
/// two underscores and a number, the longer name holds two underscores in
/// a row.
proof fn lemma_shorter_name(a: Seq<char>, x: Seq<char>, b: Seq<char>, y: Seq<char>)
    requires
        a.len() < b.len(),
        a + "__"@ + x == b + "__"@ + y,
        x.len() >= 1,
        crate::text::is_digit(x[0]),
    ensures
        has_double_underscore(b),
{
    reveal_strlit("__");
    let ta = a + "__"@ + x;
    let tb = b + "__"@ + y;
    let p = a.len() as int;
    assert(ta[p] == '_');
    assert(ta[p + 1] == '_');
    assert(tb[p] == b[p]);
    if p + 1 < b.len() {
        assert(tb[p + 1] == b[p + 1]);
        assert(b[p] == '_' && b[p + 1] == '_');
    } else {
        assert(tb[p + 2] == '_');
        assert(ta[p + 2] == x[0]);
    }
}

/// Name uniqueness within a namespace: two entities of one namespace have
/// been given different identifiers, if neither of their given names holds
/// two underscores in a row, as long as the counters of these names are
/// below their limit.
pub proof fn law_identifiers_are_unique(ns: Names, i: int, j: int)
    requires
        names_inv(ns),
        0 <= i < ns.resolved.len(),
        0 <= j < ns.resolved.len(),
        i != j,
        ns.resolved[i].len() > 0,
        ns.resolved[j].len() > 0,
        ns.origins[i].kind == ns.origins[j].kind,
        !has_double_underscore(ns.origins[i].name),
        !has_double_underscore(ns.origins[j].name),
        version_of(ns.versions, ns.origins[i].kind, ns.origins[i].name) < u32::MAX,
    ensures
        ns.resolved[i] != ns.resolved[j],
{
    if ns.origins[i].name == ns.origins[j].name {
        law_namesakes_get_distinct_identifiers(ns, i, j);
    } else {
        lemma_versions_of_different_names_differ(
            ns.origins[i].name,
            ns.origins[i].version,
            ns.origins[j].name,
            ns.origins[j].version,
        );
    }
}

/// The `k`-th entity that resolves a given name in a namespace gets the
/// name itself if it is the first, and the name with `__` and `k` if not.
/// The counter of that name in that namespace is `k` afterwards, and every
/// other counter is what it was: a name is counted in each namespace by
/// itself.
pub proof fn law_namesakes_are_numbered(ns: Names, kind: NamedKind, id: int, name: Seq<char>, k: nat)
    requires
        0 <= id < ns.resolved.len(),
        name.len() > 0,
        ns.resolved[id].len() == 0,
        version_of(ns.versions, kind, name) + 1 == k,
        k <= u32::MAX,
    ensures
        resolve_kind_name(ns, kind, id, name).0 == if k == 1 {
            name
        } else {
            name + "__"@ + decimal(k)
        },
        version_of(resolve_kind_name(ns, kind, id, name).1.versions, kind, name) == k,
        forall|other_kind: NamedKind, other: Seq<char>|
            (other_kind, other) != (kind, name) ==> #[trigger] version_of(
                resolve_kind_name(ns, kind, id, name).1.versions,
                other_kind,
                other,
            ) == version_of(ns.versions, other_kind, other),
{
}

/// One counter of the table.
pub struct NameEntry {
    pub kind: NamedKind,
    pub name: String,
    pub version: u32,
}

/// The namespace and name that counter `i` is for.
pub open spec fn key_at(entries: Seq<NameEntry>, i: int) -> (NamedKind, Seq<char>) {
    (entries[i].kind, entries[i].name@)
}

/// Whether there is a counter for the name of the namespace.
pub open spec fn has_key(entries: Seq<NameEntry>, key: (NamedKind, Seq<char>)) -> bool {
    exists|i: int| 0 <= i < entries.len() && key_at(entries, i) == key
}

/// The position of the counter for the name of the namespace.
pub open spec fn index_of(entries: Seq<NameEntry>, key: (NamedKind, Seq<char>)) -> int {
    choose|i: int| 0 <= i < entries.len() && key_at(entries, i) == key
}

/// The counters as a map.
pub open spec fn entries_map(entries: Seq<NameEntry>) -> Versions {
    Map::new(
        |key: (NamedKind, Seq<char>)| has_key(entries, key),
        |key: (NamedKind, Seq<char>)| entries[index_of(entries, key)].version as nat,
    )
}

/// No two counters are for the same name of the same namespace.
pub open spec fn keys_distinct(entries: Seq<NameEntry>) -> bool {
    forall|i: int, j: int|
        0 <= i < entries.len() && 0 <= j < entries.len() && #[trigger] key_at(entries, i)
            == #[trigger] key_at(entries, j) ==> i == j
}

/// The version counters, one for each name that has been used in a
/// namespace.
pub struct NameTable {
    entries: Vec<NameEntry>,
}

impl View for NameTable {
    type V = Versions;

    closed spec fn view(&self) -> Versions {
        entries_map(self.entries@)
    }
}

impl NameTable {
    /// No name has two counters.
    pub closed spec fn wf(&self) -> bool {
        keys_distinct(self.entries@)
    }

    /// A table in which no name has been used.
    pub fn new() -> (table: NameTable)
        ensures
            table.wf(),
            table@ == Map::<(NamedKind, Seq<char>), nat>::empty(),
    {
        let table = NameTable { entries: Vec::new() };
        assert(table@ =~= Map::<(NamedKind, Seq<char>), nat>::empty());
        table
    }

    /// Counts one more use of `name` in the namespace `kind`, and returns
    /// the version of this use.
    pub fn bump(&mut self, kind: NamedKind, name: &str) -> (v: u32)
        requires
            old(self).wf(),
        ensures
            final(self).wf(),
            v == next_version(old(self)@, kind, name@),
            final(self)@ == old(self)@.insert((kind, name@), v as nat),
            v >= 1,
    {
        let ghost key = (kind, name@);
        let ghost before = self.entries@;
        let mut i: usize = 0;
        while i < self.entries.len()
            invariant
                i <= self.entries@.len(),
                self.entries@ == before,
                before == old(self).entries@,
                keys_distinct(before),
                key == (kind, name@),
                forall|j: int| 0 <= j < i ==> key_at(before, j) != key,
            decreases self.entries@.len() - i,
        {
            let same_kind: bool = self.entries[i].kind == kind;
            let same_name: bool = crate::text::str_eq(self.entries[i].name.as_str(), name);
            if same_kind && same_name {
                let old_v: u32 = self.entries[i].version;
                let v: u32 = if old_v < u32::MAX {
                    old_v + 1
                } else {
                    old_v
                };
                let entry = NameEntry { kind, name: self.entries[i].name.clone(), version: v };
                self.entries.set(i, entry);
                proof {
                    let after = self.entries@;
                    assert(key_at(before, i as int) == key);
                    assert(has_key(before, key));
                    assert(index_of(before, key) == i);
                    assert forall|j: int| 0 <= j < after.len() implies key_at(after, j) == key_at(
                        before,
                        j,
                    ) by {}
                    assert(keys_distinct(after));
                    assert forall|k: (NamedKind, Seq<char>)| has_key(after, k) == has_key(
                        before,
                        k,
                    ) by {
                        if has_key(before, k) {
                            let j = index_of(before, k);
                            assert(key_at(after, j) == k);
                        }
                        if has_key(after, k) {
                            let j = index_of(after, k);
                            assert(key_at(before, j) == k);
                        }
                    }
                    assert forall|k: (NamedKind, Seq<char>)| has_key(after, k) implies index_of(
                        after,
                        k,
                    ) == index_of(before, k) by {
                        let j = index_of(after, k);
                        let j2 = index_of(before, k);
                        assert(key_at(before, j) == k);
                        assert(key_at(before, j2) == k);
                    }
                    assert(entries_map(after) =~= entries_map(before).insert(key, v as nat));
                }
                return v;
            }
            i += 1;
        }
        let entry = NameEntry { kind, name: name.to_owned(), version: 1 };
        self.entries.push(entry);
        proof {
            let after = self.entries@;
            let n = before.len() as int;
            assert(!has_key(before, key));
            assert(key_at(after, n) == key);
            assert forall|j: int| 0 <= j < n implies key_at(after, j) == key_at(before, j) by {}
            assert(keys_distinct(after));
            assert forall|k: (NamedKind, Seq<char>)| has_key(after, k) == (has_key(before, k) || k
                == key) by {
                if has_key(before, k) {
                    let j = index_of(before, k);
                    assert(key_at(after, j) == k);
                }
                if has_key(after, k) {
                    let j = index_of(after, k);
                    if j < n {
                        assert(key_at(before, j) == k);
                    }
                }
            }
            assert forall|k: (NamedKind, Seq<char>)| has_key(before, k) implies index_of(after, k)
                == index_of(before, k) by {
                let j = index_of(after, k);
                let j2 = index_of(before, k);
                assert(key_at(after, j2) == k);
                assert(key_at(after, j) == k);
            }
            assert(index_of(after, key) == n) by {
                let j = index_of(after, key);
                assert(key_at(after, j) == key);
            }
            assert(entries_map(after) =~= entries_map(before).insert(key, 1nat));
        }
        1
    }
}


/// Resolves names, remembering what each type id was resolved to.
pub struct NameResolver {
    resolved: Vec<String>,
    table: NameTable,
    origins: Ghost<Seq<NameOrigin>>,
}

impl View for NameResolver {
    type V = Names;

    closed spec fn view(&self) -> Names {
        Names {
            resolved: Seq::new(self.resolved@.len(), |i: int| self.resolved@[i]@),
            versions: self.table@,
            origins: self.origins@,
        }
    }
}

impl NameResolver {
    /// The table is in order, and so are the names.
    pub closed spec fn wf(&self) -> bool {
        self.table.wf() && names_inv(self@)
    }

    /// What holds of the names holds of those of a resolver.
    pub proof fn lemma_names_inv(&self)
        requires
            self.wf(),
        ensures
            names_inv(self@),
    {
    }

    /// A resolver for `n` type ids, none of them resolved yet.
    pub fn new(n: usize) -> (resolver: NameResolver)
        ensures
            resolver.wf(),
            resolver@ == fresh_names(n as nat),
    {
        let mut resolved: Vec<String> = Vec::new();
        let mut i: usize = 0;
        while i < n
            invariant
                i <= n,
                resolved@.len() == i,
                forall|j: int| 0 <= j < i ==> (#[trigger] resolved@[j])@ == Seq::<char>::empty(),
            decreases n - i,
        {
            resolved.push(String::new());
            i += 1;
        }
        let resolver = NameResolver {
            resolved,
            table: NameTable::new(),
            origins: Ghost(fresh_names(n as nat).origins),
        };
        assert(resolver@.resolved =~= fresh_names(n as nat).resolved);
        resolver
    }

    /// The identifier of the entity `id`, whose given name is `name`, in the
    /// namespace `kind`: on the first call the next version of the name, the
    /// same again on later calls; the empty string for an empty name.
    pub fn resolve_kind_name(&mut self, kind: NamedKind, id: u32, name: &str) -> (r: String)
        requires
            old(self).wf(),
            id < old(self)@.resolved.len(),
        ensures
            final(self).wf(),
            (r@, final(self)@) == resolve_kind_name(old(self)@, kind, id as int, name@),
            final(self)@.resolved.len() == old(self)@.resolved.len(),
    {
        if name.is_empty() {
            return String::new();
        }
        if self.resolved[id as usize].as_str().is_empty() {
            let v: u32 = self.table.bump(kind, name);
            let mut r = name.to_owned();
            if v != 1 {
                r.append("__");
                push_decimal(&mut r, v as u64);
            }
            assert(r@ =~= versioned(name@, v as nat));
            let res = r.clone();
            self.resolved.set(id as usize, r);
            self.origins = Ghost(
                self.origins@.update(
                    id as int,
                    NameOrigin { kind, name: name@, version: v as nat },
                ),
            );
            proof {
                let expect = resolve_kind_name(old(self)@, kind, id as int, name@);
                assert(self@.resolved =~= expect.1.resolved);
                assert(self@.versions =~= expect.1.versions);
                lemma_resolve_keeps_inv(old(self)@, kind, id as int, name@);
            }
            return res;
        }
        self.resolved[id as usize].clone()
    }

    /// The identifier of the type `id`, in the namespace of its kind.
    pub fn resolve_name(&mut self, btf: &Btf, id: u32) -> (r: String)
        requires
            old(self).wf(),
            id < btf@.len(),
            old(self)@.resolved.len() == btf@.len(),
        ensures
            final(self).wf(),
            (r@, final(self)@) == resolve_name(btf@, old(self)@, id as int),
            final(self)@.resolved.len() == old(self)@.resolved.len(),
    {
        match btf.type_by_id(id) {
            BtfType::Struct(t) => self.resolve_kind_name(NamedKind::Composite, id, t.name.as_str()),
            BtfType::Union(t) => self.resolve_kind_name(NamedKind::Composite, id, t.name.as_str()),
            BtfType::Enum(t) => self.resolve_kind_name(NamedKind::Composite, id, t.name.as_str()),
            BtfType::Fwd(t) => self.resolve_kind_name(NamedKind::Composite, id, t.name.as_str()),
            BtfType::Typedef(t) => self.resolve_kind_name(NamedKind::Typedef, id, t.name.as_str()),
            BtfType::Func(t) => self.resolve_kind_name(NamedKind::Func, id, t.name.as_str()),
            _ => String::new(),
        }
    }

    /// The identifier of the enumerator `name` of the enum `t` with id `id`.
    pub fn resolve_enum_val_name(&mut self, btf: &Btf, id: u32, t: &BtfEnum, name: &str) -> (r:
        String)
        requires
            old(self).wf(),
            id < btf@.len(),
            old(self)@.resolved.len() == btf@.len(),
        ensures
            final(self).wf(),
            (r@, final(self)@) == resolve_enum_val_name(btf@, old(self)@, id as int, *t, name@),
            final(self)@.resolved.len() == old(self)@.resolved.len(),
    {
        let v: u32 = self.table.bump(NamedKind::Typedef, name);
        let ghost counted = self@;
        proof {
            let expect = Names {
                resolved: old(self)@.resolved,
                versions: old(self)@.versions.insert((NamedKind::Typedef, name@), v as nat),
                origins: old(self)@.origins,
            };
            assert(counted.resolved =~= expect.resolved);
            assert(counted.versions =~= expect.versions);
            lemma_count_keeps_inv(old(self)@, NamedKind::Typedef, name@);
        }
        let mut r = name.to_owned();
        if v == 1 {
        } else if !t.name.as_str().is_empty() {
            let uniq = self.resolve_name(btf, id);
            r.append("__");
            r.append(uniq.as_str());
            assert(r@ =~= name@ + "__"@ + uniq@);
        } else {
            r.append("__");
            push_decimal(&mut r, v as u64);
            assert(r@ =~= name@ + "__"@ + decimal(v as nat));
        }
        r
    }
}

} // verus!
