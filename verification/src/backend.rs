//! The flatpak catalogue backend: a deduplicated package index keyed by
//! scope, origin and bundle id across two installation scopes, the queries
//! over it, and the per-remote refresh decisions.

use vstd::prelude::*;

use crate::category::{spec_bucket, Category};
use crate::component::{clone_components, components_like, Component, ComponentKind};
use crate::package::{eq_package, latest_release, str_views, Package};
use crate::recent::{idx_views, pick_indices, recency_key, recency_order, sort_indices_desc};

verus! {

/// One slot of the package index: the composite key and the entry it
/// names.
pub struct PackageEntry {
    pub key: String,
    pub package: Package,
}

/// The abstract value of the index: key views paired with entries, in
/// insertion order.
pub open spec fn entry_views(entries: Seq<PackageEntry>) -> Seq<(Seq<char>, Package)> {
    entries.map_values(|e: PackageEntry| (e.key@, e.package))
}

/// The composite key `scope "/" origin "/" bundle-id`.
pub open spec fn spec_key(system: bool, origin: Seq<char>, bundle_id: Seq<char>) -> Seq<char> {
    (if system {
        "system"@
    } else {
        "user"@
    }) + "/"@ + origin + "/"@ + bundle_id
}

/// The composite key of a component, in the given scope; meaningful only
/// for components with a bundle id.
pub open spec fn comp_key(system: bool, c: Component) -> Seq<char>
    recommends
        c.bundle_id is Some,
{
    spec_key(system, c.origin@, c.bundle_id->Some_0@)
}

/// Position of the first entry with this key, or -1.
pub open spec fn find_key(v: Seq<(Seq<char>, Package)>, key: Seq<char>) -> int
    decreases v.len(),
{
    if v.len() == 0 {
        -1
    } else if v[0].0 == key {
        0
    } else {
        let r = find_key(v.drop_first(), key);
        if r == -1 {
            -1
        } else {
            r + 1
        }
    }
}

pub open spec fn has_key(v: Seq<(Seq<char>, Package)>, key: Seq<char>) -> bool {
    find_key(v, key) >= 0
}

/// The entry stored under a key that is present.
pub open spec fn val_at(v: Seq<(Seq<char>, Package)>, key: Seq<char>) -> Package
    recommends
        has_key(v, key),
{
    v[find_key(v, key)].1
}

/// A freshly wrapped component: both display caches empty. Replacing an
/// entry's component leaves the entry in exactly this state.
pub open spec fn fresh_package(c: Component) -> Package {
    Package { component: c, name: None, summary: None }
}

/// One upsert: an existing key has its entry's component replaced in
/// place (same position, caches dropped); a new key is appended.
pub open spec fn spec_upsert(v: Seq<(Seq<char>, Package)>, key: Seq<char>, c: Component) -> Seq<
    (Seq<char>, Package),
> {
    if has_key(v, key) {
        v.update(find_key(v, key), (key, fresh_package(c)))
    } else {
        v.push((key, fresh_package(c)))
    }
}

/// A pool reload folded over the index: every component with a bundle id
/// is upserted under its composite key, in collection order; the rest are
/// excluded.
pub open spec fn spec_reload(
    v: Seq<(Seq<char>, Package)>,
    system: bool,
    comps: Seq<Component>,
) -> Seq<(Seq<char>, Package)>
    decreases comps.len(),
{
    if comps.len() == 0 {
        v
    } else {
        let v2 = if comps[0].bundle_id is Some {
            spec_upsert(v, comp_key(system, comps[0]), comps[0])
        } else {
            v
        };
        spec_reload(v2, system, comps.drop_first())
    }
}

/// Composite keys are unique within the index.
pub open spec fn index_wf(v: Seq<(Seq<char>, Package)>) -> bool {
    forall|i: int, j: int| 0 <= i < j < v.len() ==> (#[trigger] v[i]).0 != (#[trigger] v[j]).0
}

pub proof fn lemma_find_key_props(v: Seq<(Seq<char>, Package)>, key: Seq<char>)
    ensures
        -1 <= find_key(v, key) < v.len(),
        find_key(v, key) >= 0 ==> v[find_key(v, key)].0 == key,
        forall|q: int| 0 <= q < find_key(v, key) ==> (#[trigger] v[q]).0 != key,
        find_key(v, key) == -1 ==> forall|q: int| 0 <= q < v.len() ==> (#[trigger] v[q]).0 != key,
    decreases v.len(),
{
    if v.len() > 0 && v[0].0 != key {
        let t = v.drop_first();
        lemma_find_key_props(t, key);
        assert forall|q: int| 0 <= q < find_key(v, key) implies (#[trigger] v[q]).0 != key by {
            if q > 0 {
                assert(t[q - 1] == v[q]);
                assert(t[q - 1].0 != key);
            }
        }
        if find_key(v, key) == -1 {
            assert forall|q: int| 0 <= q < v.len() implies (#[trigger] v[q]).0 != key by {
                if q > 0 {
                    assert(t[q - 1] == v[q]);
                    assert(t[q - 1].0 != key);
                }
            }
        }
    }
}

/// A key found at position `j`, with no earlier occurrence, is where
/// `find_key` points.
pub proof fn lemma_find_key_first(v: Seq<(Seq<char>, Package)>, key: Seq<char>, j: int)
    requires
        0 <= j < v.len(),
        v[j].0 == key,
        forall|q: int| 0 <= q < j ==> (#[trigger] v[q]).0 != key,
    ensures
        find_key(v, key) == j,
    decreases v.len(),
{
    if j > 0 {
        lemma_find_key_first(v.drop_first(), key, j - 1);
    }
}

/// Two indexes with the same keys at every position agree on every
/// lookup position.
pub proof fn lemma_find_key_same_keys(
    v: Seq<(Seq<char>, Package)>,
    w: Seq<(Seq<char>, Package)>,
    key: Seq<char>,
)
    requires
        v.len() == w.len(),
        forall|q: int| 0 <= q < v.len() ==> (#[trigger] v[q]).0 == (#[trigger] w[q]).0,
    ensures
        find_key(v, key) == find_key(w, key),
    decreases v.len(),
{
    if v.len() > 0 {
        assert(v[0].0 == w[0].0);
        assert forall|q: int| 0 <= q < v.drop_first().len() implies (#[trigger] v.drop_first()[
            q
        ]).0 == (#[trigger] w.drop_first()[q]).0 by {
            assert(v.drop_first()[q] == v[q + 1]);
            assert(w.drop_first()[q] == w[q + 1]);
        }
        lemma_find_key_same_keys(v.drop_first(), w.drop_first(), key);
    }
}

pub proof fn lemma_find_key_push(
    v: Seq<(Seq<char>, Package)>,
    key: Seq<char>,
    e: (Seq<char>, Package),
)
    ensures
        find_key(v.push(e), key) == if find_key(v, key) >= 0 {
            find_key(v, key)
        } else if e.0 == key {
            v.len() as int
        } else {
            -1
        },
    decreases v.len(),
{
    if v.len() == 0 {
        assert(v.push(e)[0] == e);
        assert(v.push(e).drop_first() =~= Seq::<(Seq<char>, Package)>::empty());
        if e.0 == key {
            assert(find_key(v.push(e), key) == 0);
        } else {
            assert(find_key(v.push(e).drop_first(), key) == -1);
            assert(find_key(v.push(e), key) == -1);
        }
    } else {
        let t = v.drop_first();
        assert(v.push(e)[0] == v[0]);
        assert(v.push(e).drop_first() =~= t.push(e));
        lemma_find_key_push(t, key, e);
        if v[0].0 == key {
            assert(find_key(v.push(e), key) == 0);
            assert(find_key(v, key) == 0);
        } else {
            assert(find_key(v.push(e), key) == if find_key(t.push(e), key) == -1 {
                -1
            } else {
                find_key(t.push(e), key) + 1
            });
            assert(find_key(v, key) == if find_key(t, key) == -1 {
                -1
            } else {
                find_key(t, key) + 1
            });
            assert(t.push(e).len() - 1 == v.len() - 1 + 1 - 1);
        }
    }
}

/// After an upsert: the shape of the index, position by position.
pub proof fn lemma_upsert_props(v: Seq<(Seq<char>, Package)>, key: Seq<char>, c: Component)
    ensures
        has_key(v, key) ==> spec_upsert(v, key, c).len() == v.len(),
        !has_key(v, key) ==> spec_upsert(v, key, c).len() == v.len() + 1,
        forall|q: int|
            0 <= q < v.len() ==> (#[trigger] spec_upsert(v, key, c)[q]).0 == (#[trigger] v[q]).0,
        !has_key(v, key) ==> spec_upsert(v, key, c)[v.len() as int].0 == key,
        forall|q: int|
            0 <= q < v.len() && q != find_key(v, key) ==> #[trigger] spec_upsert(v, key, c)[q]
                == v[q],
        has_key(v, key) ==> spec_upsert(v, key, c)[find_key(v, key)] == (key, fresh_package(c)),
        !has_key(v, key) ==> spec_upsert(v, key, c)[v.len() as int] == (key, fresh_package(c)),
        forall|k2: Seq<char>|
            #[trigger] has_key(spec_upsert(v, key, c), k2) == (has_key(v, k2) || k2 == key),
        index_wf(v) ==> index_wf(spec_upsert(v, key, c)),
        has_key(v, key) ==> val_at(spec_upsert(v, key, c), key) == fresh_package(c),
        !has_key(v, key) ==> val_at(spec_upsert(v, key, c), key) == fresh_package(c),
        forall|k2: Seq<char>|
            has_key(v, k2) && k2 != key ==> #[trigger] val_at(spec_upsert(v, key, c), k2) == val_at(
                v,
                k2,
            ),
{
    lemma_find_key_props(v, key);
    let r = spec_upsert(v, key, c);
    if has_key(v, key) {
        let i = find_key(v, key);
        assert forall|k2: Seq<char>| #[trigger] has_key(r, k2) == (has_key(v, k2) || k2 == key) by {
            lemma_find_key_same_keys(v, r, k2);
            lemma_find_key_props(v, k2);
            if k2 == key {
                assert(has_key(v, k2));
            }
        }
        assert(val_at(r, key) == fresh_package(c)) by {
            lemma_find_key_same_keys(v, r, key);
        }
        assert forall|k2: Seq<char>| has_key(v, k2) && k2 != key implies #[trigger] val_at(r, k2)
            == val_at(v, k2) by {
            lemma_find_key_same_keys(v, r, k2);
            lemma_find_key_props(v, k2);
        }
    } else {
        let e = (key, fresh_package(c));
        assert forall|k2: Seq<char>| #[trigger] has_key(r, k2) == (has_key(v, k2) || k2 == key) by {
            lemma_find_key_push(v, k2, e);
            lemma_find_key_props(v, k2);
        }
        assert(val_at(r, key) == fresh_package(c)) by {
            lemma_find_key_push(v, key, e);
        }
        assert forall|k2: Seq<char>| has_key(v, k2) && k2 != key implies #[trigger] val_at(r, k2)
            == val_at(v, k2) by {
            lemma_find_key_push(v, k2, e);
            lemma_find_key_props(v, k2);
        }
        if index_wf(v) {
            assert forall|i: int, j: int| 0 <= i < j < r.len() implies (#[trigger] r[i]).0 != (
            #[trigger] r[j]).0 by {
                if j == v.len() as int {
                    lemma_find_key_props(v, key);
                }
            }
        }
    }
}

/// The last component of the collection that lands under this key.
pub open spec fn last_with_key(comps: Seq<Component>, system: bool, key: Seq<char>) -> Option<
    Component,
>
    decreases comps.len(),
{
    if comps.len() == 0 {
        None
    } else {
        let rest = last_with_key(comps.drop_first(), system, key);
        if rest is Some {
            rest
        } else if comps[0].bundle_id is Some && comp_key(system, comps[0]) == key {
            Some(comps[0])
        } else {
            None
        }
    }
}

/// After a reload: which keys exist, where the old entries sit, and what
/// every key maps to.
pub proof fn lemma_reload_props(v: Seq<(Seq<char>, Package)>, system: bool, comps: Seq<Component>)
    ensures
        spec_reload(v, system, comps).len() >= v.len(),
        forall|q: int|
            0 <= q < v.len() ==> (#[trigger] spec_reload(v, system, comps)[q]).0 == (
            #[trigger] v[q]).0,
        forall|k: Seq<char>|
            #[trigger] has_key(spec_reload(v, system, comps), k) == (has_key(v, k) || last_with_key(
                comps,
                system,
                k,
            ) is Some),
        forall|k: Seq<char>|
            has_key(v, k) || last_with_key(comps, system, k) is Some ==> #[trigger] val_at(
                spec_reload(v, system, comps),
                k,
            ) == (match last_with_key(comps, system, k) {
                Some(c) => fresh_package(c),
                None => val_at(v, k),
            }),
        index_wf(v) ==> index_wf(spec_reload(v, system, comps)),
    decreases comps.len(),
{
    if comps.len() > 0 {
        let c0 = comps[0];
        if c0.bundle_id is Some {
            let key = comp_key(system, c0);
            let v2 = spec_upsert(v, key, c0);
            lemma_upsert_props(v, key, c0);
            lemma_reload_props(v2, system, comps.drop_first());
            assert forall|q: int|
                0 <= q < v.len() implies (#[trigger] spec_reload(v, system, comps)[q]).0 == (
            #[trigger] v[q]).0 by {
                assert(spec_reload(v2, system, comps.drop_first())[q].0 == v2[q].0);
                assert(v2[q].0 == v[q].0);
            }
            assert forall|k: Seq<char>| #[trigger] has_key(spec_reload(v, system, comps), k) == (
            has_key(v, k) || last_with_key(comps, system, k) is Some) by {
                assert(has_key(spec_reload(v2, system, comps.drop_first()), k) == (has_key(v2, k)
                    || last_with_key(comps.drop_first(), system, k) is Some));
            }
            assert forall|k: Seq<char>|
                has_key(v, k) || last_with_key(comps, system, k) is Some implies #[trigger] val_at(
                spec_reload(v, system, comps),
                k,
            ) == (match last_with_key(comps, system, k) {
                Some(c) => fresh_package(c),
                None => val_at(v, k),
            }) by {
                if last_with_key(comps.drop_first(), system, k) is Some {
                } else if k == key {
                    assert(last_with_key(comps, system, k) == Some(c0));
                    assert(val_at(v2, k) == fresh_package(c0));
                } else {
                    assert(val_at(v2, k) == val_at(v, k));
                }
            }
        } else {
            lemma_reload_props(v, system, comps.drop_first());
            assert forall|k: Seq<char>| #[trigger] has_key(spec_reload(v, system, comps), k) == (
            has_key(v, k) || last_with_key(comps, system, k) is Some) by {
                assert(has_key(spec_reload(v, system, comps.drop_first()), k) == (has_key(v, k)
                    || last_with_key(comps.drop_first(), system, k) is Some));
            }
        }
    }
}

/// A reload whose component keys are all present neither grows the index
/// nor moves any entry.
pub proof fn lemma_reload_no_growth(
    v: Seq<(Seq<char>, Package)>,
    system: bool,
    comps: Seq<Component>,
)
    requires
        forall|i: int|
            0 <= i < comps.len() && (#[trigger] comps[i]).bundle_id is Some ==> has_key(
                v,
                comp_key(system, comps[i]),
            ),
    ensures
        spec_reload(v, system, comps).len() == v.len(),
    decreases comps.len(),
{
    if comps.len() > 0 {
        let c0 = comps[0];
        if c0.bundle_id is Some {
            let key = comp_key(system, c0);
            let v2 = spec_upsert(v, key, c0);
            lemma_upsert_props(v, key, c0);
            assert forall|i: int|
                0 <= i < comps.drop_first().len() && (#[trigger] comps.drop_first()[
                    i
                ]).bundle_id is Some implies has_key(
                v2,
                comp_key(system, comps.drop_first()[i]),
            ) by {
                assert(comps.drop_first()[i] == comps[i + 1]);
            }
            lemma_reload_no_growth(v2, system, comps.drop_first());
        } else {
            assert forall|i: int|
                0 <= i < comps.drop_first().len() && (#[trigger] comps.drop_first()[
                    i
                ]).bundle_id is Some implies has_key(
                v,
                comp_key(system, comps.drop_first()[i]),
            ) by {
                assert(comps.drop_first()[i] == comps[i + 1]);
            }
            lemma_reload_no_growth(v, system, comps.drop_first());
        }
    }
}

/// Running the same reload twice leaves the index exactly as one run
/// leaves it: refreshing with unchanged metadata is idempotent.
pub proof fn lemma_reload_idempotent(
    v: Seq<(Seq<char>, Package)>,
    system: bool,
    comps: Seq<Component>,
)
    requires
        index_wf(v),
    ensures
        spec_reload(spec_reload(v, system, comps), system, comps) == spec_reload(v, system, comps),
{
    let w = spec_reload(v, system, comps);
    let w2 = spec_reload(w, system, comps);
    lemma_reload_props(v, system, comps);
    lemma_reload_props(w, system, comps);
    assert forall|i: int|
        0 <= i < comps.len() && (#[trigger] comps[i]).bundle_id is Some implies has_key(
        w,
        comp_key(system, comps[i]),
    ) by {
        lemma_last_with_key_witness(comps, system, i);
    }
    lemma_reload_no_growth(w, system, comps);
    assert forall|i: int| 0 <= i < w.len() implies #[trigger] w2[i] == w[i] by {
        let k = w[i].0;
        assert(w2[i].0 == k);
        lemma_find_key_first(w, k, i);
        lemma_find_key_same_keys(w, w2, k);
        assert(val_at(w2, k) == w2[i].1);
        assert(val_at(w, k) == w[i].1);
        assert(has_key(w, k));
        if last_with_key(comps, system, k) is Some {
            assert(val_at(w, k) == fresh_package(last_with_key(comps, system, k)->Some_0));
            assert(val_at(w2, k) == fresh_package(last_with_key(comps, system, k)->Some_0));
        } else {
            assert(val_at(w2, k) == val_at(w, k));
        }
    }
    assert(w2 =~= w);
}

/// A component with a bundle id somewhere in the collection puts its key
/// into the reload result.
proof fn lemma_last_with_key_witness(comps: Seq<Component>, system: bool, i: int)
    requires
        0 <= i < comps.len(),
        comps[i].bundle_id is Some,
    ensures
        last_with_key(comps, system, comp_key(system, comps[i])) is Some,
    decreases comps.len(),
{
    if i > 0 {
        assert(comps.drop_first()[i - 1] == comps[i]);
        lemma_last_with_key_witness(comps.drop_first(), system, i - 1);
    }
}

/// Distinct (scope, origin, bundle-id) triples have distinct composite
/// keys, as long as origins contain no separator; together with key
/// uniqueness in the index, the index holds at most one entry per triple.
pub proof fn lemma_key_injective(
    s1: bool,
    o1: Seq<char>,
    b1: Seq<char>,
    s2: bool,
    o2: Seq<char>,
    b2: Seq<char>,
)
    requires
        forall|q: int| 0 <= q < o1.len() ==> o1[q] != '/',
        forall|q: int| 0 <= q < o2.len() ==> o2[q] != '/',
        spec_key(s1, o1, b1) == spec_key(s2, o2, b2),
    ensures
        s1 == s2,
        o1 == o2,
        b1 == b2,
{
    reveal_strlit("system");
    reveal_strlit("user");
    reveal_strlit("/");
    let p1: Seq<char> = if s1 {
        "system"@
    } else {
        "user"@
    };
    let p2: Seq<char> = if s2 {
        "system"@
    } else {
        "user"@
    };
    let k1 = spec_key(s1, o1, b1);
    let k2 = spec_key(s2, o2, b2);
    assert(k1[0] == p1[0]);
    assert(k2[0] == p2[0]);
    if s1 != s2 {
        assert(p1[0] != p2[0]);
        assert(false);
    }
    let lp = p1.len() as int;
    assert(k1.len() == lp + 1 + o1.len() + 1 + b1.len());
    assert(k2.len() == lp + 1 + o2.len() + 1 + b2.len());
    assert(k1[lp] == '/');
    assert forall|q: int| 0 <= q < o1.len() implies k1[lp + 1 + q] == o1[q] by {}
    assert forall|q: int| 0 <= q < o2.len() implies k2[lp + 1 + q] == o2[q] by {}
    assert(k1[lp + 1 + o1.len()] == '/');
    assert(k2[lp + 1 + o2.len()] == '/');
    if o1.len() < o2.len() {
        assert(k2[lp + 1 + o1.len()] == o2[o1.len() as int]);
        assert(false);
    }
    if o2.len() < o1.len() {
        assert(k1[lp + 1 + o2.len()] == o1[o2.len() as int]);
        assert(false);
    }
    assert(o1 =~= o2);
    assert forall|q: int| 0 <= q < b1.len() implies b1[q] == b2[q] by {
        assert(k1[lp + 1 + o1.len() + 1 + q] == b1[q]);
        assert(k2[lp + 1 + o2.len() + 1 + q] == b2[q]);
    }
    assert(b1 =~= b2);
}

/// With no entry for a key, the index keeps uniqueness when the key is
/// appended; and an upsert of a key already present replaces the entry in
/// place: the index never holds two entries for one composite key, and
/// re-offering a triple with changed metadata keeps the entry count and
/// every entry position.
pub proof fn lemma_composite_key_unique(v: Seq<(Seq<char>, Package)>, key: Seq<char>, c: Component)
    requires
        index_wf(v),
    ensures
        index_wf(spec_upsert(v, key, c)),
        has_key(v, key) ==> spec_upsert(v, key, c).len() == v.len(),
        has_key(v, key) ==> forall|q: int|
            0 <= q < v.len() ==> (#[trigger] spec_upsert(v, key, c)[q]).0 == v[q].0,
        has_key(v, key) ==> spec_upsert(v, key, c)[find_key(v, key)].1 == fresh_package(c),
{
    lemma_upsert_props(v, key, c);
}

/// Raw identifier match: the raw component id equals the requested id, or
/// the requested id with a `.desktop` suffix.
pub open spec fn id_matches(c: Component, id: Seq<char>) -> bool {
    c.id@ == id || c.id@ == id + ".desktop"@
}

/// The first entry whose component matches the requested id.
pub open spec fn spec_lookup(v: Seq<(Seq<char>, Package)>, id: Seq<char>) -> Option<Package>
    decreases v.len(),
{
    if v.len() == 0 {
        None
    } else if id_matches(v[0].1.component, id) {
        Some(v[0].1)
    } else {
        spec_lookup(v.drop_first(), id)
    }
}

proof fn lemma_lookup_first(v: Seq<(Seq<char>, Package)>, id: Seq<char>, j: int)
    requires
        0 <= j < v.len(),
        id_matches(v[j].1.component, id),
        forall|q: int| 0 <= q < j ==> !id_matches((#[trigger] v[q]).1.component, id),
    ensures
        spec_lookup(v, id) == Some(v[j].1),
    decreases v.len(),
{
    if j > 0 {
        let t = v.drop_first();
        assert forall|q: int| 0 <= q < j - 1 implies !id_matches(
            (#[trigger] t[q]).1.component,
            id,
        ) by {
            assert(t[q] == v[q + 1]);
        }
        lemma_lookup_first(t, id, j - 1);
    }
}

proof fn lemma_lookup_none(v: Seq<(Seq<char>, Package)>, id: Seq<char>)
    requires
        forall|q: int| 0 <= q < v.len() ==> !id_matches((#[trigger] v[q]).1.component, id),
    ensures
        spec_lookup(v, id) is None,
    decreases v.len(),
{
    if v.len() > 0 {
        let t = v.drop_first();
        assert forall|q: int| 0 <= q < t.len() implies !id_matches(
            (#[trigger] t[q]).1.component,
            id,
        ) by {
            assert(t[q] == v[q + 1]);
        }
        lemma_lookup_none(t, id);
    }
}

/// An id lookup succeeds whenever some entry stores the raw id either
/// plainly or with the `.desktop` suffix.
pub proof fn lemma_suffix_lookup(v: Seq<(Seq<char>, Package)>, id: Seq<char>)
    requires
        exists|q: int|
            0 <= q < v.len() && ((#[trigger] v[q]).1.component.id@ == id || v[q].1.component.id@
                == id + ".desktop"@),
    ensures
        spec_lookup(v, id) is Some,
    decreases v.len(),
{
    let q = choose|q: int|
        0 <= q < v.len() && ((#[trigger] v[q]).1.component.id@ == id || v[q].1.component.id@ == id
            + ".desktop"@);
    if id_matches(v[0].1.component, id) {
    } else {
        let t = v.drop_first();
        assert(t[q - 1] == v[q]);
        lemma_suffix_lookup(t, id);
    }
}

/// The entries matched to a component list: each component is looked up
/// by its raw id, hits in order, misses dropped.
pub open spec fn spec_category_lookup(
    v: Seq<(Seq<char>, Package)>,
    matched: Seq<Component>,
) -> Seq<Package>
    decreases matched.len(),
{
    if matched.len() == 0 {
        Seq::empty()
    } else {
        let rest = spec_category_lookup(v, matched.drop_first());
        match spec_lookup(v, matched[0].id@) {
            Some(p) => seq![p] + rest,
            None => rest,
        }
    }
}

proof fn lemma_category_lookup_snoc(
    v: Seq<(Seq<char>, Package)>,
    matched: Seq<Component>,
    x: Component,
)
    ensures
        spec_category_lookup(v, matched.push(x)) == spec_category_lookup(v, matched) + (
        match spec_lookup(v, x.id@) {
            Some(p) => seq![p],
            None => Seq::<Package>::empty(),
        }),
    decreases matched.len(),
{
    let tail = match spec_lookup(v, x.id@) {
        Some(p) => seq![p],
        None => Seq::<Package>::empty(),
    };
    if matched.len() == 0 {
        assert(matched.push(x)[0] == x);
        assert(matched.push(x).drop_first() =~= Seq::<Component>::empty());
        assert(spec_category_lookup(v, matched.push(x).drop_first()) == Seq::<Package>::empty());
        assert(spec_category_lookup(v, matched) + tail =~= tail);
        match spec_lookup(v, x.id@) {
            Some(p) => {
                assert(seq![p] + Seq::<Package>::empty() =~= seq![p]);
            },
            None => {},
        }
    } else {
        assert(matched.push(x)[0] == matched[0]);
        assert(matched.push(x).drop_first() =~= matched.drop_first().push(x));
        lemma_category_lookup_snoc(v, matched.drop_first(), x);
        match spec_lookup(v, matched[0].id@) {
            Some(p) => {
                assert(seq![p] + (spec_category_lookup(v, matched.drop_first()) + tail) =~= (seq![p]
                    + spec_category_lookup(v, matched.drop_first())) + tail);
            },
            None => {},
        }
    }
}

/// A correct recency listing over index state `v`: as many entries as the
/// recency selection picks, and element by element the picked entries
/// themselves.
pub open spec fn recent_listing_ok(v: Seq<(Seq<char>, Package)>, size: int, r: Seq<Package>) -> bool {
    let picked = pick_indices(entry_kinds(v), recency_order(entry_keys(v)), size);
    &&& r.len() == picked.len()
    &&& forall|i: int|
        #![trigger r[i]]
        0 <= i < r.len() ==> 0 <= picked[i] < v.len() && eq_package(r[i], v[picked[i]].1)
}

/// Recency keys of the index entries.
pub open spec fn entry_keys(v: Seq<(Seq<char>, Package)>) -> Seq<u64> {
    v.map_values(|p: (Seq<char>, Package)| recency_key(p.1.component.releases@))
}

/// Component kinds of the index entries.
pub open spec fn entry_kinds(v: Seq<(Seq<char>, Package)>) -> Seq<ComponentKind> {
    v.map_values(|p: (Seq<char>, Package)| p.1.component.kind)
}

/// A remote's timestamp counts as stale strictly beyond this many seconds.
pub const STALE_AGE_SECS: u64 = 3600;

/// What the refresh does with one remote.
#[derive(Clone, Copy, PartialEq, Eq, Structural, Debug)]
pub enum RemoteAction {
    /// The remote is disabled: no timestamp check, no sync.
    Skip,
    /// The remote is stale: sync it and materialize its collection.
    Sync,
    /// The remote's metadata is fresh: nothing to do.
    Fresh,
}

/// Which scopes a refresh pass covers.
#[derive(Clone, Copy, PartialEq, Eq, Structural, Debug)]
pub struct RefreshPlan {
    pub refresh_user: bool,
    pub refresh_system: bool,
    /// No scope is configured: the refresh is a no-op worth a warning, not
    /// an error.
    pub warn_no_installations: bool,
}

/// Where the per-origin icon link points: into the remote's per-origin
/// icon subdirectory when it exists, else at the remote's icon root.
#[derive(Clone, Copy, PartialEq, Eq, Structural, Debug)]
pub enum IconLinkTarget {
    PerOriginDir,
    IconRoot,
}

/// The refresh plan a backend state calls for.
pub open spec fn spec_refresh_plan(b: FlatpakBackend) -> RefreshPlan {
    RefreshPlan {
        refresh_user: b.has_user_installation,
        refresh_system: b.has_system_installation,
        warn_no_installations: !b.has_user_installation && !b.has_system_installation,
    }
}

/// The flatpak catalogue backend: the deduplicated package index, the two
/// per-scope parsed pools, and the scope configuration. All remote and
/// filesystem traffic is the caller's: the backend decides what to do and
/// absorbs what was parsed.
pub struct FlatpakBackend {
    /// Insertion-ordered package index; composite keys are unique.
    pub package_list: Vec<PackageEntry>,
    /// Parsed components of the user scope's pool.
    pub user_components: Vec<Component>,
    /// Parsed components of the system scope's pool.
    pub system_components: Vec<Component>,
    /// Local metadata directory of the user scope.
    pub user_metadata: String,
    /// Local metadata directory of the system scope.
    pub system_metadata: String,
    pub has_user_installation: bool,
    pub has_system_installation: bool,
}

/// Replaces the entry under `key` in place, or appends a new one.
fn upsert_entry(list: &mut Vec<PackageEntry>, key: String, component: Component)
    ensures
        entry_views(final(list)@) == spec_upsert(entry_views(old(list)@), key@, component),
{
    let mut j: usize = 0;
    while j < list.len()
        invariant
            j <= list@.len(),
            list@ == old(list)@,
            forall|q: int| 0 <= q < j ==> (#[trigger] entry_views(list@)[q]).0 != key@,
        decreases list.len() - j,
    {
        if list[j].key == key {
            proof {
                assert(entry_views(list@)[j as int].0 == key@);
                lemma_find_key_first(entry_views(list@), key@, j as int);
            }
            let ghost v = entry_views(list@);
            let ghost c = component;
            list.set(j, PackageEntry { key, package: Package::new(component) });
            proof {
                assert(entry_views(list@) =~= v.update(j as int, (key@, fresh_package(c))));
            }
            return;
        }
        j += 1;
    }
    proof {
        lemma_find_key_props(entry_views(list@), key@);
        if find_key(entry_views(list@), key@) >= 0 {
            assert(false);
        }
    }
    let ghost v = entry_views(list@);
    let ghost c = component;
    list.push(PackageEntry { key, package: Package::new(component) });
    proof {
        assert(entry_views(list@) =~= v.push((key@, fresh_package(c))));
    }
}

impl FlatpakBackend {
    /// Composite keys are unique within the index.
    pub open spec fn wf(&self) -> bool {
        index_wf(entry_views(self.package_list@))
    }

    /// A backend over the given scope configuration, with an empty index
    /// and empty pools.
    pub fn new(
        user_metadata: String,
        system_metadata: String,
        has_user_installation: bool,
        has_system_installation: bool,
    ) -> (r: Self)
        ensures
            r.package_list@ == Seq::<PackageEntry>::empty(),
            r.user_components@ == Seq::<Component>::empty(),
            r.system_components@ == Seq::<Component>::empty(),
            r.user_metadata == user_metadata,
            r.system_metadata == system_metadata,
            r.has_user_installation == has_user_installation,
            r.has_system_installation == has_system_installation,
            r.wf(),
    {
        let r = FlatpakBackend {
            package_list: Vec::new(),
            user_components: Vec::new(),
            system_components: Vec::new(),
            user_metadata,
            system_metadata,
            has_user_installation,
            has_system_installation,
        };
        proof {
            assert(entry_views(r.package_list@) =~= Seq::<(Seq<char>, Package)>::empty());
        }
        r
    }

    /// The composite key `scope "/" origin "/" bundle-id`.
    pub fn generate_package_list_key(system: bool, origin: &str, bundle_id: &str) -> (r: String)
        ensures
            r@ == spec_key(system, origin@, bundle_id@),
    {
        let mut s = if system {
            String::from_str("system")
        } else {
            String::from_str("user")
        };
        s.append("/");
        s.append(origin);
        s.append("/");
        s.append(bundle_id);
        s
    }

    /// Absorbs one scope's freshly parsed pool: the pool is stored, and
    /// every component carrying a bundle id is folded into the index under
    /// its composite key — replacing the entry in place when the key
    /// exists, appending otherwise. Components without a bundle id cannot
    /// be installed and are excluded.
    pub fn reload_appstream_pool(&mut self, system: bool, components: Vec<Component>)
        requires
            old(self).wf(),
        ensures
            final(self).wf(),
            entry_views(final(self).package_list@) == spec_reload(
                entry_views(old(self).package_list@),
                system,
                components@,
            ),
            system ==> components_like(final(self).system_components@, components@)
                && final(self).user_components@ == old(self).user_components@,
            !system ==> components_like(final(self).user_components@, components@)
                && final(self).system_components@ == old(self).system_components@,
            final(self).user_metadata == old(self).user_metadata,
            final(self).system_metadata == old(self).system_metadata,
            final(self).has_user_installation == old(self).has_user_installation,
            final(self).has_system_installation == old(self).has_system_installation,
    {
        let ghost orig = entry_views(old(self).package_list@);
        let pool_copy = clone_components(&components);
        if system {
            self.system_components = pool_copy;
        } else {
            self.user_components = pool_copy;
        }
        let mut comps = components;
        let ghost all = comps@;
        while comps.len() > 0
            invariant
                index_wf(entry_views(self.package_list@)),
                spec_reload(orig, system, all) == spec_reload(
                    entry_views(self.package_list@),
                    system,
                    comps@,
                ),
                system ==> components_like(self.system_components@, all)
                    && self.user_components@ == old(self).user_components@,
                !system ==> components_like(self.user_components@, all)
                    && self.system_components@ == old(self).system_components@,
                self.user_metadata == old(self).user_metadata,
                self.system_metadata == old(self).system_metadata,
                self.has_user_installation == old(self).has_user_installation,
                self.has_system_installation == old(self).has_system_installation,
            decreases comps.len(),
        {
            let ghost remaining = comps@;
            let ghost v_before = entry_views(self.package_list@);
            let c = comps.remove(0);
            proof {
                assert(comps@ =~= remaining.drop_first());
                assert(remaining[0] == c);
            }
            let has_bundle = match &c.bundle_id {
                Some(bundle) => {
                    let key = FlatpakBackend::generate_package_list_key(
                        system,
                        c.origin.as_str(),
                        bundle.as_str(),
                    );
                    proof {
                        assert(key@ == comp_key(system, c));
                        lemma_upsert_props(v_before, key@, c);
                    }
                    upsert_entry(&mut self.package_list, key, c);
                    true
                },
                None => false,
            };
            proof {
                if has_bundle {
                    assert(spec_reload(v_before, system, remaining) == spec_reload(
                        spec_upsert(v_before, comp_key(system, remaining[0]), remaining[0]),
                        system,
                        remaining.drop_first(),
                    ));
                } else {
                    assert(spec_reload(v_before, system, remaining) == spec_reload(
                        v_before,
                        system,
                        remaining.drop_first(),
                    ));
                }
            }
        }
        proof {
            assert(spec_reload(entry_views(self.package_list@), system, comps@) == entry_views(
                self.package_list@,
            ));
        }
    }

    /// The first indexed entry whose raw component id is `id` or
    /// `id + ".desktop"`, scanning in index order.
    pub fn get_package_for_component_id(&self, id: String) -> (r: Option<Package>)
        ensures
            r is Some <==> spec_lookup(entry_views(self.package_list@), id@) is Some,
            r is Some ==> eq_package(
                r->Some_0,
                spec_lookup(entry_views(self.package_list@), id@)->Some_0,
            ),
    {
        let suffixed = id.clone().concat(".desktop");
        let ghost v = entry_views(self.package_list@);
        let mut j: usize = 0;
        while j < self.package_list.len()
            invariant
                j <= self.package_list@.len(),
                v == entry_views(self.package_list@),
                suffixed@ == id@ + ".desktop"@,
                forall|q: int| 0 <= q < j ==> !id_matches((#[trigger] v[q]).1.component, id@),
            decreases self.package_list.len() - j,
        {
            let c = &self.package_list[j].package.component;
            if c.id == id || c.id == suffixed {
                proof {
                    assert(v[j as int].1 == self.package_list@[j as int].package);
                    lemma_lookup_first(v, id@, j as int);
                }
                return Some(self.package_list[j].package.clone());
            }
            proof {
                assert(v[j as int].1 == self.package_list@[j as int].package);
            }
            j += 1;
        }
        proof {
            lemma_lookup_none(v, id@);
        }
        None
    }

    /// Re-buckets the system pool into the given category (its previous
    /// contents are dropped first), then maps each bucketed component back
    /// to its indexed entry by raw id; components without an indexed entry
    /// are dropped.
    pub fn get_packages_for_category(&self, category: &mut Category) -> (r: Vec<Package>)
        ensures
            final(category).name == old(category).name,
            final(category).icon == old(category).icon,
            final(category).desktop_groups@ == old(category).desktop_groups@,
            components_like(
                final(category).components@,
                spec_bucket(
                    Seq::<Component>::empty(),
                    self.system_components@,
                    str_views(old(category).desktop_groups@),
                    false,
                ),
            ),
            crate::package::packages_like(
                r@,
                spec_category_lookup(
                    entry_views(self.package_list@),
                    final(category).components@,
                ),
            ),
    {
        category.components = Vec::new();
        crate::category::bucket_into(
            &mut category.components,
            &self.system_components,
            &category.desktop_groups,
            false,
        );
        let ghost v = entry_views(self.package_list@);
        let ghost matched = category.components@;
        let mut out: Vec<Package> = Vec::new();
        let mut i: usize = 0;
        proof {
            assert(matched.take(0) =~= Seq::<Component>::empty());
            assert(spec_category_lookup(v, matched.take(0)) == Seq::<Package>::empty());
        }
        while i < category.components.len()
            invariant
                i <= matched.len(),
                matched == category.components@,
                v == entry_views(self.package_list@),
                crate::package::packages_like(
                    out@,
                    spec_category_lookup(v, matched.take(i as int)),
                ),
            decreases category.components.len() - i,
        {
            let pkg = self.get_package_for_component_id(category.components[i].id.clone());
            proof {
                lemma_category_lookup_snoc(v, matched.take(i as int), matched[i as int]);
                assert(matched.take(i as int).push(matched[i as int]) =~= matched.take(
                    i + 1 as int,
                ));
            }
            match pkg {
                Some(p) => {
                    out.push(p);
                },
                None => {},
            }
            i += 1;
        }
        proof {
            assert(matched.take(matched.len() as int) =~= matched);
        }
        out
    }

    /// The most recently updated desktop applications in the index, newest
    /// first by latest-release timestamp (entries without a release count
    /// as timestamp 0 and come last, ties keep index order), truncated to
    /// `size` entries.
    #[verifier::rlimit(50)]
    pub fn get_recently_updated_packages(&self, size: usize) -> (r: Vec<Package>)
        ensures
            recent_listing_ok(entry_views(self.package_list@), size as int, r@),
    {
        let ghost v = entry_views(self.package_list@);
        let mut keys: Vec<u64> = Vec::new();
        let mut i: usize = 0;
        while i < self.package_list.len()
            invariant
                i <= self.package_list@.len(),
                v == entry_views(self.package_list@),
                keys@.len() == i,
                forall|q: int| 0 <= q < i ==> keys@[q] == entry_keys(v)[q],
            decreases self.package_list.len() - i,
        {
            let key = match latest_release(&self.package_list[i].package.component.releases) {
                Some(rel) => rel.timestamp,
                None => 0,
            };
            keys.push(key);
            proof {
                assert(v[i as int].1 == self.package_list@[i as int].package);
            }
            i += 1;
        }
        proof {
            assert(keys@ =~= entry_keys(v));
        }
        let order = sort_indices_desc(&keys);
        let mut out: Vec<Package> = Vec::new();
        let ghost mut done: Seq<int> = Seq::empty();
        let ghost full = recency_order(entry_keys(v));
        let mut k: usize = 0;
        proof {
            assert(idx_views(order@).skip(0) =~= idx_views(order@));
            assert(done + pick_indices(entry_kinds(v), full, size as int) =~= pick_indices(
                entry_kinds(v),
                full,
                size as int,
            ));
        }
        while k < order.len()
            invariant
                k <= order@.len(),
                v == entry_views(self.package_list@),
                v.len() == keys@.len(),
                full == recency_order(entry_keys(v)),
                idx_views(order@) == full,
                forall|a: int| 0 <= a < order@.len() ==> #[trigger] order@[a] < v.len(),
                out@.len() == done.len() <= size,
                pick_indices(entry_kinds(v), full, size as int) == done + pick_indices(
                    entry_kinds(v),
                    idx_views(order@).skip(k as int),
                    size - done.len(),
                ),
                forall|j: int| 0 <= j < done.len() ==> 0 <= #[trigger] done[j] < v.len(),
                forall|j: int|
                    0 <= j < done.len() ==> eq_package(#[trigger] out@[j], v[done[j]].1),
            decreases order.len() - k,
        {
            let idx = order[k];
            let ghost rest = idx_views(order@).skip(k as int);
            proof {
                assert(rest[0] == order@[k as int] as int);
                assert(rest.drop_first() =~= idx_views(order@).skip(k + 1 as int));
                assert(v[idx as int].1 == self.package_list@[idx as int].package);
                assert(entry_kinds(v)[idx as int] == v[idx as int].1.component.kind);
            }
            let is_app = match self.package_list[idx].package.component.kind {
                ComponentKind::DesktopApp => true,
                _ => false,
            };
            if out.len() < size && is_app {
                let ghost out0 = out@;
                let ghost done0 = done;
                out.push(self.package_list[idx].package.clone());
                proof {
                    assert(eq_package(out@[out@.len() - 1], v[idx as int].1));
                    assert(seq![rest[0]] + pick_indices(
                        entry_kinds(v),
                        rest.drop_first(),
                        size - done.len() - 1,
                    ) =~= pick_indices(entry_kinds(v), rest, size - done.len()));
                    done = done.push(idx as int);
                    assert((done + pick_indices(
                        entry_kinds(v),
                        rest.drop_first(),
                        size - done.len(),
                    )) =~= (done.drop_last() + (seq![rest[0]] + pick_indices(
                        entry_kinds(v),
                        rest.drop_first(),
                        size - done.len(),
                    ))));
                    assert forall|j: int| 0 <= j < done.len() implies {
                        &&& 0 <= #[trigger] done[j] < v.len()
                        &&& eq_package(#[trigger] out@[j], v[done[j]].1)
                    } by {
                        if j == done.len() - 1 {
                            assert(done[j] == idx as int);
                            assert(out@[j] == out@.last());
                        } else {
                            assert(done[j] == done0[j]);
                            assert(out@[j] == out0[j]);
                            assert(eq_package(out0[j], v[done0[j]].1));
                        }
                    }
                }
            }
            k += 1;
        }
        proof {
            assert(idx_views(order@).skip(order@.len() as int) =~= Seq::<int>::empty());
            assert(done + Seq::<int>::empty() =~= done);
            assert(done == pick_indices(entry_kinds(v), recency_order(entry_keys(v)), size as int));
        }
        out
    }

    /// Entries present in an installation. Installation queries are not
    /// supported yet: the answer is always empty, never an error.
    pub fn get_installed_packages(&self) -> (r: Vec<Package>)
        ensures
            r@ == Seq::<Package>::empty(),
    {
        Vec::new()
    }

    /// Which scopes a refresh pass covers: every configured scope, in
    /// sequence; with no scope configured the pass is an empty plan that
    /// only warrants a warning.
    pub fn refresh_plan(&self) -> (r: RefreshPlan)
        ensures
            r == spec_refresh_plan(*self),
    {
        RefreshPlan {
            refresh_user: self.has_user_installation,
            refresh_system: self.has_system_installation,
            warn_no_installations: !self.has_user_installation && !self.has_system_installation,
        }
    }

    /// The per-remote refresh decision: a disabled remote is skipped
    /// outright; an enabled one syncs when its timestamp file is missing
    /// or strictly older than the staleness bound, and is left alone
    /// otherwise. An age of exactly the bound is still fresh.
    pub fn remote_refresh_action(disabled: bool, timestamp_exists: bool, age_secs: u64) -> (r:
        RemoteAction)
        ensures
            (r == RemoteAction::Skip) <==> disabled,
            (r == RemoteAction::Sync) <==> (!disabled && (!timestamp_exists || age_secs
                > STALE_AGE_SECS)),
            (r == RemoteAction::Fresh) <==> (!disabled && timestamp_exists && age_secs
                <= STALE_AGE_SECS),
    {
        if disabled {
            RemoteAction::Skip
        } else if !timestamp_exists || age_secs > STALE_AGE_SECS {
            RemoteAction::Sync
        } else {
            RemoteAction::Fresh
        }
    }

    /// The file name a remote's rewritten collection is materialized
    /// under: `<origin>.xml`.
    pub fn collection_file_name(origin: &str) -> (r: String)
        ensures
            r@ == origin@ + ".xml"@,
    {
        String::from_str(origin).concat(".xml")
    }

    /// Where the per-origin icon link points: into the remote's per-origin
    /// icon subdirectory when it exists, else at the remote's icon root.
    pub fn icon_link_target(per_origin_dir_exists: bool) -> (r: IconLinkTarget)
        ensures
            r == IconLinkTarget::PerOriginDir <==> per_origin_dir_exists,
            r == IconLinkTarget::IconRoot <==> !per_origin_dir_exists,
    {
        if per_origin_dir_exists {
            IconLinkTarget::PerOriginDir
        } else {
            IconLinkTarget::IconRoot
        }
    }
}

impl Default for FlatpakBackend {
    /// A backend with no configured scope: queries answer over an empty
    /// index and a refresh pass is an empty plan.
    fn default() -> (r: Self)
        ensures
            r.package_list@ == Seq::<PackageEntry>::empty(),
            r.user_components@ == Seq::<Component>::empty(),
            r.system_components@ == Seq::<Component>::empty(),
            r.user_metadata@ == Seq::<char>::empty(),
            r.system_metadata@ == Seq::<char>::empty(),
            !r.has_user_installation,
            !r.has_system_installation,
            r.wf(),
    {
        FlatpakBackend::new(String::new(), String::new(), false, false)
    }
}

/// Scopes are independent failure domains: with the system installation
/// unavailable and the user installation healthy, the refresh plan still
/// covers the user scope with no warning, and a user-scope reload still
/// indexes every bundled component under its user-scope key.
pub proof fn lemma_scope_independence(b: FlatpakBackend, comps: Seq<Component>)
    requires
        b.has_user_installation,
        !b.has_system_installation,
    ensures
        spec_refresh_plan(b).refresh_user,
        !spec_refresh_plan(b).refresh_system,
        !spec_refresh_plan(b).warn_no_installations,
        forall|i: int|
            0 <= i < comps.len() && (#[trigger] comps[i]).bundle_id is Some ==> has_key(
                spec_reload(entry_views(b.package_list@), false, comps),
                comp_key(false, comps[i]),
            ),
{
    lemma_reload_props(entry_views(b.package_list@), false, comps);
    assert forall|i: int|
        0 <= i < comps.len() && (#[trigger] comps[i]).bundle_id is Some implies has_key(
        spec_reload(entry_views(b.package_list@), false, comps),
        comp_key(false, comps[i]),
    ) by {
        lemma_last_with_key_witness(comps, false, i);
    }
}

} // verus!
