//! The static category taxonomy and category-scoped queries: six fixed
//! human-facing categories, each matching a set of raw desktop group tags,
//! and the bucketing of a metadata collection into them.

use vstd::prelude::*;

use crate::component::{components_like, eq_component, Component, ComponentKind};
use crate::package::{str_views, Package};
use crate::recent::{idx_views, kinds_of, pick_indices, recency_key, recency_order, sort_indices_desc};

verus! {

/// One category: a display name, a themed icon name, the raw desktop
/// group tags it matches, and the components last bucketed into it.
pub struct Category {
    pub name: String,
    pub icon: String,
    pub desktop_groups: Vec<String>,
    pub components: Vec<Component>,
}

/// The component carries at least one tag out of `groups`.
pub open spec fn matches_groups(c: Component, groups: Seq<Seq<char>>) -> bool {
    exists|i: int, j: int|
        #![trigger c.categories@[i], groups[j]]
        0 <= i < c.categories@.len() && 0 <= j < groups.len() && c.categories@[i]@ == groups[j]
}

/// Whether the component carries at least one of the category's tags.
pub fn component_matches(c: &Component, groups: &Vec<String>) -> (r: bool)
    ensures
        r == matches_groups(*c, str_views(groups@)),
{
    let mut i: usize = 0;
    while i < c.categories.len()
        invariant
            i <= c.categories@.len(),
            forall|a: int, b: int|
                #![trigger c.categories@[a], groups@[b]]
                0 <= a < i && 0 <= b < groups@.len() ==> c.categories@[a]@ != groups@[b]@,
        decreases c.categories.len() - i,
    {
        let mut j: usize = 0;
        while j < groups.len()
            invariant
                i < c.categories@.len(),
                j <= groups@.len(),
                forall|b: int|
                    0 <= b < j ==> c.categories@[i as int]@ != #[trigger] groups@[b]@,
            decreases groups.len() - j,
        {
            if c.categories[i] == groups[j] {
                proof {
                    assert(c.categories@[i as int]@ == str_views(groups@)[j as int]);
                }
                return true;
            }
            j += 1;
        }
        i += 1;
    }
    proof {
        assert forall|i: int, j: int|
            #![trigger c.categories@[i], str_views(groups@)[j]]
            0 <= i < c.categories@.len() && 0 <= j < str_views(groups@).len() implies c.categories@[i]@
            != str_views(groups@)[j] by {
            assert(str_views(groups@)[j] == groups@[j]@);
        }
    }
    false
}

/// Some component in `s` has this raw id.
pub open spec fn has_component_id(s: Seq<Component>, id: Seq<char>) -> bool {
    exists|i: int| 0 <= i < s.len() && (#[trigger] s[i]).id@ == id
}

fn contains_component_id(v: &Vec<Component>, id: &String) -> (r: bool)
    ensures
        r == has_component_id(v@, id@),
{
    let mut i: usize = 0;
    while i < v.len()
        invariant
            i <= v@.len(),
            forall|a: int| 0 <= a < i ==> (#[trigger] v@[a]).id@ != id@,
        decreases v.len() - i,
    {
        if v[i].id == *id {
            return true;
        }
        i += 1;
    }
    false
}

/// Whether a component is added to a bucket holding `existing`: it must
/// match the tags, and, when duplicates are checked, no component with the
/// same id may already be present.
pub open spec fn bucket_keep(
    existing: Seq<Component>,
    c: Component,
    groups: Seq<Seq<char>>,
    dedup: bool,
) -> bool {
    matches_groups(c, groups) && (!dedup || !has_component_id(existing, c.id@))
}

/// The bucket after offering every component of `comps`, in order, to a
/// bucket that starts as `existing`.
pub open spec fn spec_bucket(
    existing: Seq<Component>,
    comps: Seq<Component>,
    groups: Seq<Seq<char>>,
    dedup: bool,
) -> Seq<Component>
    decreases comps.len(),
{
    if comps.len() == 0 {
        existing
    } else {
        let next = if bucket_keep(existing, comps[0], groups, dedup) {
            existing.push(comps[0])
        } else {
            existing
        };
        spec_bucket(next, comps.drop_first(), groups, dedup)
    }
}

proof fn lemma_bucket_snoc(
    existing: Seq<Component>,
    comps: Seq<Component>,
    x: Component,
    groups: Seq<Seq<char>>,
    dedup: bool,
)
    ensures
        spec_bucket(existing, comps.push(x), groups, dedup) == ({
            let e = spec_bucket(existing, comps, groups, dedup);
            if bucket_keep(e, x, groups, dedup) {
                e.push(x)
            } else {
                e
            }
        }),
    decreases comps.len(),
{
    if comps.len() == 0 {
        let next = if bucket_keep(existing, x, groups, dedup) {
            existing.push(x)
        } else {
            existing
        };
        assert(comps.push(x)[0] == x);
        assert(comps.push(x).drop_first() =~= Seq::<Component>::empty());
        assert(spec_bucket(existing, comps.push(x), groups, dedup) == spec_bucket(
            next,
            comps.push(x).drop_first(),
            groups,
            dedup,
        ));
        assert(spec_bucket(next, comps.push(x).drop_first(), groups, dedup) == next);
        assert(spec_bucket(existing, comps, groups, dedup) == existing);
    } else {
        assert(comps.push(x)[0] == comps[0]);
        assert(comps.push(x).drop_first() =~= comps.drop_first().push(x));
        let next = if bucket_keep(existing, comps[0], groups, dedup) {
            existing.push(comps[0])
        } else {
            existing
        };
        assert(spec_bucket(existing, comps.push(x), groups, dedup) == spec_bucket(
            next,
            comps.drop_first().push(x),
            groups,
            dedup,
        ));
        assert(spec_bucket(existing, comps, groups, dedup) == spec_bucket(
            next,
            comps.drop_first(),
            groups,
            dedup,
        ));
        lemma_bucket_snoc(next, comps.drop_first(), x, groups, dedup);
    }
}

proof fn lemma_like_has_id(a: Seq<Component>, b: Seq<Component>, id: Seq<char>)
    requires
        components_like(a, b),
    ensures
        has_component_id(a, id) == has_component_id(b, id),
{
    if has_component_id(a, id) {
        let i = choose|i: int| 0 <= i < a.len() && a[i].id@ == id;
        assert(b[i].id@ == id);
    }
    if has_component_id(b, id) {
        let i = choose|i: int| 0 <= i < b.len() && b[i].id@ == id;
        assert(a[i].id@ == id);
    }
}

/// Offers every component of `comps`, in order, to the bucket `target`:
/// matching components are appended, with duplicate ids skipped when
/// `dedup` is set.
pub(crate) fn bucket_into(
    target: &mut Vec<Component>,
    comps: &Vec<Component>,
    groups: &Vec<String>,
    dedup: bool,
)
    ensures
        components_like(
            final(target)@,
            spec_bucket(old(target)@, comps@, str_views(groups@), dedup),
        ),
{
    let ghost orig = old(target)@;
    let ghost gviews = str_views(groups@);
    let mut i: usize = 0;
    proof {
        assert(comps@.take(0) =~= Seq::<Component>::empty());
    }
    while i < comps.len()
        invariant
            i <= comps@.len(),
            gviews == str_views(groups@),
            orig == old(target)@,
            components_like(target@, spec_bucket(orig, comps@.take(i as int), gviews, dedup)),
        decreases comps.len() - i,
    {
        let ghost acc = spec_bucket(orig, comps@.take(i as int), gviews, dedup);
        let c = &comps[i];
        let is_match = component_matches(c, groups);
        let dup = if dedup {
            contains_component_id(target, &c.id)
        } else {
            false
        };
        proof {
            lemma_like_has_id(target@, acc, c.id@);
            lemma_bucket_snoc(orig, comps@.take(i as int), comps@[i as int], gviews, dedup);
            assert(comps@.take(i as int).push(comps@[i as int]) =~= comps@.take(i + 1 as int));
        }
        if is_match && !dup {
            target.push(c.clone());
        }
        i += 1;
    }
    proof {
        assert(comps@.take(comps@.len() as int) =~= comps@);
    }
}

/// Buckets the given components into every category: each category keeps
/// its tags and gains, in collection order, the components that match
/// them; with `check_duplicates`, a component whose id is already present
/// in that category is skipped.
pub fn sort_components_into_categories(
    cpts: &Vec<Component>,
    categories: &mut Vec<Category>,
    check_duplicates: bool,
)
    ensures
        final(categories)@.len() == old(categories)@.len(),
        forall|k: int|
            0 <= k < old(categories)@.len() ==> {
                let before = #[trigger] old(categories)@[k];
                let after = #[trigger] final(categories)@[k];
                &&& after.name == before.name
                &&& after.icon == before.icon
                &&& after.desktop_groups@ == before.desktop_groups@
                &&& components_like(
                    after.components@,
                    spec_bucket(
                        before.components@,
                        cpts@,
                        str_views(before.desktop_groups@),
                        check_duplicates,
                    ),
                )
            },
{
    let mut k: usize = 0;
    while k < categories.len()
        invariant
            k <= categories@.len(),
            categories@.len() == old(categories)@.len(),
            forall|q: int| k <= q < categories@.len() ==> categories@[q] == old(categories)@[q],
            forall|q: int|
                0 <= q < k ==> {
                    let before = #[trigger] old(categories)@[q];
                    let after = #[trigger] categories@[q];
                    &&& after.name == before.name
                    &&& after.icon == before.icon
                    &&& after.desktop_groups@ == before.desktop_groups@
                    &&& components_like(
                        after.components@,
                        spec_bucket(
                            before.components@,
                            cpts@,
                            str_views(before.desktop_groups@),
                            check_duplicates,
                        ),
                    )
                },
        decreases categories.len() - k,
    {
        let ghost snapshot = categories@;
        let mut cat = categories.remove(k);
        bucket_into(&mut cat.components, cpts, &cat.desktop_groups, check_duplicates);
        categories.insert(k, cat);
        proof {
            assert forall|q: int|
                0 <= q < categories@.len() && q != k implies #[trigger] categories@[q]
                == snapshot[q] by {
                assert(categories@[q] == snapshot.remove(k as int).insert(
                    k as int,
                    categories@[k as int],
                )[q]);
            }
        }
        k += 1;
    }
}

/// Recency keys of a component list.
pub open spec fn comps_keys(comps: Seq<Component>) -> Seq<u64> {
    comps.map_values(|c: Component| recency_key(c.releases@))
}

impl Category {
    /// The most recently released desktop applications bucketed into this
    /// category, newest first by latest-release timestamp (components
    /// without a release count as timestamp 0 and come last, ties keep
    /// collection order), truncated to `size` entries (20 when
    /// unspecified), each wrapped as a fresh catalogue entry.
    pub fn get_recently_updated_packages(&self, size: Option<usize>) -> (r: Vec<Package>)
        ensures
            ({
                let comps = self.components@;
                let limit = (match size {
                    Some(s) => s,
                    None => 20,
                }) as int;
                let picked = pick_indices(kinds_of(comps), recency_order(comps_keys(comps)), limit);
                &&& r@.len() == picked.len()
                &&& forall|i: int|
                    0 <= i < r@.len() ==> {
                        &&& 0 <= #[trigger] picked[i] < comps.len()
                        &&& eq_component((#[trigger] r@[i]).component, comps[picked[i]])
                        &&& r@[i].name is None
                        &&& r@[i].summary is None
                    }
            }),
    {
        let limit: usize = match size {
            Some(s) => s,
            None => 20,
        };
        let ghost comps = self.components@;
        let mut keys: Vec<u64> = Vec::new();
        let mut i: usize = 0;
        while i < self.components.len()
            invariant
                i <= comps.len(),
                comps == self.components@,
                keys@.len() == i,
                forall|q: int| 0 <= q < i ==> keys@[q] == comps_keys(comps)[q],
            decreases self.components.len() - i,
        {
            let key = match crate::package::latest_release(&self.components[i].releases) {
                Some(rel) => rel.timestamp,
                None => 0,
            };
            keys.push(key);
            i += 1;
        }
        proof {
            assert(keys@ =~= comps_keys(comps));
        }
        let order = sort_indices_desc(&keys);
        let mut out: Vec<Package> = Vec::new();
        let ghost mut done: Seq<int> = Seq::empty();
        let ghost full = recency_order(comps_keys(comps));
        let mut k: usize = 0;
        proof {
            assert(idx_views(order@).skip(0) =~= idx_views(order@));
            assert(done + pick_indices(kinds_of(comps), full, limit as int) =~= pick_indices(
                kinds_of(comps),
                full,
                limit as int,
            ));
        }
        while k < order.len()
            invariant
                k <= order@.len(),
                comps == self.components@,
                comps.len() == keys@.len(),
                idx_views(order@) == full,
                forall|a: int| 0 <= a < order@.len() ==> #[trigger] order@[a] < comps.len(),
                out@.len() == done.len() <= limit,
                pick_indices(kinds_of(comps), full, limit as int) == done + pick_indices(
                    kinds_of(comps),
                    idx_views(order@).skip(k as int),
                    limit - done.len(),
                ),
                forall|j: int|
                    0 <= j < done.len() ==> {
                        &&& 0 <= #[trigger] done[j] < comps.len()
                        &&& eq_component((#[trigger] out@[j]).component, comps[done[j]])
                        &&& out@[j].name is None
                        &&& out@[j].summary is None
                    },
            decreases order.len() - k,
        {
            let idx = order[k];
            let ghost rest = idx_views(order@).skip(k as int);
            proof {
                assert(rest[0] == order@[k as int] as int);
                assert(rest.drop_first() =~= idx_views(order@).skip(k + 1 as int));
            }
            let is_app = match self.components[idx].kind {
                ComponentKind::DesktopApp => true,
                _ => false,
            };
            if out.len() < limit && is_app {
                out.push(Package::new(self.components[idx].clone()));
                proof {
                    assert(kinds_of(comps)[idx as int] == comps[idx as int].kind);
                    assert(seq![rest[0]] + pick_indices(
                        kinds_of(comps),
                        rest.drop_first(),
                        limit - done.len() - 1,
                    ) =~= pick_indices(kinds_of(comps), rest, limit - done.len()));
                    done = done.push(idx as int);
                    assert((done + pick_indices(
                        kinds_of(comps),
                        rest.drop_first(),
                        limit - done.len(),
                    )) =~= (done.drop_last() + (seq![rest[0]] + pick_indices(
                        kinds_of(comps),
                        rest.drop_first(),
                        limit - done.len(),
                    ))));
                }
            } else {
                proof {
                    assert(kinds_of(comps)[idx as int] == comps[idx as int].kind);
                }
            }
            k += 1;
        }
        proof {
            assert(idx_views(order@).skip(order@.len() as int) =~= Seq::<int>::empty());
            assert(done + Seq::<int>::empty() =~= done);
        }
        out
    }
}

pub open spec fn accessories_groups() -> Seq<Seq<char>> {
    seq!["Utility"@, "Monitor"@, "System"@, "Accessibility"@]
}

pub open spec fn internet_groups() -> Seq<Seq<char>> {
    seq![
        "Chat"@,
        "Email"@,
        "InstantMessaging"@,
        "IRCClient"@,
        "VideoConference"@,
        "Network"@,
        "P2P"@,
    ]
}

pub open spec fn games_groups() -> Seq<Seq<char>> {
    seq![
        "ActionGame"@,
        "AdventureGame"@,
        "ArcadeGame"@,
        "Amusement"@,
        "BlocksGame"@,
        "BoardGame"@,
        "CardGame"@,
        "Game"@,
        "KidsGame"@,
        "LogicGame"@,
        "RolePlaying"@,
        "Shooter"@,
        "Simulation"@,
        "SportsGame"@,
        "StrategyGame"@,
    ]
}

pub open spec fn develop_groups() -> Seq<Seq<char>> {
    seq![
        "Database"@,
        "Debugger"@,
        "Development"@,
        "GUIDesigner"@,
        "IDE"@,
        "RevisionControl"@,
        "TerminalEmulator"@,
        "WebDevelopment"@,
    ]
}

pub open spec fn create_groups() -> Seq<Seq<char>> {
    seq![
        "2DGraphics"@,
        "3DGraphics"@,
        "Graphics"@,
        "ImageProcessing"@,
        "Photography"@,
        "RasterGraphics"@,
        "VectorGraphics"@,
        "AudioVideoEditing"@,
        "Midi"@,
        "Mixer"@,
        "Recorder"@,
        "Sequencer"@,
        "ArtificialIntelligence"@,
        "Astronomy"@,
        "Biology"@,
        "Calculator"@,
        "Chemistry"@,
        "ComputerScience"@,
        "DataVisualization"@,
        "Electricity"@,
        "Electronics"@,
        "Engineering"@,
        "Geology"@,
        "Geoscience"@,
        "Math"@,
        "NumericalAnalysis"@,
        "Physics"@,
        "Robotics"@,
        "Science"@,
        "TV"@,
        "Video"@,
        "Audio"@,
        "Music"@,
    ]
}

pub open spec fn work_groups() -> Seq<Seq<char>> {
    seq![
        "Chat"@,
        "ContactManagement"@,
        "Email"@,
        "InstantMessaging"@,
        "IRCClient"@,
        "Telephony"@,
        "VideoConference"@,
        "Economy"@,
        "Finance"@,
        "Network"@,
        "P2P"@,
        "Office"@,
        "Presentation"@,
        "Publishing"@,
        "Spreadsheet"@,
        "WordProcessor"@,
        "Dictionary"@,
        "Languages"@,
        "Literature"@,
        "OCR"@,
        "TextEditor"@,
        "TextTools"@,
        "Translation"@,
    ]
}

fn push_group(v: &mut Vec<String>, s: &str)
    ensures
        str_views(final(v)@) == str_views(old(v)@).push(s@),
{
    v.push(String::from_str(s));
    proof {
        assert(str_views(v@) =~= str_views(old(v)@).push(s@));
    }
}

fn make_category(name: &str, icon: &str, desktop_groups: Vec<String>) -> (r: Category)
    ensures
        r.name@ == name@,
        r.icon@ == icon@,
        r.desktop_groups@ == desktop_groups@,
        r.components@ == Seq::<Component>::empty(),
{
    Category {
        name: String::from_str(name),
        icon: String::from_str(icon),
        desktop_groups,
        components: Vec::new(),
    }
}

/// The six fixed catalogue categories with their enumerated group-tag
/// sets.
pub struct CatalogueCategories {
    pub accessories: Category,
    pub internet: Category,
    pub games: Category,
    pub develop: Category,
    pub create: Category,
    pub work: Category,
}

/// A category carries the given name, icon, group tags and no bucketed
/// components yet.
pub open spec fn category_is(c: Category, name: Seq<char>, icon: Seq<char>, groups: Seq<Seq<char>>) -> bool {
    &&& c.name@ == name
    &&& c.icon@ == icon
    &&& str_views(c.desktop_groups@) == groups
    &&& c.components@ == Seq::<Component>::empty()
}

fn build_accessories() -> (r: Category)
    ensures
        category_is(r, "Accessories"@, "application-accessories-symbolic"@, accessories_groups()),
{
    let mut g: Vec<String> = Vec::new();
    proof {
        assert(str_views(g@) =~= Seq::<Seq<char>>::empty());
    }
    push_group(&mut g, "Utility");
    push_group(&mut g, "Monitor");
    push_group(&mut g, "System");
    push_group(&mut g, "Accessibility");
    proof {
        assert(str_views(g@) =~= accessories_groups());
    }
    make_category("Accessories", "application-accessories-symbolic", g)
}

fn build_internet() -> (r: Category)
    ensures
        category_is(r, "Internet"@, "application-internet-symbolic"@, internet_groups()),
{
    let mut g: Vec<String> = Vec::new();
    proof {
        assert(str_views(g@) =~= Seq::<Seq<char>>::empty());
    }
    push_group(&mut g, "Chat");
    push_group(&mut g, "Email");
    push_group(&mut g, "InstantMessaging");
    push_group(&mut g, "IRCClient");
    push_group(&mut g, "VideoConference");
    push_group(&mut g, "Network");
    push_group(&mut g, "P2P");
    proof {
        assert(str_views(g@) =~= internet_groups());
    }
    make_category("Internet", "application-internet-symbolic", g)
}

fn build_games() -> (r: Category)
    ensures
        category_is(r, "Games"@, "application-games-symbolic"@, games_groups()),
{
    let mut g: Vec<String> = Vec::new();
    proof {
        assert(str_views(g@) =~= Seq::<Seq<char>>::empty());
    }
    push_group(&mut g, "ActionGame");
    push_group(&mut g, "AdventureGame");
    push_group(&mut g, "ArcadeGame");
    push_group(&mut g, "Amusement");
    push_group(&mut g, "BlocksGame");
    push_group(&mut g, "BoardGame");
    push_group(&mut g, "CardGame");
    push_group(&mut g, "Game");
    push_group(&mut g, "KidsGame");
    push_group(&mut g, "LogicGame");
    push_group(&mut g, "RolePlaying");
    push_group(&mut g, "Shooter");
    push_group(&mut g, "Simulation");
    push_group(&mut g, "SportsGame");
    push_group(&mut g, "StrategyGame");
    proof {
        assert(str_views(g@) =~= games_groups());
    }
    make_category("Games", "application-games-symbolic", g)
}

fn build_develop() -> (r: Category)
    ensures
        category_is(r, "Develop"@, "application-development-symbolic"@, develop_groups()),
{
    let mut g: Vec<String> = Vec::new();
    proof {
        assert(str_views(g@) =~= Seq::<Seq<char>>::empty());
    }
    push_group(&mut g, "Database");
    push_group(&mut g, "Debugger");
    push_group(&mut g, "Development");
    push_group(&mut g, "GUIDesigner");
    push_group(&mut g, "IDE");
    push_group(&mut g, "RevisionControl");
    push_group(&mut g, "TerminalEmulator");
    push_group(&mut g, "WebDevelopment");
    proof {
        assert(str_views(g@) =~= develop_groups());
    }
    make_category("Develop", "application-development-symbolic", g)
}

fn build_create() -> (r: Category)
    ensures
        category_is(r, "Create"@, "applications-graphics-symbolic"@, create_groups()),
{
    let mut g: Vec<String> = Vec::new();
    proof {
        assert(str_views(g@) =~= Seq::<Seq<char>>::empty());
    }
    push_group(&mut g, "2DGraphics");
    push_group(&mut g, "3DGraphics");
    push_group(&mut g, "Graphics");
    push_group(&mut g, "ImageProcessing");
    push_group(&mut g, "Photography");
    push_group(&mut g, "RasterGraphics");
    push_group(&mut g, "VectorGraphics");
    push_group(&mut g, "AudioVideoEditing");
    push_group(&mut g, "Midi");
    push_group(&mut g, "Mixer");
    push_group(&mut g, "Recorder");
    push_group(&mut g, "Sequencer");
    push_group(&mut g, "ArtificialIntelligence");
    push_group(&mut g, "Astronomy");
    push_group(&mut g, "Biology");
    push_group(&mut g, "Calculator");
    push_group(&mut g, "Chemistry");
    push_group(&mut g, "ComputerScience");
    push_group(&mut g, "DataVisualization");
    push_group(&mut g, "Electricity");
    push_group(&mut g, "Electronics");
    push_group(&mut g, "Engineering");
    push_group(&mut g, "Geology");
    push_group(&mut g, "Geoscience");
    push_group(&mut g, "Math");
    push_group(&mut g, "NumericalAnalysis");
    push_group(&mut g, "Physics");
    push_group(&mut g, "Robotics");
    push_group(&mut g, "Science");
    push_group(&mut g, "TV");
    push_group(&mut g, "Video");
    push_group(&mut g, "Audio");
    push_group(&mut g, "Music");
    proof {
        assert(str_views(g@) =~= create_groups());
    }
    make_category("Create", "applications-graphics-symbolic", g)
}

fn build_work() -> (r: Category)
    ensures
        category_is(r, "Work"@, "application-office-symbolic"@, work_groups()),
{
    let mut g: Vec<String> = Vec::new();
    proof {
        assert(str_views(g@) =~= Seq::<Seq<char>>::empty());
    }
    push_group(&mut g, "Chat");
    push_group(&mut g, "ContactManagement");
    push_group(&mut g, "Email");
    push_group(&mut g, "InstantMessaging");
    push_group(&mut g, "IRCClient");
    push_group(&mut g, "Telephony");
    push_group(&mut g, "VideoConference");
    push_group(&mut g, "Economy");
    push_group(&mut g, "Finance");
    push_group(&mut g, "Network");
    push_group(&mut g, "P2P");
    push_group(&mut g, "Office");
    push_group(&mut g, "Presentation");
    push_group(&mut g, "Publishing");
    push_group(&mut g, "Spreadsheet");
    push_group(&mut g, "WordProcessor");
    push_group(&mut g, "Dictionary");
    push_group(&mut g, "Languages");
    push_group(&mut g, "Literature");
    push_group(&mut g, "OCR");
    push_group(&mut g, "TextEditor");
    push_group(&mut g, "TextTools");
    push_group(&mut g, "Translation");
    proof {
        assert(str_views(g@) =~= work_groups());
    }
    make_category("Work", "application-office-symbolic", g)
}

impl Default for CatalogueCategories {
    /// The fixed taxonomy: each category with its display name, its themed
    /// icon name, and its enumerated group tags, with no components
    /// bucketed yet.
    fn default() -> (r: Self)
        ensures
            category_is(
                r.accessories,
                "Accessories"@,
                "application-accessories-symbolic"@,
                accessories_groups(),
            ),
            category_is(
                r.internet,
                "Internet"@,
                "application-internet-symbolic"@,
                internet_groups(),
            ),
            category_is(r.games, "Games"@, "application-games-symbolic"@, games_groups()),
            category_is(
                r.develop,
                "Develop"@,
                "application-development-symbolic"@,
                develop_groups(),
            ),
            category_is(r.create, "Create"@, "applications-graphics-symbolic"@, create_groups()),
            category_is(r.work, "Work"@, "application-office-symbolic"@, work_groups()),
    {
        CatalogueCategories {
            accessories: build_accessories(),
            internet: build_internet(),
            games: build_games(),
            develop: build_develop(),
            create: build_create(),
            work: build_work(),
        }
    }
}

/// A component tagged only `Game` belongs to the Games category and not to
/// the Internet category: the Games and Internet tag sets do not share the
/// `Game` tag.
pub proof fn lemma_category_disjoint_query(c: Component)
    requires
        c.categories@.len() == 1,
        c.categories@[0]@ == "Game"@,
    ensures
        matches_groups(c, games_groups()),
        !matches_groups(c, internet_groups()),
{
    assert(games_groups()[7] == "Game"@);
    assert(matches_groups(c, games_groups())) by {
        assert(c.categories@[0]@ == games_groups()[7]);
    }
    reveal_strlit("Game");
    reveal_strlit("Chat");
    reveal_strlit("Email");
    reveal_strlit("InstantMessaging");
    reveal_strlit("IRCClient");
    reveal_strlit("VideoConference");
    reveal_strlit("Network");
    reveal_strlit("P2P");
    assert("Game"@ != "Chat"@) by {
        assert("Game"@[0] == 'G');
        assert("Chat"@[0] == 'C');
    }
    assert("Game"@.len() == 4);
    assert("Game"@ != "Email"@) by {
        assert("Email"@.len() == 5);
    }
    assert("Game"@ != "InstantMessaging"@) by {
        assert("InstantMessaging"@.len() == 16);
    }
    assert("Game"@ != "IRCClient"@) by {
        assert("IRCClient"@.len() == 9);
    }
    assert("Game"@ != "VideoConference"@) by {
        assert("VideoConference"@.len() == 15);
    }
    assert("Game"@ != "Network"@) by {
        assert("Network"@.len() == 7);
    }
    assert("Game"@ != "P2P"@) by {
        assert("P2P"@.len() == 3);
    }
    assert(internet_groups()[0] == "Chat"@);
    assert(internet_groups()[1] == "Email"@);
    assert(internet_groups()[2] == "InstantMessaging"@);
    assert(internet_groups()[3] == "IRCClient"@);
    assert(internet_groups()[4] == "VideoConference"@);
    assert(internet_groups()[5] == "Network"@);
    assert(internet_groups()[6] == "P2P"@);
    assert forall|i: int, j: int|
        #![trigger c.categories@[i], internet_groups()[j]]
        0 <= i < c.categories@.len() && 0 <= j < internet_groups().len() implies c.categories@[i]@
        != internet_groups()[j] by {
        assert(c.categories@[i]@ == "Game"@);
    }
}

} // verus!
