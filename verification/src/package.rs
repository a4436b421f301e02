//! A catalogue entry: one piece of software, wrapping its raw metadata
//! component and exposing derived fields with explicit cache invalidation,
//! icon selection, and release ordering.

use vstd::prelude::*;
use vstd::seq_lib::group_to_multiset_ensures;
use vstd::string::StringSliceAdditionalSpecFns;
use vstd::utf8::encode_utf8;

use crate::component::{eq_component, Component, IconInfo, IconKind, Release};
use crate::versions::{lemma_vercmp_total, lemma_vercmp_trans, spec_vercmp, vercmp};

verus! {

broadcast use {group_to_multiset_ensures, vstd::multiset::group_multiset_axioms};

/// Why a derived field of an entry cannot be produced.
#[derive(Clone, Copy, PartialEq, Eq, Structural, Debug)]
pub enum PackageError {
    /// The wrapped component does not carry the requested field. The entry
    /// should be skipped by its caller; the error is not fatal.
    MissingField,
}

/// The bytes a version string is compared by.
pub open spec fn version_bytes(s: String) -> Seq<u8> {
    encode_utf8(s@)
}

/// Ordering of two releases: a versioned release always orders after an
/// unversioned one; two versioned releases compare by the version
/// ordering; two unversioned releases are equal.
pub open spec fn release_cmp(a: Release, b: Release) -> int {
    match (a.version, b.version) {
        (Some(x), Some(y)) => spec_vercmp(version_bytes(x), version_bytes(y)),
        (Some(_), None) => 1,
        (None, Some(_)) => -1,
        (None, None) => 0,
    }
}

pub proof fn lemma_release_cmp_total(a: Release, b: Release)
    ensures
        -1 <= release_cmp(a, b) <= 1,
        release_cmp(a, b) == -release_cmp(b, a),
        release_cmp(a, a) == 0,
{
    match (a.version, b.version) {
        (Some(x), Some(y)) => {
            lemma_vercmp_total(version_bytes(x), version_bytes(y));
        },
        _ => {},
    }
    match a.version {
        Some(x) => {
            lemma_vercmp_total(version_bytes(x), version_bytes(x));
        },
        None => {},
    }
}

pub proof fn lemma_release_cmp_trans(a: Release, b: Release, c: Release)
    requires
        release_cmp(a, b) <= 0,
        release_cmp(b, c) <= 0,
    ensures
        release_cmp(a, c) <= 0,
{
    match (a.version, b.version, c.version) {
        (Some(x), Some(y), Some(z)) => {
            lemma_vercmp_trans(version_bytes(x), version_bytes(y), version_bytes(z));
        },
        _ => {},
    }
}

/// Compares two releases; the result is always -1, 0 or 1.
pub fn release_compare(a: &Release, b: &Release) -> (r: i32)
    ensures
        r as int == release_cmp(*a, *b),
        -1 <= r <= 1,
{
    proof {
        lemma_release_cmp_total(*a, *b);
    }
    match (&a.version, &b.version) {
        (Some(x), Some(y)) => vercmp(x.as_str(), y.as_str()),
        (Some(_), None) => 1,
        (None, Some(_)) => -1,
        (None, None) => 0,
    }
}

/// The release an entry is dated by: the first release that no later one
/// strictly exceeds under the release ordering; `None` only for an empty
/// release list.
pub open spec fn spec_latest(rels: Seq<Release>) -> Option<Release>
    decreases rels.len(),
{
    if rels.len() == 0 {
        None
    } else {
        match spec_latest(rels.drop_last()) {
            None => Some(rels.last()),
            Some(b) => if release_cmp(rels.last(), b) > 0 {
                Some(rels.last())
            } else {
                Some(b)
            },
        }
    }
}

/// The chosen latest release is an element of the list and orders at or
/// above every element of the list.
pub proof fn lemma_latest_is_max(rels: Seq<Release>)
    requires
        rels.len() > 0,
    ensures
        spec_latest(rels) is Some,
        exists|j: int| 0 <= j < rels.len() && rels[j] == spec_latest(rels)->Some_0,
        forall|j: int|
            0 <= j < rels.len() ==> release_cmp(spec_latest(rels)->Some_0, #[trigger] rels[j])
                >= 0,
    decreases rels.len(),
{
    let best = spec_latest(rels)->Some_0;
    if rels.len() == 1 {
        lemma_release_cmp_total(rels[0], rels[0]);
        assert(rels[0] == rels.last());
    } else {
        let head = rels.drop_last();
        lemma_latest_is_max(head);
        let prev = spec_latest(head)->Some_0;
        lemma_release_cmp_total(rels.last(), prev);
        assert forall|j: int| 0 <= j < rels.len() implies release_cmp(best, #[trigger] rels[j])
            >= 0 by {
            lemma_release_cmp_total(best, rels[j]);
            if j < rels.len() - 1 {
                assert(head[j] == rels[j]);
                assert(release_cmp(prev, rels[j]) >= 0);
                if release_cmp(rels.last(), prev) > 0 {
                    lemma_release_cmp_total(rels[j], prev);
                    lemma_release_cmp_total(rels.last(), best);
                    lemma_release_cmp_trans(rels[j], prev, best);
                    lemma_release_cmp_total(rels[j], best);
                }
            } else {
                assert(rels[j] == rels.last());
                if release_cmp(rels.last(), prev) <= 0 {
                    lemma_release_cmp_total(rels.last(), prev);
                }
            }
        }
        if release_cmp(rels.last(), prev) > 0 {
            assert(best == rels.last());
            assert(rels[rels.len() - 1] == best);
        } else {
            let j = choose|j: int| 0 <= j < head.len() && head[j] == prev;
            assert(rels[j] == prev);
        }
    }
}

/// The latest release of a release list: an element that no other element
/// strictly exceeds under the release ordering, the earliest such element
/// when several tie; `None` only for an empty list.
pub fn latest_release(rels: &Vec<Release>) -> (r: Option<Release>)
    ensures
        r == spec_latest(rels@),
        r is Some <==> rels@.len() > 0,
        r is Some ==> exists|j: int| 0 <= j < rels@.len() && rels@[j] == r->Some_0,
        r is Some ==> forall|j: int|
            0 <= j < rels@.len() ==> release_cmp(r->Some_0, #[trigger] rels@[j]) >= 0,
{
    let mut best: Option<Release> = None;
    let mut i: usize = 0;
    proof {
        assert(rels@.take(0) =~= Seq::<Release>::empty());
    }
    while i < rels.len()
        invariant
            i <= rels.len(),
            best == spec_latest(rels@.take(i as int)),
        decreases rels.len() - i,
    {
        let cand = &rels[i];
        let replace = match &best {
            None => true,
            Some(b) => release_compare(cand, b) > 0,
        };
        if replace {
            best = Some(cand.clone());
        }
        proof {
            assert(rels@.take(i + 1 as int).drop_last() =~= rels@.take(i as int));
            assert(rels@.take(i + 1 as int).last() == rels@[i as int]);
        }
        i += 1;
    }
    proof {
        assert(rels@.take(rels@.len() as int) =~= rels@);
        if rels@.len() > 0 {
            lemma_latest_is_max(rels@);
        }
    }
    best
}

/// A catalogue entry. It wraps one raw metadata component and carries the
/// lazily computed display name and display summary; both caches are
/// dropped whenever the component is replaced, which is the only mutation
/// a refresh performs on an existing entry.
pub struct Package {
    pub component: Component,
    pub name: Option<String>,
    pub summary: Option<String>,
}

/// The two entry lists agree element by element.
pub open spec fn packages_like(a: Seq<Package>, b: Seq<Package>) -> bool {
    a.len() == b.len() && forall|i: int|
        0 <= i < a.len() ==> eq_package(#[trigger] a[i], #[trigger] b[i])
}

/// Two entries carry the same component metadata and caches.
pub open spec fn eq_package(a: Package, b: Package) -> bool {
    &&& eq_component(a.component, b.component)
    &&& a.name == b.name
    &&& a.summary == b.summary
}

impl Clone for Package {
    fn clone(&self) -> (r: Self)
        ensures
            eq_package(r, *self),
    {
        let name = match &self.name {
            Some(v) => Some(v.clone()),
            None => None,
        };
        let summary = match &self.summary {
            Some(v) => Some(v.clone()),
            None => None,
        };
        Package { component: self.component.clone(), name, summary }
    }
}

/// Where a caller can find the image for an entry's icon.
pub enum IconRef {
    /// A named icon resolved through the icon theme; also the default
    /// application icon fallback.
    Themed(String),
    /// An image file on disk.
    PathFile(String),
    /// An image fetched from a URL.
    UriFile(String),
}

/// The abstract value of an `IconRef`: the same choice over string views.
pub enum IconSel {
    Themed(Seq<char>),
    PathFile(Seq<char>),
    UriFile(Seq<char>),
}

impl View for IconRef {
    type V = IconSel;

    open spec fn view(&self) -> IconSel {
        match self {
            IconRef::Themed(s) => IconSel::Themed(s@),
            IconRef::PathFile(s) => IconSel::PathFile(s@),
            IconRef::UriFile(s) => IconSel::UriFile(s@),
        }
    }
}

/// One step of the icon scan; `st` is (selection so far, its effective
/// width, its scale).
pub open spec fn icon_step(
    st: (IconSel, int, int),
    kind: IconKind,
    width: int,
    icon_scale: int,
    source: Seq<char>,
    pixel_size: int,
    scale: int,
    theme: Seq<Seq<char>>,
) -> (IconSel, int, int) {
    let bigger = width > st.1 && st.1 < pixel_size;
    let better_dpi = width == st.1 && st.2 < icon_scale && scale <= icon_scale;
    match kind {
        IconKind::Cached | IconKind::Local => if bigger || better_dpi {
            (IconSel::PathFile(source), width, icon_scale)
        } else {
            st
        },
        IconKind::Remote => if bigger || better_dpi {
            (IconSel::UriFile(source), width, icon_scale)
        } else {
            st
        },
        IconKind::Stock => if exists|k: int| 0 <= k < theme.len() && theme[k] == source {
            (IconSel::Themed(source), st.1, st.2)
        } else {
            st
        },
        IconKind::Unknown => st,
    }
}

/// The icon scan from position `i` with running state `st`: an unknown
/// icon kind ends the scan early, every other descriptor may improve the
/// selection.
pub open spec fn spec_icon_scan(
    icons: Seq<IconInfo>,
    i: int,
    st: (IconSel, int, int),
    pixel_size: int,
    scale: int,
    theme: Seq<Seq<char>>,
) -> IconSel
    decreases icons.len() - i,
{
    if i < 0 || i >= icons.len() {
        st.0
    } else if icons[i].kind == IconKind::Unknown {
        st.0
    } else {
        spec_icon_scan(
            icons,
            i + 1,
            icon_step(
                st,
                icons[i].kind,
                icons[i].width * icons[i].scale,
                icons[i].scale as int,
                icons[i].source@,
                pixel_size,
                scale,
                theme,
            ),
            pixel_size,
            scale,
            theme,
        )
    }
}

/// Views of a list of strings.
pub open spec fn str_views(v: Seq<String>) -> Seq<Seq<char>> {
    v.map_values(|s: String| s@)
}

/// Whether the icon theme offers an icon of this name.
fn theme_has_icon(theme_names: &Vec<String>, name: &String) -> (r: bool)
    ensures
        r == exists|k: int|
            0 <= k < str_views(theme_names@).len() && str_views(theme_names@)[k] == name@,
{
    let mut i: usize = 0;
    while i < theme_names.len()
        invariant
            i <= theme_names.len(),
            forall|k: int| 0 <= k < i ==> str_views(theme_names@)[k] != name@,
        decreases theme_names.len() - i,
    {
        if theme_names[i] == *name {
            assert(str_views(theme_names@)[i as int] == name@);
            return true;
        }
        i += 1;
    }
    false
}

impl Package {
    /// Wraps a freshly parsed component; both display caches start empty.
    pub fn new(component: Component) -> (r: Self)
        ensures
            r.component == component,
            r.name is None,
            r.summary is None,
    {
        Package { component, name: None, summary: None }
    }

    /// A copy of the wrapped component.
    pub fn component(&self) -> (r: Component)
        ensures
            eq_component(r, self.component),
    {
        self.component.clone()
    }

    /// Replaces the wrapped component and drops both display caches;
    /// entries are mutated only through this method.
    pub fn set_component(&mut self, component: Component)
        ensures
            final(self).component == component,
            final(self).name is None,
            final(self).summary is None,
    {
        self.name = None;
        self.summary = None;
        self.component = component;
    }

    /// The display name: the cached value when present, else the wrapped
    /// component's name, which is cached on the way out. An entry whose
    /// component has no name reports `MissingField` and should be skipped.
    pub fn name(&mut self) -> (r: Result<String, PackageError>)
        ensures
            final(self).component == old(self).component,
            final(self).summary == old(self).summary,
            old(self).name is Some ==> {
                &&& r == Ok::<String, PackageError>(old(self).name->Some_0)
                &&& final(self).name == old(self).name
            },
            old(self).name is None && old(self).component.name is Some ==> {
                &&& r == Ok::<String, PackageError>(old(self).component.name->Some_0)
                &&& final(self).name == old(self).component.name
            },
            old(self).name is None && old(self).component.name is None ==> {
                &&& r == Err::<String, PackageError>(PackageError::MissingField)
                &&& final(self).name is None
            },
    {
        match &self.name {
            Some(n) => Ok(n.clone()),
            None => match &self.component.name {
                Some(n) => {
                    let value = n.clone();
                    self.name = Some(value.clone());
                    Ok(value)
                },
                None => Err(PackageError::MissingField),
            },
        }
    }

    /// The display summary, with the same caching contract as `name`.
    pub fn summary(&mut self) -> (r: Result<String, PackageError>)
        ensures
            final(self).component == old(self).component,
            final(self).name == old(self).name,
            old(self).summary is Some ==> {
                &&& r == Ok::<String, PackageError>(old(self).summary->Some_0)
                &&& final(self).summary == old(self).summary
            },
            old(self).summary is None && old(self).component.summary is Some ==> {
                &&& r == Ok::<String, PackageError>(old(self).component.summary->Some_0)
                &&& final(self).summary == old(self).component.summary
            },
            old(self).summary is None && old(self).component.summary is None ==> {
                &&& r == Err::<String, PackageError>(PackageError::MissingField)
                &&& final(self).summary is None
            },
    {
        match &self.summary {
            Some(n) => Ok(n.clone()),
            None => match &self.component.summary {
                Some(n) => {
                    let value = n.clone();
                    self.summary = Some(value.clone());
                    Ok(value)
                },
                None => Err(PackageError::MissingField),
            },
        }
    }

    /// No version is derived from the metadata; the answer is always the
    /// empty string.
    pub fn version(&self) -> (r: String)
        ensures
            r@ == Seq::<char>::empty(),
    {
        String::new()
    }

    /// Selects the best icon for the requested size and scale. Cached,
    /// local and remote icons win when they are wider than the current
    /// pick while the pick is still below `size * scale`, or equally wide
    /// with a closer device scale; a stock icon wins whenever the theme
    /// (given as its list of icon names) offers it; an unknown icon kind
    /// ends the scan. The fallback is the default application icon.
    pub fn icon(&self, size: u32, scale: u32, theme_names: &Vec<String>) -> (r: IconRef)
        ensures
            r@ == spec_icon_scan(
                self.component.icons@,
                0,
                (IconSel::Themed("application-default-icon"@), 0int, 0int),
                size * scale,
                scale as int,
                str_views(theme_names@),
            ),
    {
        let ghost theme = str_views(theme_names@);
        let mut current: IconRef = IconRef::Themed(String::from_str("application-default-icon"));
        proof {
            assert((size as int) * (scale as int) <= 0xffff_ffff * 0xffff_ffff)
                by (nonlinear_arith)
                requires
                    0 <= size <= 0xffff_ffff,
                    0 <= scale <= 0xffff_ffff,
            ;
        }
        let pixel_size: u64 = (size as u64) * (scale as u64);
        let mut current_size: u64 = 0;
        let mut current_scale: u32 = 0;
        let icons = &self.component.icons;
        let mut i: usize = 0;
        while i < icons.len()
            invariant
                i <= icons.len(),
                pixel_size == size * scale,
                theme == str_views(theme_names@),
                icons == &self.component.icons,
                spec_icon_scan(
                    icons@,
                    i as int,
                    (current@, current_size as int, current_scale as int),
                    pixel_size as int,
                    scale as int,
                    theme,
                ) == spec_icon_scan(
                    icons@,
                    0,
                    (IconSel::Themed("application-default-icon"@), 0int, 0int),
                    pixel_size as int,
                    scale as int,
                    theme,
                ),
            decreases icons.len() - i,
        {
            let ic = &icons[i];
            proof {
                assert((ic.width as int) * (ic.scale as int) <= 0xffff_ffff * 0xffff_ffff)
                    by (nonlinear_arith)
                    requires
                        0 <= ic.width <= 0xffff_ffff,
                        0 <= ic.scale <= 0xffff_ffff,
                ;
            }
            let width: u64 = (ic.width as u64) * (ic.scale as u64);
            let bigger = width > current_size && current_size < pixel_size;
            let better_dpi = width == current_size && current_scale < ic.scale && scale <= ic.scale;
            let ghost st = (current@, current_size as int, current_scale as int);
            match ic.kind {
                IconKind::Unknown => {
                    proof {
                        assert(spec_icon_scan(
                            icons@,
                            i as int,
                            st,
                            pixel_size as int,
                            scale as int,
                            theme,
                        ) == st.0);
                        assert(icons@ == self.component.icons@);
                        assert(pixel_size as int == size * scale);
                        assert(current@ == spec_icon_scan(
                            self.component.icons@,
                            0,
                            (IconSel::Themed("application-default-icon"@), 0int, 0int),
                            size * scale,
                            scale as int,
                            str_views(theme_names@),
                        ));
                    }
                    return current;
                },
                IconKind::Cached | IconKind::Local => {
                    if bigger || better_dpi {
                        current = IconRef::PathFile(ic.source.clone());
                        current_size = width;
                        current_scale = ic.scale;
                    }
                },
                IconKind::Remote => {
                    if bigger || better_dpi {
                        current = IconRef::UriFile(ic.source.clone());
                        current_size = width;
                        current_scale = ic.scale;
                    }
                },
                IconKind::Stock => {
                    if theme_has_icon(theme_names, &ic.source) {
                        current = IconRef::Themed(ic.source.clone());
                    }
                },
            }
            proof {
                assert((current@, current_size as int, current_scale as int) == icon_step(
                    st,
                    icons@[i as int].kind,
                    icons@[i as int].width * icons@[i as int].scale,
                    icons@[i as int].scale as int,
                    icons@[i as int].source@,
                    pixel_size as int,
                    scale as int,
                    theme,
                ));
            }
            i += 1;
        }
        current
    }

    /// The entry's latest release under the release ordering: an element
    /// of the release list that no other element strictly exceeds, the
    /// earliest such element when several tie; `None` only when the
    /// component has no releases at all.
    pub fn get_latest_release(&self) -> (r: Option<Release>)
        ensures
            r == spec_latest(self.component.releases@),
            r is Some <==> self.component.releases@.len() > 0,
            r is Some ==> exists|j: int|
                0 <= j < self.component.releases@.len() && self.component.releases@[j]
                    == r->Some_0,
            r is Some ==> forall|j: int|
                0 <= j < self.component.releases@.len() ==> release_cmp(
                    r->Some_0,
                    #[trigger] self.component.releases@[j],
                ) >= 0,
    {
        latest_release(&self.component.releases)
    }

    /// The releases that carry a version string, in order.
    pub open spec fn versioned(rels: Seq<Release>) -> Seq<Release>
        decreases rels.len(),
    {
        if rels.len() == 0 {
            Seq::empty()
        } else if rels.last().version is Some {
            Self::versioned(rels.drop_last()).push(rels.last())
        } else {
            Self::versioned(rels.drop_last())
        }
    }

    /// The `min_releases` newest versioned releases, newest first. Releases
    /// without a version string are dropped; if fewer than `min_releases`
    /// versioned releases remain the answer is empty; otherwise exactly
    /// `min_releases` are returned, ordered by the release ordering, and
    /// every release left out orders at or below every release returned.
    pub fn get_newest_releases(&self, min_releases: usize, _max_releases: usize) -> (r: Vec<
        Release,
    >)
        ensures
            Self::versioned(self.component.releases@).len() < min_releases ==> r@ == Seq::<
                Release,
            >::empty(),
            Self::versioned(self.component.releases@).len() >= min_releases ==> r@.len()
                == min_releases,
            forall|j: int, k: int|
                0 <= j < k < r@.len() ==> release_cmp(#[trigger] r@[j], #[trigger] r@[k]) >= 0,
            r@.to_multiset().subset_of(
                Self::versioned(self.component.releases@).to_multiset(),
            ),
            forall|e: Release, j: int|
                #[trigger] Self::versioned(self.component.releases@).to_multiset().sub(
                    r@.to_multiset(),
                ).count(e) > 0 && 0 <= j < r@.len() ==> release_cmp(#[trigger] r@[j], e) >= 0,
    {
        let rels = &self.component.releases;
        let ghost vs = Self::versioned(rels@);
        let mut working: Vec<Release> = Vec::new();
        let mut i: usize = 0;
        proof {
            assert(rels@.take(0) =~= Seq::<Release>::empty());
            assert(Self::versioned(rels@.take(0)) =~= Seq::<Release>::empty());
        }
        while i < rels.len()
            invariant
                i <= rels.len(),
                rels == &self.component.releases,
                working@ == Self::versioned(rels@.take(i as int)),
            decreases rels.len() - i,
        {
            let keep = match &rels[i].version {
                Some(_) => true,
                None => false,
            };
            if keep {
                working.push(rels[i].clone());
            }
            proof {
                let t = rels@.take(i + 1 as int);
                assert(t.drop_last() =~= rels@.take(i as int));
                assert(t.last() == rels@[i as int]);
            }
            i += 1;
        }
        proof {
            assert(rels@.take(rels@.len() as int) =~= rels@);
        }
        let mut out: Vec<Release> = Vec::new();
        if working.len() < min_releases {
            return out;
        }
        let mut t: usize = 0;
        proof {
            assert(out@.to_multiset().add(working@.to_multiset()) =~= vs.to_multiset());
        }
        while t < min_releases
            invariant
                t <= min_releases <= vs.len(),
                out@.len() == t,
                working@.len() == vs.len() - t,
                out@.to_multiset().add(working@.to_multiset()) == vs.to_multiset(),
                forall|j: int, k: int|
                    0 <= j < k < t ==> release_cmp(#[trigger] out@[j], #[trigger] out@[k]) >= 0,
                forall|j: int, w: int|
                    0 <= j < t && 0 <= w < working@.len() ==> release_cmp(
                        #[trigger] out@[j],
                        #[trigger] working@[w],
                    ) >= 0,
            decreases min_releases - t,
        {
            let mut best: usize = 0;
            let mut k: usize = 1;
            proof {
                lemma_release_cmp_total(working@[0], working@[0]);
            }
            while k < working.len()
                invariant
                    working@.len() > 0,
                    best < k <= working@.len(),
                    forall|q: int|
                        0 <= q < k ==> release_cmp(
                            working@[best as int],
                            #[trigger] working@[q],
                        ) >= 0,
                decreases working.len() - k,
            {
                let c = release_compare(&working[k], &working[best]);
                if c > 0 {
                    proof {
                        assert forall|q: int| 0 <= q < k implies release_cmp(
                            working@[k as int],
                            #[trigger] working@[q],
                        ) >= 0 by {
                            lemma_release_cmp_total(working@[q], working@[best as int]);
                            lemma_release_cmp_total(working@[best as int], working@[k as int]);
                            lemma_release_cmp_trans(
                                working@[q],
                                working@[best as int],
                                working@[k as int],
                            );
                            lemma_release_cmp_total(working@[q], working@[k as int]);
                        }
                        lemma_release_cmp_total(working@[k as int], working@[k as int]);
                    }
                    best = k;
                } else {
                    proof {
                        lemma_release_cmp_total(working@[k as int], working@[best as int]);
                    }
                }
                k += 1;
            }
            proof {
                lemma_release_cmp_total(working@[best as int], working@[best as int]);
            }
            let ghost working_old = working@;
            let chosen = working.remove(best);
            out.push(chosen);
            proof {
                assert(working_old.contains(working_old[best as int]));
                assert(working_old.to_multiset().count(working_old[best as int]) > 0);
                assert(out@.to_multiset().add(working@.to_multiset()) =~= vs.to_multiset());
                assert forall|j: int, w: int|
                    0 <= j < t + 1 && 0 <= w < working@.len() implies release_cmp(
                    #[trigger] out@[j],
                    #[trigger] working@[w],
                ) >= 0 by {
                    let prev_w: int = if w < best { w } else { w + 1 };
                    assert(working@[w] == working_old[prev_w]);
                }
            }
            t += 1;
        }
        proof {
            assert forall|e: Release, j: int|
                #[trigger] vs.to_multiset().sub(out@.to_multiset()).count(e) > 0 && 0 <= j
                    < out@.len() implies release_cmp(#[trigger] out@[j], e) >= 0 by {
                assert(working@.to_multiset().count(e) > 0);
                assert(working@.contains(e));
                let w = choose|w: int| 0 <= w < working@.len() && working@[w] == e;
                assert(release_cmp(out@[j], working@[w]) >= 0);
            }
        }
        out
    }
}

} // verus!
