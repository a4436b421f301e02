//! The raw metadata record of one piece of software, as loaded from a
//! collection file: identifiers, human-facing text, icon descriptors,
//! release history and category tags.

use vstd::prelude::*;

verus! {

/// The kind of software a component describes. Only desktop applications
/// are shown in recency and category listings.
#[derive(Clone, Copy, PartialEq, Eq, Structural, Debug)]
pub enum ComponentKind {
    Unknown,
    Generic,
    DesktopApp,
    ConsoleApp,
    Addon,
}

/// How an icon descriptor points at its image data.
#[derive(Clone, Copy, PartialEq, Eq, Structural, Debug)]
pub enum IconKind {
    Unknown,
    Cached,
    Local,
    Stock,
    Remote,
}

/// One icon descriptor of a component.
pub struct IconInfo {
    pub kind: IconKind,
    /// Nominal pixel width of the image.
    pub width: u32,
    /// Intended device pixel ratio of the image.
    pub scale: u32,
    /// Where the image lives: a file path for cached and local icons, a
    /// themed icon name for stock icons, a URL for remote icons.
    pub source: String,
}

impl Clone for IconInfo {
    fn clone(&self) -> (r: Self)
        ensures
            r == *self,
    {
        IconInfo { kind: self.kind, width: self.width, scale: self.scale, source: self.source.clone() }
    }
}

/// One release of a component: an optional version string and the release
/// timestamp in seconds (0 when the metadata gives none).
pub struct Release {
    pub version: Option<String>,
    pub timestamp: u64,
}

impl Clone for Release {
    fn clone(&self) -> (r: Self)
        ensures
            r == *self,
    {
        let version = match &self.version {
            Some(v) => Some(v.clone()),
            None => None,
        };
        Release { version, timestamp: self.timestamp }
    }
}

/// Externally-sourced software metadata record. The catalogue never edits
/// a component; refreshes replace whole records.
pub struct Component {
    /// The raw component id, e.g. `org.example.Foo` or `org.example.Foo.desktop`.
    pub id: String,
    /// Name of the remote the metadata came from.
    pub origin: String,
    pub kind: ComponentKind,
    pub name: Option<String>,
    pub summary: Option<String>,
    /// Package identifier binding the component to an installable bundle;
    /// components without one cannot be installed and are not indexed.
    pub bundle_id: Option<String>,
    pub icons: Vec<IconInfo>,
    pub releases: Vec<Release>,
    /// Desktop group tags used for category queries.
    pub categories: Vec<String>,
}

/// Two components carry the same metadata. Cloning preserves this relation;
/// it is equality on every field, with vectors compared by contents.
pub open spec fn eq_component(a: Component, b: Component) -> bool {
    &&& a.id == b.id
    &&& a.origin == b.origin
    &&& a.kind == b.kind
    &&& a.name == b.name
    &&& a.summary == b.summary
    &&& a.bundle_id == b.bundle_id
    &&& a.icons@ == b.icons@
    &&& a.releases@ == b.releases@
    &&& a.categories@ == b.categories@
}

/// The two component lists agree element by element on their metadata.
pub open spec fn components_like(a: Seq<Component>, b: Seq<Component>) -> bool {
    a.len() == b.len() && forall|i: int|
        0 <= i < a.len() ==> eq_component(#[trigger] a[i], #[trigger] b[i])
}

/// Copies a component list; the copy agrees element by element.
pub fn clone_components(v: &Vec<Component>) -> (r: Vec<Component>)
    ensures
        components_like(r@, v@),
{
    let mut out: Vec<Component> = Vec::new();
    let mut i: usize = 0;
    while i < v.len()
        invariant
            i <= v.len(),
            out@.len() == i,
            forall|q: int| 0 <= q < i ==> eq_component(#[trigger] out@[q], v@[q]),
        decreases v.len() - i,
    {
        out.push(v[i].clone());
        i += 1;
    }
    out
}

fn clone_icons(v: &Vec<IconInfo>) -> (r: Vec<IconInfo>)
    ensures
        r@ == v@,
{
    let mut out: Vec<IconInfo> = Vec::new();
    let mut i: usize = 0;
    while i < v.len()
        invariant
            i <= v.len(),
            out@ == v@.take(i as int),
        decreases v.len() - i,
    {
        out.push(v[i].clone());
        proof {
            assert(out@ =~= v@.take(i + 1 as int));
        }
        i += 1;
    }
    proof {
        assert(v@.take(v.len() as int) =~= v@);
    }
    out
}

fn clone_releases(v: &Vec<Release>) -> (r: Vec<Release>)
    ensures
        r@ == v@,
{
    let mut out: Vec<Release> = Vec::new();
    let mut i: usize = 0;
    while i < v.len()
        invariant
            i <= v.len(),
            out@ == v@.take(i as int),
        decreases v.len() - i,
    {
        out.push(v[i].clone());
        proof {
            assert(out@ =~= v@.take(i + 1 as int));
        }
        i += 1;
    }
    proof {
        assert(v@.take(v.len() as int) =~= v@);
    }
    out
}

pub fn clone_strings(v: &Vec<String>) -> (r: Vec<String>)
    ensures
        r@ == v@,
{
    let mut out: Vec<String> = Vec::new();
    let mut i: usize = 0;
    while i < v.len()
        invariant
            i <= v.len(),
            out@ == v@.take(i as int),
        decreases v.len() - i,
    {
        out.push(v[i].clone());
        proof {
            assert(out@ =~= v@.take(i + 1 as int));
        }
        i += 1;
    }
    proof {
        assert(v@.take(v.len() as int) =~= v@);
    }
    out
}

impl Clone for Component {
    fn clone(&self) -> (r: Self)
        ensures
            eq_component(r, *self),
    {
        let name = match &self.name {
            Some(v) => Some(v.clone()),
            None => None,
        };
        let summary = match &self.summary {
            Some(v) => Some(v.clone()),
            None => None,
        };
        let bundle_id = match &self.bundle_id {
            Some(v) => Some(v.clone()),
            None => None,
        };
        Component {
            id: self.id.clone(),
            origin: self.origin.clone(),
            kind: self.kind,
            name,
            summary,
            bundle_id,
            icons: clone_icons(&self.icons),
            releases: clone_releases(&self.releases),
            categories: clone_strings(&self.categories),
        }
    }
}

} // verus!
