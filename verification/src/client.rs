//! The process-facing client: it holds the active backend, passes queries
//! through synchronously, and guards a refresh with the caller's
//! connectivity probe. Queries never trigger a refresh.

use vstd::prelude::*;

use crate::backend::{
    entry_views, recent_listing_ok, spec_category_lookup, spec_lookup, spec_refresh_plan,
    FlatpakBackend, PackageEntry, RefreshPlan,
};
use crate::category::{spec_bucket, Category};
use crate::component::{components_like, Component};
use crate::package::{eq_package, packages_like, str_views, Package};

verus! {

/// The package-source technologies a catalogue can be backed by.
pub enum Backend {
    Flatpak(FlatpakBackend),
}

impl Backend {
    /// The index entries of the active variant.
    pub open spec fn entries(&self) -> Seq<PackageEntry> {
        match self {
            Backend::Flatpak(b) => b.package_list@,
        }
    }

    /// The system scope's parsed pool of the active variant.
    pub open spec fn system_pool(&self) -> Seq<Component> {
        match self {
            Backend::Flatpak(b) => b.system_components@,
        }
    }

    /// The refresh plan the active variant calls for.
    pub open spec fn plan(&self) -> RefreshPlan {
        match self {
            Backend::Flatpak(b) => spec_refresh_plan(*b),
        }
    }

    /// The first indexed entry whose raw component id is `id` or
    /// `id + ".desktop"`.
    pub fn get_package_for_component_id(&self, id: String) -> (r: Option<Package>)
        ensures
            r is Some <==> spec_lookup(entry_views(self.entries()), id@) is Some,
            r is Some ==> eq_package(r->Some_0, spec_lookup(entry_views(self.entries()), id@)->Some_0),
    {
        match self {
            Backend::Flatpak(b) => b.get_package_for_component_id(id),
        }
    }

    /// Buckets the system pool into the category and maps the bucketed
    /// components back to their indexed entries.
    pub fn get_packages_for_category(&self, category: &mut Category) -> (r: Vec<Package>)
        ensures
            final(category).name == old(category).name,
            final(category).icon == old(category).icon,
            final(category).desktop_groups@ == old(category).desktop_groups@,
            components_like(
                final(category).components@,
                spec_bucket(
                    Seq::<Component>::empty(),
                    self.system_pool(),
                    str_views(old(category).desktop_groups@),
                    false,
                ),
            ),
            packages_like(
                r@,
                spec_category_lookup(entry_views(self.entries()), final(category).components@),
            ),
    {
        match self {
            Backend::Flatpak(b) => b.get_packages_for_category(category),
        }
    }

    /// The most recently updated desktop applications, newest first,
    /// truncated to `size`.
    pub fn get_recently_updated_packages(&self, size: usize) -> (r: Vec<Package>)
        ensures
            recent_listing_ok(entry_views(self.entries()), size as int, r@),
    {
        match self {
            Backend::Flatpak(b) => b.get_recently_updated_packages(size),
        }
    }

    /// Entries present in an installation. Installation queries are not
    /// supported yet: the answer is always empty.
    pub fn get_installed_packages(&self) -> (r: Vec<Package>)
        ensures
            r@ == Seq::<Package>::empty(),
    {
        match self {
            Backend::Flatpak(b) => b.get_installed_packages(),
        }
    }

    /// Which scopes a refresh pass covers.
    pub fn refresh_plan(&self) -> (r: RefreshPlan)
        ensures
            r == self.plan(),
    {
        match self {
            Backend::Flatpak(b) => b.refresh_plan(),
        }
    }
}

/// The client facade: exactly one backend drives all queries.
pub struct Client {
    pub active_backend: Backend,
}

impl Client {
    /// Synchronous pass-through to the active backend.
    pub fn get_package_for_component_id(&self, id: String) -> (r: Option<Package>)
        ensures
            r is Some <==> spec_lookup(entry_views(self.active_backend.entries()), id@) is Some,
            r is Some ==> eq_package(
                r->Some_0,
                spec_lookup(entry_views(self.active_backend.entries()), id@)->Some_0,
            ),
    {
        self.active_backend.get_package_for_component_id(id)
    }

    /// Synchronous pass-through to the active backend.
    pub fn get_packages_for_category(&self, category: &mut Category) -> (r: Vec<Package>)
        ensures
            final(category).name == old(category).name,
            final(category).icon == old(category).icon,
            final(category).desktop_groups@ == old(category).desktop_groups@,
            components_like(
                final(category).components@,
                spec_bucket(
                    Seq::<Component>::empty(),
                    self.active_backend.system_pool(),
                    str_views(old(category).desktop_groups@),
                    false,
                ),
            ),
            packages_like(
                r@,
                spec_category_lookup(
                    entry_views(self.active_backend.entries()),
                    final(category).components@,
                ),
            ),
    {
        self.active_backend.get_packages_for_category(category)
    }

    /// Synchronous pass-through to the active backend.
    pub fn get_recently_updated_packages(&self, size: usize) -> (r: Vec<Package>)
        ensures
            recent_listing_ok(entry_views(self.active_backend.entries()), size as int, r@),
    {
        self.active_backend.get_recently_updated_packages(size)
    }

    /// Synchronous pass-through to the active backend.
    pub fn get_installed_packages(&self) -> (r: Vec<Package>)
        ensures
            r@ == Seq::<Package>::empty(),
    {
        self.active_backend.get_installed_packages()
    }

    /// The refresh guard: without `force_update` a refresh is a no-op, and
    /// with it the refresh runs only when the connectivity probe
    /// succeeded — a failed probe is expected and quietly skipped, never
    /// an error. A returned plan says which scopes the caller must refresh
    /// on the active backend.
    pub fn refresh_cache_plan(&self, force_update: bool, is_online: bool) -> (r: Option<
        RefreshPlan,
    >)
        ensures
            r is Some <==> (force_update && is_online),
            r is Some ==> r->Some_0 == self.active_backend.plan(),
    {
        if force_update && is_online {
            Some(self.active_backend.refresh_plan())
        } else {
            None
        }
    }
}

impl Default for Client {
    /// A client over a flatpak backend with no configured scope.
    fn default() -> (r: Self)
        ensures
            r.active_backend.entries() == Seq::<PackageEntry>::empty(),
            !r.active_backend.plan().refresh_user,
            !r.active_backend.plan().refresh_system,
            r.active_backend.plan().warn_no_installations,
    {
        Client { active_backend: Backend::Flatpak(FlatpakBackend::default()) }
    }
}

} // verus!
