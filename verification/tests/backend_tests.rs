use catalogue::backend::FlatpakBackend;
use catalogue::client::{Backend, Client};
use catalogue::component::{Component, ComponentKind, Release};

fn app(id: &str, origin: &str, bundle: &str, name: &str, timestamps: &[Option<u64>]) -> Component {
    Component {
        id: id.to_string(),
        origin: origin.to_string(),
        kind: ComponentKind::DesktopApp,
        name: Some(name.to_string()),
        summary: Some("A summary".to_string()),
        bundle_id: Some(bundle.to_string()),
        icons: Vec::new(),
        releases: timestamps
            .iter()
            .enumerate()
            .map(|(i, ts)| Release {
                version: ts.map(|_| format!("{}.0", i + 1)),
                timestamp: ts.unwrap_or(0),
            })
            .collect(),
        categories: Vec::new(),
    }
}

fn backend_with(components: Vec<Component>) -> FlatpakBackend {
    let mut b = FlatpakBackend::new(String::new(), String::new(), true, false);
    b.reload_appstream_pool(false, components);
    b
}

#[test]
fn generate_key_has_three_parts() {
    let k = FlatpakBackend::generate_package_list_key(false, "flathub", "app/org.x/x86_64/stable");
    assert_eq!(k, "user/flathub/app/org.x/x86_64/stable");
    let k2 = FlatpakBackend::generate_package_list_key(true, "fedora", "org.y");
    assert_eq!(k2, "system/fedora/org.y");
}

#[test]
fn reload_indexes_bundled_components() {
    let b = backend_with(vec![
        app("org.a.A", "flathub", "bundle.a", "A", &[]),
        app("org.b.B", "flathub", "bundle.b", "B", &[]),
    ]);
    assert_eq!(b.package_list.len(), 2);
    assert_eq!(b.package_list[0].key, "user/flathub/bundle.a");
    assert_eq!(b.package_list[1].key, "user/flathub/bundle.b");
}

#[test]
fn reload_excludes_components_without_bundle() {
    let mut c = app("org.a.A", "flathub", "unused", "A", &[]);
    c.bundle_id = None;
    let b = backend_with(vec![c, app("org.b.B", "flathub", "bundle.b", "B", &[])]);
    assert_eq!(b.package_list.len(), 1);
    assert_eq!(b.package_list[0].key, "user/flathub/bundle.b");
}

#[test]
fn composite_key_update_keeps_entry_count_and_position() {
    let mut b = backend_with(vec![
        app("org.a.A", "flathub", "bundle.a", "Old name", &[]),
        app("org.b.B", "flathub", "bundle.b", "B", &[]),
    ]);
    b.reload_appstream_pool(false, vec![app("org.a.A", "flathub", "bundle.a", "New name", &[])]);
    assert_eq!(b.package_list.len(), 2);
    assert_eq!(b.package_list[0].key, "user/flathub/bundle.a");
    assert_eq!(b.package_list[0].package.component.name.as_deref(), Some("New name"));
}

#[test]
fn distinct_triples_make_distinct_entries() {
    let b = backend_with(vec![
        app("org.a.A", "flathub", "bundle.a", "A", &[]),
        app("org.a.A", "fedora", "bundle.a", "A", &[]),
    ]);
    assert_eq!(b.package_list.len(), 2);
    let mut b2 = b;
    b2.reload_appstream_pool(true, vec![app("org.a.A", "flathub", "bundle.a", "A", &[])]);
    assert_eq!(b2.package_list.len(), 3);
}

#[test]
fn reload_twice_is_idempotent() {
    let comps = || {
        vec![
            app("org.a.A", "flathub", "bundle.a", "A", &[Some(100)]),
            app("org.b.B", "flathub", "bundle.b", "B", &[Some(200)]),
        ]
    };
    let mut b = backend_with(comps());
    let keys_once: Vec<String> = b.package_list.iter().map(|e| e.key.clone()).collect();
    let names_once: Vec<Option<String>> =
        b.package_list.iter().map(|e| e.package.component.name.clone()).collect();
    b.reload_appstream_pool(false, comps());
    let keys_twice: Vec<String> = b.package_list.iter().map(|e| e.key.clone()).collect();
    let names_twice: Vec<Option<String>> =
        b.package_list.iter().map(|e| e.package.component.name.clone()).collect();
    assert_eq!(keys_once, keys_twice);
    assert_eq!(names_once, names_twice);
}

#[test]
fn lookup_matches_raw_id() {
    let b = backend_with(vec![app("org.example.Foo", "flathub", "bundle.foo", "Foo", &[])]);
    let p = b.get_package_for_component_id("org.example.Foo".to_string());
    assert!(p.is_some());
    assert_eq!(p.unwrap().component.id, "org.example.Foo");
}

#[test]
fn lookup_matches_desktop_suffixed_id() {
    let b = backend_with(vec![app("org.example.Foo.desktop", "flathub", "bundle.foo", "Foo", &[])]);
    let p = b.get_package_for_component_id("org.example.Foo".to_string());
    assert!(p.is_some());
    assert_eq!(p.unwrap().component.id, "org.example.Foo.desktop");
}

#[test]
fn lookup_misses_cleanly() {
    let b = backend_with(vec![app("org.example.Foo", "flathub", "bundle.foo", "Foo", &[])]);
    assert!(b.get_package_for_component_id("org.example.Bar".to_string()).is_none());
}

#[test]
fn recency_orders_by_timestamp_descending() {
    let b = backend_with(vec![
        app("org.t100", "flathub", "b.100", "T100", &[Some(100)]),
        app("org.t500", "flathub", "b.500", "T500", &[Some(500)]),
        app("org.missing", "flathub", "b.none", "None", &[None]),
        app("org.t300", "flathub", "b.300", "T300", &[Some(300)]),
    ]);
    let top = b.get_recently_updated_packages(2);
    assert_eq!(top.len(), 2);
    assert_eq!(top[0].component.id, "org.t500");
    assert_eq!(top[1].component.id, "org.t300");
}

#[test]
fn recency_puts_releaseless_entries_last() {
    let b = backend_with(vec![
        app("org.none", "flathub", "b.none", "None", &[]),
        app("org.t5", "flathub", "b.5", "T5", &[Some(5)]),
    ]);
    let all = b.get_recently_updated_packages(10);
    assert_eq!(all.len(), 2);
    assert_eq!(all[0].component.id, "org.t5");
    assert_eq!(all[1].component.id, "org.none");
}

#[test]
fn recency_keeps_tie_order_stable() {
    let b = backend_with(vec![
        app("org.first", "flathub", "b.1", "First", &[Some(7)]),
        app("org.second", "flathub", "b.2", "Second", &[Some(7)]),
    ]);
    let all = b.get_recently_updated_packages(10);
    assert_eq!(all[0].component.id, "org.first");
    assert_eq!(all[1].component.id, "org.second");
}

#[test]
fn recency_filters_to_desktop_applications() {
    let mut addon = app("org.addon", "flathub", "b.addon", "Addon", &[Some(900)]);
    addon.kind = ComponentKind::Addon;
    let b = backend_with(vec![addon, app("org.app", "flathub", "b.app", "App", &[Some(1)])]);
    let all = b.get_recently_updated_packages(10);
    assert_eq!(all.len(), 1);
    assert_eq!(all[0].component.id, "org.app");
}

#[test]
fn installed_packages_are_not_listed_yet() {
    let b = backend_with(Vec::new());
    assert!(b.get_installed_packages().is_empty());
}

#[test]
fn client_passes_queries_through() {
    let b = backend_with(vec![app("org.example.Foo", "flathub", "bundle.foo", "Foo", &[])]);
    let client = Client { active_backend: Backend::Flatpak(b) };
    assert!(client.get_package_for_component_id("org.example.Foo".to_string()).is_some());
    assert!(client.get_installed_packages().is_empty());
}

#[test]
fn client_recency_passes_through() {
    let b = backend_with(vec![
        app("org.new", "flathub", "b.new", "New", &[Some(10)]),
        app("org.old", "flathub", "b.old", "Old", &[Some(5)]),
    ]);
    let client = Client { active_backend: Backend::Flatpak(b) };
    let top = client.get_recently_updated_packages(1);
    assert_eq!(top.len(), 1);
    assert_eq!(top[0].component.id, "org.new");
}

#[test]
fn client_category_query_passes_through() {
    let mut b = FlatpakBackend::new(String::new(), String::new(), false, true);
    let mut comp = app("org.game", "flathub", "b.game", "Game", &[]);
    comp.categories = vec!["ArcadeGame".to_string()];
    b.reload_appstream_pool(true, vec![comp]);
    let client = Client { active_backend: Backend::Flatpak(b) };
    let mut cats = catalogue::category::CatalogueCategories::default();
    let found = client.get_packages_for_category(&mut cats.games);
    assert_eq!(found.len(), 1);
    assert_eq!(found[0].component.id, "org.game");
}

#[test]
fn refresh_needs_force_and_connectivity() {
    let client = Client::default();
    assert!(client.refresh_cache_plan(false, true).is_none());
    assert!(client.refresh_cache_plan(false, false).is_none());
    assert!(client.refresh_cache_plan(true, false).is_none());
    let plan = client.refresh_cache_plan(true, true).expect("refresh allowed");
    assert!(plan.warn_no_installations);
}
