use catalogue::component::{Component, ComponentKind, IconInfo, IconKind, Release};
use catalogue::package::{IconRef, Package, PackageError};
use catalogue::versions::vercmp;

fn release(version: Option<&str>, timestamp: u64) -> Release {
    Release { version: version.map(|v| v.to_string()), timestamp }
}

fn component(id: &str, name: Option<&str>) -> Component {
    Component {
        id: id.to_string(),
        origin: "flathub".to_string(),
        kind: ComponentKind::DesktopApp,
        name: name.map(|n| n.to_string()),
        summary: Some("A summary".to_string()),
        bundle_id: Some(format!("app/{}/x86_64/stable", id)),
        icons: Vec::new(),
        releases: Vec::new(),
        categories: Vec::new(),
    }
}

#[test]
fn vercmp_numeric_segments() {
    assert_eq!(vercmp("1.10", "1.9"), 1);
    assert_eq!(vercmp("1.9", "1.10"), -1);
    assert_eq!(vercmp("1.2.3", "1.2.3"), 0);
    assert_eq!(vercmp("1.2.3", "1.2.4"), -1);
}

#[test]
fn vercmp_prefix_orders_first() {
    assert_eq!(vercmp("1.2", "1.2.1"), -1);
    assert_eq!(vercmp("1.2.1", "1.2"), 1);
}

#[test]
fn vercmp_leading_zeros_equal() {
    assert_eq!(vercmp("1.01", "1.1"), 0);
    assert_eq!(vercmp("1.001.0", "1.1.00"), 0);
}

#[test]
fn vercmp_numeric_after_alphabetic() {
    assert_eq!(vercmp("1.1", "1.a"), 1);
    assert_eq!(vercmp("1.a", "1.1"), -1);
    assert_eq!(vercmp("1.beta", "1.alpha"), 1);
}

#[test]
fn vercmp_separators_do_not_matter() {
    assert_eq!(vercmp("1-2_3", "1.2.3"), 0);
}

#[test]
fn latest_release_orders_by_version_not_timestamp() {
    let mut c = component("org.example.App", Some("App"));
    c.releases = vec![release(Some("1.0"), 100), release(Some("2.0"), 50)];
    let p = Package::new(c);
    let latest = p.get_latest_release().expect("some release");
    assert_eq!(latest.version.as_deref(), Some("2.0"));
    assert_eq!(latest.timestamp, 50);
}

#[test]
fn latest_release_versioned_beats_unversioned() {
    let mut c = component("org.example.App", Some("App"));
    c.releases = vec![release(None, 999), release(Some("1.0"), 1)];
    let p = Package::new(c);
    let latest = p.get_latest_release().expect("some release");
    assert_eq!(latest.version.as_deref(), Some("1.0"));
}

#[test]
fn latest_release_none_for_empty() {
    let p = Package::new(component("org.example.App", Some("App")));
    assert!(p.get_latest_release().is_none());
}

#[test]
fn newest_releases_filters_and_sorts() {
    let mut c = component("org.example.App", Some("App"));
    c.releases = vec![
        release(Some("1.0"), 10),
        release(None, 40),
        release(Some("2.0"), 20),
        release(Some("1.5"), 30),
    ];
    let p = Package::new(c);
    let newest = p.get_newest_releases(2, 10);
    assert_eq!(newest.len(), 2);
    assert_eq!(newest[0].version.as_deref(), Some("2.0"));
    assert_eq!(newest[1].version.as_deref(), Some("1.5"));
}

#[test]
fn newest_releases_empty_when_too_few_versioned() {
    let mut c = component("org.example.App", Some("App"));
    c.releases = vec![release(Some("1.0"), 10), release(None, 20), release(None, 30)];
    let p = Package::new(c);
    assert!(p.get_newest_releases(2, 10).is_empty());
}

#[test]
fn name_comes_from_component_and_is_cached() {
    let mut p = Package::new(component("org.example.App", Some("App Name")));
    assert_eq!(p.name().unwrap(), "App Name");
    // the cache now answers
    assert_eq!(p.name().unwrap(), "App Name");
}

#[test]
fn name_missing_field_is_an_error() {
    let mut p = Package::new(component("org.example.App", None));
    assert_eq!(p.name(), Err(PackageError::MissingField));
}

#[test]
fn set_component_replaces_and_clears_caches() {
    let mut p = Package::new(component("org.example.App", Some("Old")));
    assert_eq!(p.name().unwrap(), "Old");
    p.set_component(component("org.example.App", Some("New")));
    assert_eq!(p.name().unwrap(), "New");
    p.set_component(component("org.example.App", None));
    assert_eq!(p.name(), Err(PackageError::MissingField));
}

#[test]
fn summary_follows_name_contract() {
    let mut c = component("org.example.App", Some("App"));
    c.summary = None;
    let mut p = Package::new(c);
    assert_eq!(p.summary(), Err(PackageError::MissingField));
    let mut c2 = component("org.example.App", Some("App"));
    c2.summary = Some("Paints things".to_string());
    p.set_component(c2);
    assert_eq!(p.summary().unwrap(), "Paints things");
}

#[test]
fn version_is_not_derived() {
    let p = Package::new(component("org.example.App", Some("App")));
    assert_eq!(p.version(), "");
}

fn icon(kind: IconKind, width: u32, scale: u32, source: &str) -> IconInfo {
    IconInfo { kind, width, scale, source: source.to_string() }
}

#[test]
fn icon_falls_back_to_default() {
    let p = Package::new(component("org.example.App", Some("App")));
    match p.icon(64, 1, &Vec::new()) {
        IconRef::Themed(name) => assert_eq!(name, "application-default-icon"),
        _ => panic!("expected the default themed icon"),
    }
}

#[test]
fn icon_prefers_wider_cached_icon_until_target() {
    let mut c = component("org.example.App", Some("App"));
    c.icons = vec![
        icon(IconKind::Cached, 32, 1, "/icons/32.png"),
        icon(IconKind::Cached, 64, 1, "/icons/64.png"),
    ];
    let p = Package::new(c);
    match p.icon(64, 1, &Vec::new()) {
        IconRef::PathFile(path) => assert_eq!(path, "/icons/64.png"),
        _ => panic!("expected a file icon"),
    }
}

#[test]
fn icon_better_dpi_wins_on_equal_width() {
    let mut c = component("org.example.App", Some("App"));
    c.icons = vec![
        icon(IconKind::Cached, 64, 1, "/icons/64at1.png"),
        icon(IconKind::Cached, 32, 2, "/icons/32at2.png"),
    ];
    let p = Package::new(c);
    match p.icon(32, 2, &Vec::new()) {
        IconRef::PathFile(path) => assert_eq!(path, "/icons/32at2.png"),
        _ => panic!("expected a file icon"),
    }
}

#[test]
fn icon_unknown_kind_stops_the_scan() {
    let mut c = component("org.example.App", Some("App"));
    c.icons = vec![
        icon(IconKind::Unknown, 0, 0, ""),
        icon(IconKind::Cached, 64, 1, "/icons/64.png"),
    ];
    let p = Package::new(c);
    match p.icon(64, 1, &Vec::new()) {
        IconRef::Themed(name) => assert_eq!(name, "application-default-icon"),
        _ => panic!("expected the default themed icon"),
    }
}

#[test]
fn icon_stock_needs_the_theme() {
    let mut c = component("org.example.App", Some("App"));
    c.icons = vec![icon(IconKind::Stock, 0, 1, "org.example.App")];
    let p = Package::new(c.clone());
    match p.icon(64, 1, &Vec::new()) {
        IconRef::Themed(name) => assert_eq!(name, "application-default-icon"),
        _ => panic!("expected the default themed icon"),
    }
    let theme = vec!["org.example.App".to_string()];
    let p2 = Package::new(c);
    match p2.icon(64, 1, &theme) {
        IconRef::Themed(name) => assert_eq!(name, "org.example.App"),
        _ => panic!("expected the stock themed icon"),
    }
}

#[test]
fn icon_remote_is_a_uri() {
    let mut c = component("org.example.App", Some("App"));
    c.icons = vec![icon(IconKind::Remote, 64, 1, "https://example.org/i.png")];
    let p = Package::new(c);
    match p.icon(64, 1, &Vec::new()) {
        IconRef::UriFile(uri) => assert_eq!(uri, "https://example.org/i.png"),
        _ => panic!("expected a remote icon"),
    }
}
