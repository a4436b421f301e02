use catalogue::backend::{FlatpakBackend, IconLinkTarget, RemoteAction};
use catalogue::category::{sort_components_into_categories, CatalogueCategories};
use catalogue::component::{Component, ComponentKind, Release};
use catalogue::utils::fixup;

fn game(id: &str, bundle: &str, tags: &[&str], timestamp: u64) -> Component {
    Component {
        id: id.to_string(),
        origin: "flathub".to_string(),
        kind: ComponentKind::DesktopApp,
        name: Some(id.to_string()),
        summary: Some("A summary".to_string()),
        bundle_id: Some(bundle.to_string()),
        icons: Vec::new(),
        releases: vec![Release { version: Some("1.0".to_string()), timestamp }],
        categories: tags.iter().map(|t| t.to_string()).collect(),
    }
}

#[test]
fn staleness_boundary_is_exclusive() {
    assert_eq!(FlatpakBackend::remote_refresh_action(false, true, 3600), RemoteAction::Fresh);
    assert_eq!(FlatpakBackend::remote_refresh_action(false, true, 3601), RemoteAction::Sync);
}

#[test]
fn missing_timestamp_means_stale() {
    assert_eq!(FlatpakBackend::remote_refresh_action(false, false, 0), RemoteAction::Sync);
}

#[test]
fn disabled_remote_is_skipped() {
    assert_eq!(FlatpakBackend::remote_refresh_action(true, true, 9999), RemoteAction::Skip);
    assert_eq!(FlatpakBackend::remote_refresh_action(true, false, 0), RemoteAction::Skip);
}

#[test]
fn collection_files_are_named_after_the_origin() {
    assert_eq!(FlatpakBackend::collection_file_name("flathub"), "flathub.xml");
}

#[test]
fn icon_links_prefer_the_per_origin_directory() {
    assert_eq!(FlatpakBackend::icon_link_target(true), IconLinkTarget::PerOriginDir);
    assert_eq!(FlatpakBackend::icon_link_target(false), IconLinkTarget::IconRoot);
}

#[test]
fn refresh_plan_covers_configured_scopes() {
    let both = FlatpakBackend::new(String::new(), String::new(), true, true);
    let plan = both.refresh_plan();
    assert!(plan.refresh_user && plan.refresh_system && !plan.warn_no_installations);
}

#[test]
fn scope_independence_user_only() {
    let mut user_only = FlatpakBackend::new(String::new(), String::new(), true, false);
    let plan = user_only.refresh_plan();
    assert!(plan.refresh_user);
    assert!(!plan.refresh_system);
    assert!(!plan.warn_no_installations);
    user_only.reload_appstream_pool(false, vec![game("org.g", "b.g", &["Game"], 1)]);
    assert_eq!(user_only.package_list.len(), 1);
    assert!(user_only.get_package_for_component_id("org.g".to_string()).is_some());
}

#[test]
fn no_installations_is_a_warning_not_an_error() {
    let none = FlatpakBackend::default();
    let plan = none.refresh_plan();
    assert!(!plan.refresh_user && !plan.refresh_system);
    assert!(plan.warn_no_installations);
}

#[test]
fn fixup_rewrites_the_header_origin() {
    let content = b"<?xml version=\"1.0\"?>\n<components version=\"0.8\" origin=\"flatpak\">\n<component/>\n".to_vec();
    let out = fixup(&content, "flathub");
    let expected = b"<?xml version=\"1.0\"?>\n<components version=\"0.8\" origin=\"flathub\">\n<component/>\n".to_vec();
    assert_eq!(out, expected);
}

#[test]
fn fixup_preserves_unmarked_content_byte_for_byte() {
    let content = b"line one\nflatpak mentioned but no header\nlast line without newline".to_vec();
    let out = fixup(&content, "flathub");
    assert_eq!(out, content);
}

#[test]
fn fixup_replaces_every_token_on_the_header_line() {
    let content = b"<components version=\"0.8\" origin=\"flatpak\"> flatpak\n".to_vec();
    let out = fixup(&content, "f");
    let expected = b"<components version=\"0.8\" origin=\"f\"> f\n".to_vec();
    assert_eq!(out, expected);
}

#[test]
fn fixup_of_empty_content_is_empty() {
    let out = fixup(&Vec::new(), "flathub");
    assert!(out.is_empty());
}

#[test]
fn default_categories_carry_their_taxonomy() {
    let cats = CatalogueCategories::default();
    assert_eq!(cats.accessories.name, "Accessories");
    assert_eq!(cats.internet.name, "Internet");
    assert_eq!(cats.games.name, "Games");
    assert_eq!(cats.develop.name, "Develop");
    assert_eq!(cats.create.name, "Create");
    assert_eq!(cats.work.name, "Work");
    assert_eq!(cats.games.icon, "application-games-symbolic");
    assert_eq!(cats.games.desktop_groups.len(), 15);
    assert!(cats.games.desktop_groups.iter().any(|g| g == "Game"));
    assert_eq!(cats.internet.desktop_groups.len(), 7);
    assert!(!cats.internet.desktop_groups.iter().any(|g| g == "Game"));
    assert_eq!(cats.create.desktop_groups.len(), 33);
    assert_eq!(cats.work.desktop_groups.len(), 23);
    assert!(cats.accessories.components.is_empty());
}

#[test]
fn category_disjointness_for_a_game() {
    let mut b = FlatpakBackend::new(String::new(), String::new(), false, true);
    b.reload_appstream_pool(true, vec![game("org.game.Only", "b.game", &["Game"], 10)]);
    let mut cats = CatalogueCategories::default();
    let in_games = b.get_packages_for_category(&mut cats.games);
    assert_eq!(in_games.len(), 1);
    assert_eq!(in_games[0].component.id, "org.game.Only");
    let in_internet = b.get_packages_for_category(&mut cats.internet);
    assert!(in_internet.is_empty());
}

#[test]
fn category_query_drops_unindexed_components() {
    let mut b = FlatpakBackend::new(String::new(), String::new(), false, true);
    let mut unbundled = game("org.game.NoBundle", "unused", &["Game"], 10);
    unbundled.bundle_id = None;
    b.reload_appstream_pool(true, vec![unbundled]);
    let mut cats = CatalogueCategories::default();
    let in_games = b.get_packages_for_category(&mut cats.games);
    assert!(in_games.is_empty());
    assert_eq!(cats.games.components.len(), 1);
}

#[test]
fn sorting_buckets_components_into_matching_categories() {
    let comps = vec![
        game("org.game.A", "b.a", &["ArcadeGame"], 1),
        game("org.chat.B", "b.b", &["Chat"], 2),
    ];
    let cats = CatalogueCategories::default();
    let mut buckets = vec![cats.games, cats.internet, cats.work];
    sort_components_into_categories(&comps, &mut buckets, false);
    assert_eq!(buckets[0].components.len(), 1);
    assert_eq!(buckets[0].components[0].id, "org.game.A");
    assert_eq!(buckets[1].components.len(), 1);
    assert_eq!(buckets[1].components[0].id, "org.chat.B");
    // Chat belongs to Work too: categories may overlap
    assert_eq!(buckets[2].components.len(), 1);
}

#[test]
fn sorting_with_duplicate_check_skips_known_ids() {
    let comps = vec![game("org.game.A", "b.a", &["ArcadeGame"], 1)];
    let cats = CatalogueCategories::default();
    let mut buckets = vec![cats.games];
    sort_components_into_categories(&comps, &mut buckets, false);
    sort_components_into_categories(&comps, &mut buckets, true);
    assert_eq!(buckets[0].components.len(), 1);
    sort_components_into_categories(&comps, &mut buckets, false);
    assert_eq!(buckets[0].components.len(), 2);
}

#[test]
fn category_recent_listing_sorts_and_truncates() {
    let cats = CatalogueCategories::default();
    let mut games = cats.games;
    games.components = vec![
        game("org.t100", "b.100", &["Game"], 100),
        game("org.t500", "b.500", &["Game"], 500),
        game("org.t300", "b.300", &["Game"], 300),
    ];
    let top = games.get_recently_updated_packages(Some(2));
    assert_eq!(top.len(), 2);
    assert_eq!(top[0].component.id, "org.t500");
    assert_eq!(top[1].component.id, "org.t300");
    let all = games.get_recently_updated_packages(None);
    assert_eq!(all.len(), 3);
}
