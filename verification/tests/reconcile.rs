//! The reconciler on concrete collections: identity continuity, deletion
//! propagation, fresh defaults, dense indexing.

use site_builder::entries::{DirEntry, Meta, Project, Website};
use site_builder::reconcile::ProjectSource;

fn source_at(path: &str) -> ProjectSource {
    ProjectSource {
        path: path.to_string(),
        description: None,
        meta_doc: None,
        image_scan: None,
    }
}

fn project_at(id: u32, path: &str, title: &str) -> Project {
    let mut p = Project::default();
    p.id = id;
    p.path = path.to_string();
    p.meta = Meta { title: title.to_string() };
    p
}

/// The worked scenario: a previous collection with one titled entry, a scan
/// that still holds its path and one new path.
#[test]
fn scenario_one_kept_one_new() {
    let mut site = Website::default();
    let mut existing = project_at(0, "/src/portfolio/a", "A");
    existing.description = "edited in memory".to_string();
    site.portfolio = vec![existing];

    let scan = vec![source_at("/src/portfolio/a"), source_at("/src/portfolio/b")];
    site.update_projects_from_source(&scan);

    assert_eq!(site.portfolio.len(), 2);
    assert_eq!(site.portfolio[0].id, 0);
    assert_eq!(site.portfolio[0].path, "/src/portfolio/a");
    assert_eq!(site.portfolio[0].meta.title, "A");
    assert_eq!(site.portfolio[0].description, "edited in memory");
    assert_eq!(site.portfolio[1].id, 1);
    assert_eq!(site.portfolio[1].path, "/src/portfolio/b");
    assert_eq!(site.portfolio[1].meta.title, "");
    assert_eq!(site.portfolio[1].description, "");
    assert!(site.portfolio[1].images.is_empty());
}

/// A path absent from the scan leaves no entry behind.
#[test]
fn vanished_path_is_dropped() {
    let mut site = Website::default();
    site.portfolio = vec![
        project_at(0, "/p/gone", "Gone"),
        project_at(1, "/p/kept", "Kept"),
    ];
    let scan = vec![source_at("/p/kept")];
    site.update_projects_from_source(&scan);
    assert_eq!(site.portfolio.len(), 1);
    assert_eq!(site.portfolio[0].path, "/p/kept");
    assert_eq!(site.portfolio[0].meta.title, "Kept");
    assert!(site.portfolio.iter().all(|p| p.path != "/p/gone"));
}

/// Ids are re-derived densely in scan order, whatever they were before.
#[test]
fn ids_are_dense_after_reconciliation() {
    let mut site = Website::default();
    site.portfolio = vec![
        project_at(7, "/p/x", "X"),
        project_at(42, "/p/y", "Y"),
    ];
    let scan = vec![source_at("/p/y"), source_at("/p/x"), source_at("/p/z")];
    site.update_projects_from_source(&scan);
    let ids: Vec<u32> = site.portfolio.iter().map(|p| p.id).collect();
    assert_eq!(ids, vec![0, 1, 2]);
    assert_eq!(site.portfolio[0].meta.title, "Y");
    assert_eq!(site.portfolio[1].meta.title, "X");
    assert_eq!(site.portfolio[2].meta.title, "");
}

/// A matched entry re-reads its description and metadata when the scan of
/// its own directory offers them.
#[test]
fn matched_entry_absorbs_its_subtree() {
    let mut site = Website::default();
    site.portfolio = vec![project_at(0, "/p/a", "Old")];
    let scan = vec![ProjectSource {
        path: "/p/a".to_string(),
        description: Some("from disk".to_string()),
        meta_doc: Some(b"title = \"New\"\n".to_vec()),
        image_scan: None,
    }];
    site.update_projects_from_source(&scan);
    assert_eq!(site.portfolio[0].description, "from disk");
    assert_eq!(site.portfolio[0].meta.title, "New");
}

/// Image collections are rebuilt from the scan: files only, scan order,
/// dense positions.
#[test]
fn images_rebuilt_in_scan_order() {
    let mut p = project_at(0, "/p/a", "A");
    p.images = vec![];
    let entries = vec![
        DirEntry { name: "one.png".to_string(), path: "/p/a/img/one.png".to_string(), is_file: true },
        DirEntry { name: "sub".to_string(), path: "/p/a/img/sub".to_string(), is_file: false },
        DirEntry { name: "two.png".to_string(), path: "/p/a/img/two.png".to_string(), is_file: true },
    ];
    p.update_images_from_source(&entries);
    assert_eq!(p.images.len(), 2);
    assert_eq!(p.images[0].position, 0);
    assert_eq!(p.images[0].path, "/p/a/img/one.png");
    assert_eq!(p.images[1].position, 1);
    assert_eq!(p.images[1].path, "/p/a/img/two.png");
    // sorted by position, as assigned
    assert!(p.images.windows(2).all(|w| w[0].position <= w[1].position));
}

/// An absent image directory leaves the in-memory images untouched.
#[test]
fn absent_image_directory_keeps_images() {
    let mut site = Website::default();
    let mut prev = project_at(0, "/p/a", "A");
    let entries = vec![DirEntry {
        name: "pic.png".to_string(),
        path: "/p/a/img/pic.png".to_string(),
        is_file: true,
    }];
    prev.update_images_from_source(&entries);
    site.portfolio = vec![prev];
    let scan = vec![source_at("/p/a")];
    site.update_projects_from_source(&scan);
    assert_eq!(site.portfolio[0].images.len(), 1);
    assert_eq!(site.portfolio[0].images[0].path, "/p/a/img/pic.png");
}

/// An unparsable metadata document falls back to the default metadata.
#[test]
fn malformed_meta_defaults() {
    let mut site = Website::default();
    site.portfolio = vec![project_at(0, "/p/a", "Old")];
    let scan = vec![ProjectSource {
        path: "/p/a".to_string(),
        description: None,
        meta_doc: Some(b"not a metadata document".to_vec()),
        image_scan: None,
    }];
    site.update_projects_from_source(&scan);
    assert_eq!(site.portfolio[0].meta.title, "");
}
