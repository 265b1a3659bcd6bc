//! The export planner, the source-root bootstrap, the top-level rescan and
//! the explicit portfolio edits, on concrete values.

use site_builder::entries::{AppState, DirEntry, Meta, Project, Website};
use site_builder::export::{export_plan, missing_defaults, ExportStep};
use site_builder::site::SourceScan;
use site_builder::reconcile::ProjectSource;

fn state_with_one_project() -> AppState {
    let mut state = AppState::default();
    state.source = "/s".to_string();
    state.website.about = "hello".to_string();
    let mut p = Project::default();
    p.path = "/s/portfolio/a-dir".to_string();
    p.meta = Meta { title: "A".to_string() };
    p.description = "desc".to_string();
    state.website.portfolio = vec![p];
    state
}

fn step_to_string(s: &ExportStep) -> String {
    match s {
        ExportStep::EnsureDir { path } => format!("dir {path}"),
        ExportStep::TouchFile { path } => format!("touch {path}"),
        ExportStep::WriteFile { path, contents } => {
            format!("write {path} {:?}", String::from_utf8_lossy(contents))
        },
    }
}

/// The save pass for one entry: its backing directory, its two files, its
/// image directory, then the top-level about file. The files land under the
/// entry's backing path, not under its in-memory title.
#[test]
fn plan_for_one_project() {
    let state = state_with_one_project();
    let plan = export_plan(&state);
    let rendered: Vec<String> = plan.iter().map(step_to_string).collect();
    assert_eq!(
        rendered,
        vec![
            "dir /s/portfolio/a-dir".to_string(),
            "write /s/portfolio/a-dir/content.md \"desc\"".to_string(),
            "write /s/portfolio/a-dir/meta.toml \"title = \\\"A\\\"\\n\"".to_string(),
            "dir /s/portfolio/a-dir/img".to_string(),
            "write /s/about.md \"hello\"".to_string(),
        ]
    );
}

/// Planning the same model twice writes byte-identical files.
#[test]
fn plan_is_idempotent() {
    let state = state_with_one_project();
    let first = export_plan(&state);
    let second = export_plan(&state);
    let a: Vec<String> = first.iter().map(step_to_string).collect();
    let b: Vec<String> = second.iter().map(step_to_string).collect();
    assert_eq!(a, b);
}

/// Bootstrap creates exactly the missing expected children.
#[test]
fn defaults_only_for_missing_children() {
    let existing = vec!["/s/fonts".to_string(), "/s/about.md".to_string()];
    let steps = missing_defaults(&"/s".to_string(), &existing);
    let rendered: Vec<String> = steps.iter().map(step_to_string).collect();
    assert_eq!(
        rendered,
        vec![
            "dir /s/portfolio".to_string(),
            "dir /s/templates".to_string(),
            "touch /s/me.jpg".to_string(),
        ]
    );

    let all = vec![
        "/s/fonts".to_string(),
        "/s/portfolio".to_string(),
        "/s/templates".to_string(),
        "/s/about.md".to_string(),
        "/s/me.jpg".to_string(),
    ];
    assert!(missing_defaults(&"/s".to_string(), &all).is_empty());
}

/// Adding an entry appends a fresh default under the portfolio directory and
/// plans the save pass for the whole model.
#[test]
fn add_project_appends_and_plans() {
    let mut state = state_with_one_project();
    let steps = state.add_project("B".to_string());
    assert_eq!(state.website.portfolio.len(), 2);
    let added = &state.website.portfolio[1];
    assert_eq!(added.id, 1);
    assert_eq!(added.path, "/s/portfolio/B");
    assert_eq!(added.meta.title, "B");
    assert_eq!(added.description, "");
    assert!(added.images.is_empty());
    let rendered: Vec<String> = steps.iter().map(step_to_string).collect();
    assert_eq!(rendered[4], "dir /s/portfolio/B".to_string());
    assert_eq!(rendered[8], "write /s/about.md \"hello\"".to_string());
}

/// Replacing an entry goes by id; an unknown id changes nothing.
#[test]
fn update_project_by_id() {
    let mut site = Website::default();
    let mut a = Project::default();
    a.id = 0;
    a.meta = Meta { title: "a".to_string() };
    let mut b = Project::default();
    b.id = 1;
    b.meta = Meta { title: "b".to_string() };
    site.portfolio = vec![a, b];

    let mut replacement = Project::default();
    replacement.id = 1;
    replacement.meta = Meta { title: "b2".to_string() };
    site.update_project(replacement);
    assert_eq!(site.portfolio[0].meta.title, "a");
    assert_eq!(site.portfolio[1].meta.title, "b2");

    let mut unknown = Project::default();
    unknown.id = 9;
    unknown.meta = Meta { title: "ghost".to_string() };
    site.update_project(unknown);
    assert_eq!(site.portfolio.len(), 2);
    assert_eq!(site.portfolio[1].meta.title, "b2");
}

/// Deleting an entry removes it and leaves the siblings' ranks stale.
#[test]
fn delete_project_removes_by_id() {
    let mut site = Website::default();
    for (id, title) in [(0u32, "a"), (1, "b"), (2, "c")] {
        let mut p = Project::default();
        p.id = id;
        p.meta = Meta { title: title.to_string() };
        site.portfolio.push(p);
    }
    site.delete_project(1);
    let titles: Vec<&str> = site.portfolio.iter().map(|p| p.meta.title.as_str()).collect();
    assert_eq!(titles, vec!["a", "c"]);
    let ids: Vec<u32> = site.portfolio.iter().map(|p| p.id).collect();
    assert_eq!(ids, vec![0, 2]);
}

/// A site keeps its title; `new` and `update_title` set it.
#[test]
fn titles_and_new() {
    let site = Website::new(&"mine".to_string());
    assert_eq!(site.title, "mine");
    assert!(site.portfolio.is_empty());
    let mut site = site;
    site.update_title("renamed".to_string());
    assert_eq!(site.title, "renamed");
}

/// The top-level rescan dispatches each found part and leaves the rest.
#[test]
fn top_level_rescan() {
    let mut state = AppState::default();
    state.source = "/s".to_string();
    state.website.title = "kept".to_string();
    state.website.about = "old about".to_string();
    let scan = SourceScan {
        portfolio: Some(vec![ProjectSource {
            path: "/s/portfolio/p".to_string(),
            description: Some("p desc".to_string()),
            meta_doc: None,
            image_scan: None,
        }]),
        about: Some("new about".to_string()),
        image: Some("/s/me.jpg".to_string()),
        fonts: Some(vec![DirEntry {
            name: "x-bold.ttf".to_string(),
            path: "/s/fonts/x-bold.ttf".to_string(),
            is_file: true,
        }]),
    };
    state.update_from_source(&scan);
    assert_eq!(state.website.title, "kept");
    assert_eq!(state.website.about, "new about");
    assert_eq!(state.website.image, "/s/me.jpg");
    assert_eq!(state.website.fonts.bold.as_deref(), Some("/s/fonts/x-bold.ttf"));
    assert_eq!(state.website.portfolio.len(), 1);
    assert_eq!(state.website.portfolio[0].description, "p desc");

    // a scan that found nothing changes nothing
    let empty = SourceScan { portfolio: None, about: None, image: None, fonts: None };
    state.update_from_source(&empty);
    assert_eq!(state.website.about, "new about");
    assert_eq!(state.website.portfolio.len(), 1);
}
