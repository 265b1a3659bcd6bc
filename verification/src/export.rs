//! The export planner: what a save pass must do to the disk to make it match
//! the in-memory model. The plan is pure data — directories to ensure, files
//! to create empty when missing, files to overwrite with exact bytes — so
//! the writes themselves can happen at the edge while everything that decides
//! what to write is verified here.

use vstd::prelude::*;
use vstd::utf8::encode_utf8;
use crate::entries::{AppState, AppStateView, ProjectView, project_views};
use crate::meta_doc::{render_meta, spec_render_meta};
use crate::text::{join_path, spec_join, string_to_utf8, str_views};

verus! {

/// One step of an export or bootstrap pass.
pub enum ExportStep {
    /// Create the directory unless it already exists.
    EnsureDir { path: String },
    /// Create the file, empty, unless it already exists.
    TouchFile { path: String },
    /// Write the file with exactly these bytes, replacing what was there.
    WriteFile { path: String, contents: Vec<u8> },
}

/// Mathematical view of [`ExportStep`].
pub enum ExportStepView {
    EnsureDir { path: Seq<char> },
    TouchFile { path: Seq<char> },
    WriteFile { path: Seq<char>, contents: Seq<u8> },
}

impl View for ExportStep {
    type V = ExportStepView;

    open spec fn view(&self) -> ExportStepView {
        match self {
            ExportStep::EnsureDir { path } => ExportStepView::EnsureDir { path: path@ },
            ExportStep::TouchFile { path } => ExportStepView::TouchFile { path: path@ },
            ExportStep::WriteFile { path, contents } => ExportStepView::WriteFile {
                path: path@,
                contents: contents@,
            },
        }
    }
}

/// The views of a sequence of export steps.
pub open spec fn step_views(v: Seq<ExportStep>) -> Seq<ExportStepView> {
    v.map_values(|s: ExportStep| s@)
}

/// What exporting one entry does: ensure its backing directory, write its
/// description file and metadata document there from the in-memory values,
/// and ensure its image directory. The backing path is the entry's durable
/// identity, so the files land in the directory the entry was matched under,
/// whatever its title says in memory.
pub open spec fn spec_project_steps(p: ProjectView) -> Seq<ExportStepView> {
    seq![
        ExportStepView::EnsureDir { path: p.path },
        ExportStepView::WriteFile {
            path: spec_join(p.path, "content.md"@),
            contents: encode_utf8(p.description),
        },
        ExportStepView::WriteFile {
            path: spec_join(p.path, "meta.toml"@),
            contents: spec_render_meta(p.meta),
        },
        ExportStepView::EnsureDir { path: spec_join(p.path, "img"@) },
    ]
}

/// The steps for a whole portfolio, in portfolio order.
pub open spec fn spec_export_steps(projects: Seq<ProjectView>) -> Seq<ExportStepView>
    decreases projects.len(),
{
    if projects.len() == 0 {
        Seq::<ExportStepView>::empty()
    } else {
        spec_export_steps(projects.drop_last()) + spec_project_steps(projects.last())
    }
}

/// The whole export plan: every entry's steps, then the top-level about file.
pub open spec fn spec_export_plan(s: AppStateView) -> Seq<ExportStepView> {
    spec_export_steps(s.website.portfolio) + seq![
        ExportStepView::WriteFile {
            path: spec_join(s.source, "about.md"@),
            contents: encode_utf8(s.website.about),
        },
    ]
}

/// Plans a save pass for the current model. The plan is a function of the
/// model alone, so planning the same model twice yields the same writes.
pub fn export_plan(state: &AppState) -> (steps: Vec<ExportStep>)
    ensures
        step_views(steps@) == spec_export_plan(state@),
{
    let mut steps: Vec<ExportStep> = Vec::new();
    let ghost pviews = project_views(state.website.portfolio@);
    let n = state.website.portfolio.len();
    let mut i: usize = 0;
    while i < n
        invariant
            i <= n,
            n == state.website.portfolio@.len(),
            pviews == project_views(state.website.portfolio@),
            step_views(steps@) == spec_export_steps(pviews.take(i as int)),
        decreases n - i,
    {
        let ghost pre = steps@;
        let p = &state.website.portfolio[i];
        assert(pviews[i as int] == state.website.portfolio@[i as int]@);
        steps.push(ExportStep::EnsureDir { path: p.path.clone() });
        steps.push(
            ExportStep::WriteFile {
                path: join_path(&p.path, "content.md"),
                contents: string_to_utf8(&p.description),
            },
        );
        steps.push(
            ExportStep::WriteFile {
                path: join_path(&p.path, "meta.toml"),
                contents: render_meta(&p.meta),
            },
        );
        steps.push(ExportStep::EnsureDir { path: join_path(&p.path, "img") });
        proof {
            assert(pviews.take(i + 1).drop_last() =~= pviews.take(i as int));
            assert(pviews.take(i + 1).last() == pviews[i as int]);
            assert(step_views(steps@) =~= step_views(pre) + spec_project_steps(
                pviews[i as int],
            ));
            assert(step_views(steps@) =~= spec_export_steps(pviews.take(i + 1)));
        }
        i = i + 1;
    }
    proof {
        assert(pviews.take(n as int) =~= pviews);
    }
    steps.push(
        ExportStep::WriteFile {
            path: join_path(&state.source, "about.md"),
            contents: string_to_utf8(&state.website.about),
        },
    );
    assert(step_views(steps@) =~= spec_export_plan(state@));
    steps
}

/// Export idempotence: the planned writes depend on the model alone, so two
/// save passes over the same model, with no edit in between, write the same
/// bytes to the same files.
pub proof fn lemma_export_idempotent(s1: AppStateView, s2: AppStateView)
    requires
        s1 == s2,
    ensures
        spec_export_plan(s1) == spec_export_plan(s2),
{
}

/// The fixed children every source root is expected to hold.
pub open spec fn spec_missing_defaults(source: Seq<char>, existing: Seq<Seq<char>>) -> Seq<
    ExportStepView,
> {
    let fonts_dir = spec_join(source, "fonts"@);
    let portfolio_dir = spec_join(source, "portfolio"@);
    let templates_dir = spec_join(source, "templates"@);
    let about_file = spec_join(source, "about.md"@);
    let hero_file = spec_join(source, "me.jpg"@);
    (if !existing.contains(fonts_dir) {
        seq![ExportStepView::EnsureDir { path: fonts_dir }]
    } else {
        Seq::<ExportStepView>::empty()
    }) + (if !existing.contains(portfolio_dir) {
        seq![ExportStepView::EnsureDir { path: portfolio_dir }]
    } else {
        Seq::<ExportStepView>::empty()
    }) + (if !existing.contains(templates_dir) {
        seq![ExportStepView::EnsureDir { path: templates_dir }]
    } else {
        Seq::<ExportStepView>::empty()
    }) + (if !existing.contains(about_file) {
        seq![ExportStepView::TouchFile { path: about_file }]
    } else {
        Seq::<ExportStepView>::empty()
    }) + (if !existing.contains(hero_file) {
        seq![ExportStepView::TouchFile { path: hero_file }]
    } else {
        Seq::<ExportStepView>::empty()
    })
}

/// Whether one of the scanned paths is this path.
fn contains_string(v: &Vec<String>, s: &String) -> (r: bool)
    ensures
        r == str_views(v@).contains(s@),
{
    let n = v.len();
    let mut i: usize = 0;
    while i < n
        invariant
            i <= n,
            n == v@.len(),
            forall|j: int| 0 <= j < i ==> str_views(v@)[j] != s@,
        decreases n - i,
    {
        assert(str_views(v@)[i as int] == v@[i as int]@);
        if v[i] == *s {
            assert(str_views(v@).contains(s@));
            return true;
        }
        i = i + 1;
    }
    assert(!str_views(v@).contains(s@)) by {
        if str_views(v@).contains(s@) {
            let j = choose|j: int| 0 <= j < str_views(v@).len() && str_views(v@)[j] == s@;
            assert(str_views(v@)[j] != s@);
        }
    }
    false
}

/// Plans the bootstrap of a source root: creates whichever of the expected
/// top-level children — fonts, portfolio and templates directories, the
/// about text file, the hero image file — the scan did not find.
pub fn missing_defaults(source: &String, existing: &Vec<String>) -> (steps: Vec<ExportStep>)
    ensures
        step_views(steps@) == spec_missing_defaults(source@, str_views(existing@)),
{
    let mut steps: Vec<ExportStep> = Vec::new();
    let fonts_dir = join_path(source, "fonts");
    let portfolio_dir = join_path(source, "portfolio");
    let templates_dir = join_path(source, "templates");
    let about_file = join_path(source, "about.md");
    let hero_file = join_path(source, "me.jpg");
    if !contains_string(existing, &fonts_dir) {
        steps.push(ExportStep::EnsureDir { path: fonts_dir });
    }
    if !contains_string(existing, &portfolio_dir) {
        steps.push(ExportStep::EnsureDir { path: portfolio_dir });
    }
    if !contains_string(existing, &templates_dir) {
        steps.push(ExportStep::EnsureDir { path: templates_dir });
    }
    if !contains_string(existing, &about_file) {
        steps.push(ExportStep::TouchFile { path: about_file });
    }
    if !contains_string(existing, &hero_file) {
        steps.push(ExportStep::TouchFile { path: hero_file });
    }
    assert(step_views(steps@) =~= spec_missing_defaults(source@, str_views(existing@)));
    steps
}

} // verus!
