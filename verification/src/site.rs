//! Site-level operations: the top-level rescan that refreshes the whole
//! application state from a scan of the source root, font resolution by
//! filename, and the explicit edits — adding, replacing and deleting a
//! portfolio entry.

use vstd::prelude::*;
use crate::entries::{
    Meta, MetaView, ImageView, Fonts, FontsView, Project, ProjectView, Website, WebsiteView,
    AppState, AppStateView, DirEntry, DirEntryView, project_views, dir_entry_views,
    image_views,
};
use crate::reconcile::{ProjectSource, ProjectSourceView, source_views, spec_reconcile};
use crate::export::{ExportStep, export_plan, spec_export_plan, step_views};
use crate::text::{join_path, spec_join};
use vstd::string::StrSliceExecFns;

verus! {

/// Whether a font file name carries the marker that classifies it as the
/// bold variant: the four characters of that marker somewhere in a row.
pub open spec fn name_has_bold(name: Seq<char>) -> bool {
    exists|i: int|
        #![trigger name[i]]
        0 <= i && i + 4 <= name.len() && name[i] == 'b' && name[i + 1] == 'o' && name[i + 2] == 'l'
            && name[i + 3] == 'd'
}

/// Whether the name holds the bold marker, by a left-to-right search.
pub fn contains_bold(name: &str) -> (r: bool)
    ensures
        r == name_has_bold(name@),
{
    let n = name.unicode_len();
    if n < 4 {
        return false;
    }
    let mut i: usize = 0;
    while i <= n - 4
        invariant
            4 <= n == name@.len(),
            i <= n,
            forall|k: int|
                #![trigger name@[k]]
                0 <= k < i ==> !(name@[k] == 'b' && name@[k + 1] == 'o' && name@[k + 2] == 'l'
                    && name@[k + 3] == 'd'),
        decreases n - i,
    {
        if name.get_char(i) == 'b' && name.get_char(i + 1) == 'o' && name.get_char(i + 2) == 'l'
            && name.get_char(i + 3) == 'd' {
            assert(name_has_bold(name@));
            return true;
        }
        i = i + 1;
    }
    assert(!name_has_bold(name@)) by {
        if name_has_bold(name@) {
            let k = choose|k: int|
                #![trigger name@[k]]
                0 <= k && k + 4 <= name@.len() && name@[k] == 'b' && name@[k + 1] == 'o' && name@[k
                + 2] == 'l' && name@[k + 3] == 'd';
            assert(k < i);
        }
    }
    false
}

/// How the font directory scan resolves the font set: each scanned file
/// whose name holds the bold marker becomes the bold reference, every other
/// scanned file the normal reference; later entries win.
pub open spec fn spec_classify_fonts(es: Seq<DirEntryView>) -> FontsView
    decreases es.len(),
{
    if es.len() == 0 {
        FontsView { bold: None, normal: None }
    } else {
        let f = spec_classify_fonts(es.drop_last());
        let e = es.last();
        if !e.is_file {
            f
        } else if name_has_bold(e.name) {
            FontsView { bold: Some(e.path), normal: f.normal }
        } else {
            FontsView { bold: f.bold, normal: Some(e.path) }
        }
    }
}

/// Resolves the font set from a scan of the fonts directory.
pub fn classify_fonts(entries: &Vec<DirEntry>) -> (r: Fonts)
    ensures
        r@ == spec_classify_fonts(dir_entry_views(entries@)),
{
    let ghost evs = dir_entry_views(entries@);
    let mut fonts = Fonts::default();
    let n = entries.len();
    let mut i: usize = 0;
    while i < n
        invariant
            i <= n,
            n == entries@.len(),
            evs == dir_entry_views(entries@),
            fonts@ == spec_classify_fonts(evs.take(i as int)),
        decreases n - i,
    {
        proof {
            assert(evs.take(i + 1).drop_last() =~= evs.take(i as int));
            assert(evs.take(i + 1).last() == evs[i as int]);
            assert(evs[i as int] == entries@[i as int]@);
        }
        if entries[i].is_file {
            if contains_bold(entries[i].name.as_str()) {
                fonts.bold = Some(entries[i].path.clone());
            } else {
                fonts.normal = Some(entries[i].path.clone());
            }
        }
        i = i + 1;
    }
    proof {
        assert(evs.take(n as int) =~= evs);
    }
    fonts
}

/// What a scan of the source root offers the model: each part is present
/// exactly when the scan found the child of that role — the portfolio
/// directory (scanned one level deep, each child offering its own subtree),
/// the about text file, the hero image file, and the fonts directory.
pub struct SourceScan {
    pub portfolio: Option<Vec<ProjectSource>>,
    pub about: Option<String>,
    pub image: Option<String>,
    pub fonts: Option<Vec<DirEntry>>,
}

/// Mathematical view of [`SourceScan`].
pub struct SourceScanView {
    pub portfolio: Option<Seq<ProjectSourceView>>,
    pub about: Option<Seq<char>>,
    pub image: Option<Seq<char>>,
    pub fonts: Option<Seq<DirEntryView>>,
}

impl View for SourceScan {
    type V = SourceScanView;

    open spec fn view(&self) -> SourceScanView {
        SourceScanView {
            portfolio: match self.portfolio {
                Some(ps) => Some(source_views(ps@)),
                None => None,
            },
            about: match self.about {
                Some(a) => Some(a@),
                None => None,
            },
            image: match self.image {
                Some(p) => Some(p@),
                None => None,
            },
            fonts: match self.fonts {
                Some(es) => Some(dir_entry_views(es@)),
                None => None,
            },
        }
    }
}

/// How a rescan refreshes the site model: each part the scan found replaces
/// its field — the portfolio by reconciliation, the about text, the hero
/// image path and the fonts outright — and each absent part leaves the field
/// in memory. Title and accent color never come from the disk.
pub open spec fn spec_update_site(w: WebsiteView, s: SourceScanView) -> WebsiteView {
    WebsiteView {
        title: w.title,
        accent_color: w.accent_color,
        portfolio: match s.portfolio {
            Some(ps) => spec_reconcile(w.portfolio, ps),
            None => w.portfolio,
        },
        about: match s.about {
            Some(a) => a,
            None => w.about,
        },
        image: match s.image {
            Some(p) => p,
            None => w.image,
        },
        fonts: match s.fonts {
            Some(es) => spec_classify_fonts(es),
            None => w.fonts,
        },
    }
}

impl AppState {
    /// Refreshes the whole model from a scan of the source directory: the
    /// portfolio is reconciled, the about text, hero image and fonts are
    /// re-read, and everything the scan did not find is left as it was.
    pub fn update_from_source(&mut self, scan: &SourceScan)
        requires
            scan.portfolio matches Some(ps) ==> ps@.len() <= u32::MAX && (forall|i: int|
                0 <= i < ps@.len() ==> ((#[trigger] ps@[i]).image_scan matches Some(es)
                    ==> es@.len() <= u32::MAX)),
        ensures
            final(self)@ == (AppStateView {
                website: spec_update_site(old(self)@.website, scan@),
                ..old(self)@
            }),
    {
        match &scan.portfolio {
            Some(ps) => {
                self.website.update_projects_from_source(ps);
            },
            None => {},
        }
        match &scan.about {
            Some(a) => {
                self.website.about = a.clone();
            },
            None => {},
        }
        match &scan.image {
            Some(p) => {
                self.website.image = p.clone();
            },
            None => {},
        }
        match &scan.fonts {
            Some(es) => {
                self.website.fonts = classify_fonts(es);
            },
            None => {},
        }
    }

    /// Adds a fresh entry under the given name and plans the save pass that
    /// writes the whole model — the new entry's files included — back to
    /// disk.
    pub fn add_project(&mut self, name: String) -> (steps: Vec<ExportStep>)
        requires
            old(self).website.portfolio@.len() < u32::MAX,
        ensures
            final(self)@ == (AppStateView {
                website: spec_add_project(
                    old(self)@.website,
                    old(self)@.source,
                    name@,
                ),
                ..old(self)@
            }),
            step_views(steps@) == spec_export_plan(final(self)@),
    {
        let root = self.source.clone();
        self.website.add_project(&root, name);
        export_plan(self)
    }
}

/// What adding an entry does to the site model: a fresh default entry under
/// the portfolio directory of the source root, titled with its name, ranked
/// after every existing entry.
pub open spec fn spec_add_project(w: WebsiteView, root: Seq<char>, name: Seq<char>) -> WebsiteView {
    WebsiteView {
        portfolio: w.portfolio.push(
            ProjectView {
                id: w.portfolio.len() as u32,
                path: spec_join(spec_join(root, "portfolio"@), name),
                meta: MetaView { title: name },
                description: Seq::<char>::empty(),
                images: Seq::<ImageView>::empty(),
            },
        ),
        ..w
    }
}

/// The first index in the portfolio whose entry carries this id, or -1.
pub open spec fn find_by_id(s: Seq<ProjectView>, id: u32) -> int
    decreases s.len(),
{
    if s.len() == 0 {
        -1
    } else if s[0].id == id {
        0
    } else {
        let r = find_by_id(s.drop_first(), id);
        if r < 0 {
            -1
        } else {
            r + 1
        }
    }
}

/// What [`find_by_id`] returns: the first entry with the id, or -1.
pub proof fn lemma_find_by_id(s: Seq<ProjectView>, id: u32)
    ensures
        ({
            let r = find_by_id(s, id);
            &&& r == -1 ==> forall|j: int| 0 <= j < s.len() ==> s[j].id != id
            &&& r != -1 ==> 0 <= r < s.len() && s[r].id == id && (forall|j: int|
                0 <= j < r ==> s[j].id != id)
        }),
    decreases s.len(),
{
    let r = find_by_id(s, id);
    if s.len() == 0 {
    } else if s[0].id == id {
    } else {
        lemma_find_by_id(s.drop_first(), id);
        let rest = s.drop_first();
        let rr = find_by_id(rest, id);
        assert(forall|j: int| 0 <= j < rest.len() ==> rest[j] == s[j + 1]);
        if rr == -1 {
            assert forall|j: int| 0 <= j < s.len() implies s[j].id != id by {
                if j > 0 {
                    assert(rest[j - 1].id != id);
                }
            }
        } else {
            assert(rest[rr] == s[rr + 1]);
            assert forall|j: int| 0 <= j < r implies s[j].id != id by {
                if j > 0 {
                    assert(rest[j - 1].id != id);
                }
            }
        }
    }
}

/// The portfolio with every entry of this id removed, order kept.
pub open spec fn spec_remove_id(s: Seq<ProjectView>, id: u32) -> Seq<ProjectView>
    decreases s.len(),
{
    if s.len() == 0 {
        Seq::<ProjectView>::empty()
    } else {
        spec_remove_id(s.drop_last(), id) + if s.last().id != id {
            seq![s.last()]
        } else {
            Seq::<ProjectView>::empty()
        }
    }
}

impl Website {
    /// Adds a fresh default entry under the given name: its backing
    /// directory derived from the name under the portfolio directory, its
    /// title the name, its rank after every existing entry.
    pub fn add_project(&mut self, path_root: &String, name: String)
        requires
            old(self).portfolio@.len() < u32::MAX,
        ensures
            final(self)@ == spec_add_project(old(self)@, path_root@, name@),
    {
        let id = self.portfolio.len() as u32;
        let d0 = join_path(path_root, "portfolio");
        let path = join_path(&d0, name.as_str());
        let p = Project {
            id,
            path,
            meta: Meta { title: name },
            description: String::new(),
            images: Vec::new(),
        };
        assert(image_views(p.images@) =~= Seq::<ImageView>::empty());
        self.portfolio.push(p);
        assert(project_views(self.portfolio@) =~= spec_add_project(
            old(self)@,
            path_root@,
            name@,
        ).portfolio);
    }

    /// Replaces the first entry carrying the given entry's id with that
    /// entry; with no entry of that id, leaves the model untouched.
    pub fn update_project(&mut self, project: Project)
        ensures
            ({
                let r = find_by_id(old(self)@.portfolio, project.id);
                &&& r != -1 ==> final(self)@ == (WebsiteView {
                    portfolio: old(self)@.portfolio.update(r, project@),
                    ..old(self)@
                })
                &&& r == -1 ==> final(self)@ == old(self)@
            }),
    {
        let ghost pviews = project_views(self.portfolio@);
        let n = self.portfolio.len();
        let mut i: usize = 0;
        while i < n
            invariant
                i <= n,
                n == self.portfolio@.len(),
                *self == *old(self),
                pviews == project_views(self.portfolio@),
                forall|j: int| 0 <= j < i ==> (#[trigger] pviews[j]).id != project.id,
            decreases n - i,
        {
            assert(pviews[i as int] == self.portfolio@[i as int]@);
            if self.portfolio[i].id == project.id {
                proof {
                    lemma_find_by_id(pviews, project.id);
                    let r = find_by_id(pviews, project.id);
                    assert(r != -1);
                    if r < i as int {
                        assert(pviews[r].id != project.id);
                        assert(false);
                    }
                    if r > i as int {
                        assert(pviews[i as int].id != project.id);
                        assert(false);
                    }
                }
                self.portfolio.remove(i);
                self.portfolio.insert(i, project);
                assert(project_views(self.portfolio@) =~= pviews.update(i as int, project@));
                return ;
            }
            i = i + 1;
        }
        proof {
            lemma_find_by_id(pviews, project.id);
            let r = find_by_id(pviews, project.id);
            if r != -1 {
                assert(pviews[r].id == project.id);
                assert(false);
            }
        }
    }

    /// Removes every entry carrying this id from the portfolio, keeping the
    /// others in order; their ranks are left stale until the next
    /// reconciliation re-derives them.
    pub fn delete_project(&mut self, id: u32)
        ensures
            final(self)@ == (WebsiteView {
                portfolio: spec_remove_id(old(self)@.portfolio, id),
                ..old(self)@
            }),
    {
        let ghost pviews = project_views(self.portfolio@);
        let mut kept: Vec<Project> = Vec::new();
        let n = self.portfolio.len();
        let mut i: usize = 0;
        while i < n
            invariant
                i <= n,
                n == self.portfolio@.len(),
                *self == *old(self),
                pviews == project_views(self.portfolio@),
                project_views(kept@) == spec_remove_id(pviews.take(i as int), id),
            decreases n - i,
        {
            proof {
                assert(pviews.take(i + 1).drop_last() =~= pviews.take(i as int));
                assert(pviews.take(i + 1).last() == pviews[i as int]);
                assert(pviews[i as int] == self.portfolio@[i as int]@);
            }
            if self.portfolio[i].id != id {
                let p = crate::reconcile::clone_project(&self.portfolio[i]);
                kept.push(p);
                assert(project_views(kept@) =~= spec_remove_id(pviews.take(i + 1), id));
            } else {
                assert(project_views(kept@) =~= spec_remove_id(pviews.take(i + 1), id));
            }
            i = i + 1;
        }
        proof {
            assert(pviews.take(n as int) =~= pviews);
        }
        self.portfolio = kept;
    }
}

} // verus!
