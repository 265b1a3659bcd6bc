//! The reconciler: merging a previous entry collection with a fresh one-level
//! directory scan. An entry whose backing path still appears in the scan is
//! kept with all its in-memory fields and refreshed from its own subtree; a
//! scanned path with no prior match becomes a fresh default entry; an entry
//! whose path vanished from the scan is dropped. Identity (`id`, `position`)
//! is re-derived on every pass as the entry's rank in scan order, so it stays
//! dense whatever was deleted.

use vstd::prelude::*;
use crate::entries::{
    Meta, MetaView, Image, ImageView, Fonts, FontsView, Project, ProjectView, Website,
    WebsiteView, AppState, AppStateView, DirEntry, DirEntryView, image_views, project_views,
    dir_entry_views,
};
use crate::meta_doc::{parse_meta, spec_parse_meta};
use vstd::string::StrSliceExecFns;

verus! {

/// What one scanned portfolio child offers its entry: the child's path, the
/// text of its description file when one was found, the raw bytes of its
/// metadata document when one was found, and the scan of its image directory
/// when one was found. An absent part leaves the matched entry's field as it
/// was in memory.
pub struct ProjectSource {
    pub path: String,
    pub description: Option<String>,
    pub meta_doc: Option<Vec<u8>>,
    pub image_scan: Option<Vec<DirEntry>>,
}

/// Mathematical view of [`ProjectSource`].
pub struct ProjectSourceView {
    pub path: Seq<char>,
    pub description: Option<Seq<char>>,
    pub meta_doc: Option<Seq<u8>>,
    pub image_scan: Option<Seq<DirEntryView>>,
}

impl View for ProjectSource {
    type V = ProjectSourceView;

    open spec fn view(&self) -> ProjectSourceView {
        ProjectSourceView {
            path: self.path@,
            description: match self.description {
                Some(d) => Some(d@),
                None => None,
            },
            meta_doc: match self.meta_doc {
                Some(b) => Some(b@),
                None => None,
            },
            image_scan: match self.image_scan {
                Some(es) => Some(dir_entry_views(es@)),
                None => None,
            },
        }
    }
}

/// The views of a sequence of project sources.
pub open spec fn source_views(v: Seq<ProjectSource>) -> Seq<ProjectSourceView> {
    v.map_values(|s: ProjectSource| s@)
}

/// The first index in `prev` whose entry is backed by `path`, or -1 when no
/// entry is.
pub open spec fn find_by_path(prev: Seq<ProjectView>, path: Seq<char>) -> int
    decreases prev.len(),
{
    if prev.len() == 0 {
        -1
    } else if prev[0].path == path {
        0
    } else {
        let r = find_by_path(prev.drop_first(), path);
        if r < 0 {
            -1
        } else {
            r + 1
        }
    }
}

/// What [`find_by_path`] returns: the first match when one exists, -1 when
/// none does.
pub proof fn lemma_find_by_path(prev: Seq<ProjectView>, path: Seq<char>)
    ensures
        ({
            let r = find_by_path(prev, path);
            &&& r == -1 ==> forall|j: int| 0 <= j < prev.len() ==> prev[j].path != path
            &&& r != -1 ==> 0 <= r < prev.len() && prev[r].path == path && (forall|j: int|
                0 <= j < r ==> prev[j].path != path)
        }),
    decreases prev.len(),
{
    let r = find_by_path(prev, path);
    if prev.len() == 0 {
    } else if prev[0].path == path {
    } else {
        lemma_find_by_path(prev.drop_first(), path);
        let rest = prev.drop_first();
        let rr = find_by_path(rest, path);
        assert(forall|j: int| 0 <= j < rest.len() ==> rest[j] == prev[j + 1]);
        if rr == -1 {
            assert forall|j: int| 0 <= j < prev.len() implies prev[j].path != path by {
                if j > 0 {
                    assert(rest[j - 1].path != path);
                }
            }
        } else {
            assert(r == rr + 1);
            assert(rest[rr] == prev[rr + 1]);
            assert forall|j: int| 0 <= j < r implies prev[j].path != path by {
                if j > 0 {
                    assert(rest[j - 1].path != path);
                }
            }
        }
    }
}

/// The file entries among scanned children, in scan order.
pub open spec fn file_entries(es: Seq<DirEntryView>) -> Seq<DirEntryView>
    decreases es.len(),
{
    if es.len() == 0 {
        Seq::<DirEntryView>::empty()
    } else {
        file_entries(es.drop_last()) + if es.last().is_file {
            seq![es.last()]
        } else {
            Seq::<DirEntryView>::empty()
        }
    }
}

/// A fresh image collection from a scan of an image directory: one image per
/// scanned file, in scan order, each positioned at its rank. The collection
/// is thereby sorted by `position` from construction.
pub open spec fn spec_scan_images(es: Seq<DirEntryView>) -> Seq<ImageView> {
    Seq::new(
        file_entries(es).len(),
        |i: int| ImageView { position: i as u32, path: file_entries(es)[i].path },
    )
}

/// How an entry absorbs what its own backing directory now holds: each part
/// the scan offers replaces the in-memory field, each absent part leaves it.
pub open spec fn spec_absorb(p: ProjectView, s: ProjectSourceView) -> ProjectView {
    ProjectView {
        id: p.id,
        path: p.path,
        meta: match s.meta_doc {
            Some(doc) => spec_parse_meta(doc),
            None => p.meta,
        },
        description: match s.description {
            Some(d) => d,
            None => p.description,
        },
        images: match s.image_scan {
            Some(es) => spec_scan_images(es),
            None => p.images,
        },
    }
}

/// One reconciled entry: the prior entry at the scanned path when one exists,
/// else a fresh default; its identity rebased to rank `i`, its path taken
/// from the scan, and its subtree absorbed.
pub open spec fn spec_merge(prev: Seq<ProjectView>, s: ProjectSourceView, i: int) -> ProjectView {
    let m = find_by_path(prev, s.path);
    let base = if m != -1 {
        prev[m]
    } else {
        Project::default_view()
    };
    spec_absorb(ProjectView { id: i as u32, path: s.path, ..base }, s)
}

/// The reconciled collection: one merged entry per scanned child, in scan
/// order.
pub open spec fn spec_reconcile(prev: Seq<ProjectView>, scan: Seq<ProjectSourceView>) -> Seq<
    ProjectView,
> {
    Seq::new(scan.len(), |i: int| spec_merge(prev, scan[i], i))
}

/// The first index in `prev` whose entry is backed by `path`, as the
/// reconciler looks it up.
fn find_project(v: &Vec<Project>, path: &String) -> (r: Option<usize>)
    ensures
        match r {
            Some(idx) => idx < v@.len() && find_by_path(project_views(v@), path@) == idx as int,
            None => find_by_path(project_views(v@), path@) == -1,
        },
{
    let ghost prevs = project_views(v@);
    let n = v.len();
    let mut i: usize = 0;
    while i < n
        invariant
            i <= n,
            n == v@.len(),
            prevs == project_views(v@),
            forall|j: int| 0 <= j < i ==> (#[trigger] prevs[j]).path != path@,
        decreases n - i,
    {
        assert(prevs[i as int] == v@[i as int]@);
        if v[i].path == *path {
            proof {
                lemma_find_by_path(prevs, path@);
                let r = find_by_path(prevs, path@);
                assert(prevs[i as int].path == path@);
                assert(r != -1);
                if r < i as int {
                    assert(prevs[r].path != path@);
                    assert(false);
                }
                if r > i as int {
                    assert(prevs[i as int].path != path@);
                    assert(false);
                }
            }
            return Some(i);
        }
        assert(prevs[i as int].path != path@);
        i = i + 1;
    }
    proof {
        lemma_find_by_path(prevs, path@);
        let r = find_by_path(prevs, path@);
        if r != -1 {
            assert(prevs[r].path == path@);
            assert(false);
        }
    }
    None
}

/// A value-equal copy of an image.
fn clone_image(img: &Image) -> (r: Image)
    ensures
        r == *img,
{
    Image { position: img.position, path: img.path.clone() }
}

/// A copy of a project, images and all, with the same view.
pub(crate) fn clone_project(p: &Project) -> (r: Project)
    ensures
        r@ == p@,
{
    let mut images: Vec<Image> = Vec::new();
    let n = p.images.len();
    let mut i: usize = 0;
    while i < n
        invariant
            i <= n,
            n == p.images@.len(),
            images@ == p.images@.take(i as int),
        decreases n - i,
    {
        images.push(clone_image(&p.images[i]));
        assert(images@ =~= p.images@.take(i + 1));
        i = i + 1;
    }
    assert(images@ =~= p.images@);
    let r = Project {
        id: p.id,
        path: p.path.clone(),
        meta: Meta { title: p.meta.title.clone() },
        description: p.description.clone(),
        images,
    };
    assert(image_views(r.images@) == image_views(p.images@));
    r
}

impl Project {
    /// Rebuilds the image collection from a scan of this entry's image
    /// directory: one image per scanned file, in scan order, densely
    /// positioned — and therefore already sorted by `position`.
    pub fn update_images_from_source(&mut self, entries: &Vec<DirEntry>)
        requires
            entries@.len() <= u32::MAX,
        ensures
            final(self)@ == (ProjectView {
                images: spec_scan_images(dir_entry_views(entries@)),
                ..old(self)@
            }),
    {
        let ghost evs = dir_entry_views(entries@);
        let mut tmp: Vec<Image> = Vec::new();
        let n = entries.len();
        let mut i: usize = 0;
        while i < n
            invariant
                i <= n,
                n == entries@.len() <= u32::MAX,
                evs == dir_entry_views(entries@),
                tmp@.len() == file_entries(evs.take(i as int)).len() <= i,
                image_views(tmp@) == spec_scan_images(evs.take(i as int)),
            decreases n - i,
        {
            proof {
                assert(evs.take(i + 1).drop_last() =~= evs.take(i as int));
                assert(evs.take(i + 1).last() == evs[i as int]);
                assert(evs[i as int] == entries@[i as int]@);
            }
            if entries[i].is_file {
                let ghost pre = tmp@;
                let img = Image { position: tmp.len() as u32, path: entries[i].path.clone() };
                tmp.push(img);
                proof {
                    let fe0 = file_entries(evs.take(i as int));
                    let fe1 = file_entries(evs.take(i + 1));
                    assert(fe1 =~= fe0 + seq![evs[i as int]]);
                    assert(image_views(tmp@) =~= image_views(pre).push(img@));
                    assert forall|k: int|
                        0 <= k < fe1.len() implies image_views(tmp@)[k] == spec_scan_images(
                        evs.take(i + 1),
                    )[k] by {
                        if k < fe0.len() {
                            assert(fe1[k] == fe0[k]);
                            assert(image_views(tmp@)[k] == image_views(pre)[k]);
                            assert(image_views(pre)[k] == spec_scan_images(evs.take(i as int))[k]);
                        } else {
                            assert(k == fe0.len());
                            assert(fe1[k] == evs[i as int]);
                            assert(image_views(tmp@)[k] == img@);
                        }
                    }
                    assert(image_views(tmp@) =~= spec_scan_images(evs.take(i + 1)));
                }
            } else {
                proof {
                    assert(file_entries(evs.take(i + 1)) =~= file_entries(evs.take(i as int)));
                    assert(spec_scan_images(evs.take(i + 1)) =~= spec_scan_images(
                        evs.take(i as int),
                    ));
                }
            }
            i = i + 1;
        }
        proof {
            assert(evs.take(n as int) =~= evs);
        }
        self.images = tmp;
    }

    /// Refreshes this entry from what its own backing directory now holds:
    /// the description file, the metadata document and the image directory
    /// each replace their field when the scan found them, and are left in
    /// memory when it did not.
    pub fn update_from_source(&mut self, src: &ProjectSource)
        requires
            src.image_scan matches Some(es) ==> es@.len() <= u32::MAX,
        ensures
            final(self)@ == spec_absorb(old(self)@, src@),
    {
        match &src.description {
            Some(d) => {
                self.description = d.clone();
            },
            None => {},
        }
        match &src.meta_doc {
            Some(doc) => {
                self.meta = parse_meta(doc);
            },
            None => {},
        }
        match &src.image_scan {
            Some(es) => {
                self.update_images_from_source(es);
            },
            None => {},
        }
    }
}

impl Website {
    /// Reconciles the portfolio against a fresh scan of the portfolio
    /// directory: matched entries keep their in-memory fields, new paths
    /// become fresh entries, vanished paths are dropped, and every entry's
    /// `id` becomes its rank in scan order.
    pub fn update_projects_from_source(&mut self, scan: &Vec<ProjectSource>)
        requires
            scan@.len() <= u32::MAX,
            forall|i: int|
                0 <= i < scan@.len() ==> ((#[trigger] scan@[i]).image_scan matches Some(es)
                    ==> es@.len() <= u32::MAX),
        ensures
            final(self)@ == (WebsiteView {
                portfolio: spec_reconcile(old(self)@.portfolio, source_views(scan@)),
                ..old(self)@
            }),
    {
        let ghost prevs = project_views(self.portfolio@);
        let ghost svs = source_views(scan@);
        let mut tmp: Vec<Project> = Vec::new();
        let n = scan.len();
        let mut i: usize = 0;
        while i < n
            invariant
                i <= n,
                n == scan@.len() <= u32::MAX,
                *self == *old(self),
                prevs == project_views(self.portfolio@),
                svs == source_views(scan@),
                forall|k: int|
                    0 <= k < scan@.len() ==> ((#[trigger] scan@[k]).image_scan matches Some(es)
                        ==> es@.len() <= u32::MAX),
                tmp@.len() == i,
                project_views(tmp@) == spec_reconcile(prevs, svs).take(i as int),
            decreases n - i,
        {
            assert(svs[i as int] == scan@[i as int]@);
            let mut p = match find_project(&self.portfolio, &scan[i].path) {
                Some(idx) => {
                    assert(prevs[idx as int] == self.portfolio@[idx as int]@);
                    clone_project(&self.portfolio[idx])
                },
                None => Project::default(),
            };
            p.id = tmp.len() as u32;
            p.path = scan[i].path.clone();
            assert(p@ == (ProjectView {
                id: i as u32,
                path: svs[i as int].path,
                ..(if find_by_path(prevs, svs[i as int].path) != -1 {
                    prevs[find_by_path(prevs, svs[i as int].path)]
                } else {
                    Project::default_view()
                })
            }));
            p.update_from_source(&scan[i]);
            assert(p@ == spec_merge(prevs, svs[i as int], i as int));
            tmp.push(p);
            proof {
                assert(project_views(tmp@) =~= spec_reconcile(prevs, svs).take(i + 1));
            }
            i = i + 1;
        }
        proof {
            assert(spec_reconcile(prevs, svs).take(n as int) =~= spec_reconcile(prevs, svs));
        }
        self.portfolio = tmp;
    }
}

// ---------------------------------------------------------------------------
// The laws the reconciler obeys.
// ---------------------------------------------------------------------------

/// Identity continuity: when the scan still contains the backing path of a
/// prior entry, and offers nothing new for its subtree, the reconciled entry
/// at that path keeps the prior entry's metadata, description and images,
/// under a freshly assigned dense rank.
pub proof fn lemma_identity_continuity(
    prev: Seq<ProjectView>,
    scan: Seq<ProjectSourceView>,
    i: int,
    j: int,
)
    requires
        0 <= i < scan.len(),
        0 <= j < prev.len(),
        prev[j].path == scan[i].path,
        forall|k: int| 0 <= k < j ==> prev[k].path != scan[i].path,
        scan[i].description is None,
        scan[i].meta_doc is None,
        scan[i].image_scan is None,
    ensures
        ({
            let out = spec_reconcile(prev, scan);
            &&& out[i].path == scan[i].path
            &&& out[i].id == i as u32
            &&& out[i].meta == prev[j].meta
            &&& out[i].description == prev[j].description
            &&& out[i].images == prev[j].images
        }),
{
    lemma_find_by_path(prev, scan[i].path);
    let r = find_by_path(prev, scan[i].path);
    assert(r != -1);
    assert(r == j) by {
        if r < j {
            assert(prev[r].path == scan[i].path);
        }
        if r > j {
            assert(prev[j].path != scan[i].path);
        }
    }
}

/// Deletion propagation: a path that is absent from the scan is absent from
/// the reconciled collection.
pub proof fn lemma_deletion_propagation(
    prev: Seq<ProjectView>,
    scan: Seq<ProjectSourceView>,
    path: Seq<char>,
)
    requires
        forall|i: int| 0 <= i < scan.len() ==> (#[trigger] scan[i]).path != path,
    ensures
        forall|i: int|
            0 <= i < spec_reconcile(prev, scan).len() ==> (#[trigger] spec_reconcile(prev, scan)[i]).path
                != path,
{
    assert forall|i: int|
        0 <= i < spec_reconcile(prev, scan).len() implies (#[trigger] spec_reconcile(
        prev,
        scan,
    )[i]).path != path by {
        assert(spec_reconcile(prev, scan)[i] == spec_merge(prev, scan[i], i));
    }
}

/// New-entry default: a scanned path with no prior match yields a fresh
/// default entry at that path, populated only by what its own subtree scan
/// offers.
pub proof fn lemma_new_entry_default(prev: Seq<ProjectView>, scan: Seq<ProjectSourceView>, i: int)
    requires
        0 <= i < scan.len(),
        forall|j: int| 0 <= j < prev.len() ==> (#[trigger] prev[j]).path != scan[i].path,
    ensures
        spec_reconcile(prev, scan)[i] == spec_absorb(
            ProjectView { id: i as u32, path: scan[i].path, ..Project::default_view() },
            scan[i],
        ),
{
    lemma_find_by_path(prev, scan[i].path);
    let r = find_by_path(prev, scan[i].path);
    assert(r == -1) by {
        if r != -1 {
            assert(prev[r].path == scan[i].path);
        }
    }
}

/// Dense indexing: a reconciled collection of size n carries exactly the ids
/// 0 through n-1, each entry's id being its rank in scan order.
pub proof fn lemma_dense_indexing(prev: Seq<ProjectView>, scan: Seq<ProjectSourceView>)
    ensures
        spec_reconcile(prev, scan).len() == scan.len(),
        forall|i: int|
            0 <= i < scan.len() ==> (#[trigger] spec_reconcile(prev, scan)[i]).id == i as u32,
{
}

/// Dense indexing at the image level: a rebuilt image collection carries
/// exactly the positions 0 through n-1 in order, so it is sorted by
/// `position` as constructed.
pub proof fn lemma_dense_positions(es: Seq<DirEntryView>)
    ensures
        forall|i: int|
            0 <= i < spec_scan_images(es).len() ==> (#[trigger] spec_scan_images(es)[i]).position
                == i as u32,
{
}

} // verus!
