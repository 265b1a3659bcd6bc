//! The entity graph: projects, images, fonts, the site model and the
//! top-level application state, together with the mathematical view of each
//! type. Paths are held as plain strings; a path is the durable identity of
//! an entry across reconciliation passes, while `id` / `position` are
//! transient scan-order ranks.

use vstd::prelude::*;

verus! {

/// Structured metadata of one portfolio entry, loaded from its metadata
/// document and edited in memory until an export pass flushes it.
pub struct Meta {
    pub title: String,
}

/// Mathematical view of [`Meta`].
pub struct MetaView {
    pub title: Seq<char>,
}

impl View for Meta {
    type V = MetaView;

    open spec fn view(&self) -> MetaView {
        MetaView { title: self.title@ }
    }
}

impl Meta {
    /// The metadata a fresh or unparsable entry falls back to.
    pub open spec fn default_view() -> MetaView {
        MetaView { title: Seq::<char>::empty() }
    }
}

impl Default for Meta {
    fn default() -> (r: Meta)
        ensures
            r@ == Meta::default_view(),
    {
        Meta { title: String::new() }
    }
}

/// One picture belonging to a project. `position` is its rank in the scan
/// that produced it; `path` is the backing file.
pub struct Image {
    pub position: u32,
    pub path: String,
}

/// Mathematical view of [`Image`].
pub struct ImageView {
    pub position: u32,
    pub path: Seq<char>,
}

impl View for Image {
    type V = ImageView;

    open spec fn view(&self) -> ImageView {
        ImageView { position: self.position, path: self.path@ }
    }
}

/// Optional bold/normal font file references, resolved by filename.
pub struct Fonts {
    pub bold: Option<String>,
    pub normal: Option<String>,
}

/// Mathematical view of [`Fonts`].
pub struct FontsView {
    pub bold: Option<Seq<char>>,
    pub normal: Option<Seq<char>>,
}

/// The view of an optional string.
pub open spec fn opt_str_view(s: Option<String>) -> Option<Seq<char>> {
    match s {
        Some(v) => Some(v@),
        None => None,
    }
}

impl View for Fonts {
    type V = FontsView;

    open spec fn view(&self) -> FontsView {
        FontsView { bold: opt_str_view(self.bold), normal: opt_str_view(self.normal) }
    }
}

impl Fonts {
    /// The font set before any font file has been resolved.
    pub open spec fn default_view() -> FontsView {
        FontsView { bold: None, normal: None }
    }
}

impl Default for Fonts {
    fn default() -> (r: Fonts)
        ensures
            r@ == Fonts::default_view(),
    {
        Fonts { bold: None, normal: None }
    }
}

/// The accent color of the site: red, green, blue and alpha channels, each
/// held as an eight-bit value.
#[derive(Clone, Copy, PartialEq, Eq, Structural)]
pub struct Color {
    pub red: u8,
    pub green: u8,
    pub blue: u8,
    pub alpha: u8,
}

impl View for Color {
    type V = Color;

    open spec fn view(&self) -> Color {
        *self
    }
}

impl Default for Color {
    fn default() -> (r: Color)
        ensures
            r == (Color { red: 0, green: 0, blue: 0, alpha: 0 }),
    {
        Color { red: 0, green: 0, blue: 0, alpha: 0 }
    }
}

/// One portfolio entry. `path` is the durable key used to match the entry
/// across reconciliation passes; `id` is re-assigned on every pass as the
/// entry's rank in scan order.
pub struct Project {
    pub id: u32,
    pub path: String,
    pub meta: Meta,
    pub description: String,
    pub images: Vec<Image>,
}

/// Mathematical view of [`Project`].
pub struct ProjectView {
    pub id: u32,
    pub path: Seq<char>,
    pub meta: MetaView,
    pub description: Seq<char>,
    pub images: Seq<ImageView>,
}

/// The views of a sequence of images.
pub open spec fn image_views(v: Seq<Image>) -> Seq<ImageView> {
    v.map_values(|i: Image| i@)
}

impl View for Project {
    type V = ProjectView;

    open spec fn view(&self) -> ProjectView {
        ProjectView {
            id: self.id,
            path: self.path@,
            meta: self.meta@,
            description: self.description@,
            images: image_views(self.images@),
        }
    }
}

impl Project {
    /// The entry a scanned path with no prior match starts from.
    pub open spec fn default_view() -> ProjectView {
        ProjectView {
            id: 0,
            path: Seq::<char>::empty(),
            meta: Meta::default_view(),
            description: Seq::<char>::empty(),
            images: Seq::<ImageView>::empty(),
        }
    }
}

impl Default for Project {
    fn default() -> (r: Project)
        ensures
            r@ == Project::default_view(),
    {
        let p = Project {
            id: 0,
            path: String::new(),
            meta: Meta::default(),
            description: String::new(),
            images: Vec::new(),
        };
        assert(image_views(p.images@) =~= Seq::<ImageView>::empty());
        p
    }
}

/// The views of a sequence of projects.
pub open spec fn project_views(v: Seq<Project>) -> Seq<ProjectView> {
    v.map_values(|p: Project| p@)
}

/// The site model: title, about text, hero image path, fonts, accent color
/// and the ordered portfolio.
pub struct Website {
    pub title: String,
    pub portfolio: Vec<Project>,
    pub about: String,
    pub image: String,
    pub fonts: Fonts,
    pub accent_color: Color,
}

/// Mathematical view of [`Website`].
pub struct WebsiteView {
    pub title: Seq<char>,
    pub portfolio: Seq<ProjectView>,
    pub about: Seq<char>,
    pub image: Seq<char>,
    pub fonts: FontsView,
    pub accent_color: Color,
}

impl View for Website {
    type V = WebsiteView;

    open spec fn view(&self) -> WebsiteView {
        WebsiteView {
            title: self.title@,
            portfolio: project_views(self.portfolio@),
            about: self.about@,
            image: self.image@,
            fonts: self.fonts@,
            accent_color: self.accent_color,
        }
    }
}

impl Website {
    /// The site model a fresh session starts from.
    pub open spec fn default_view() -> WebsiteView {
        WebsiteView {
            title: Seq::<char>::empty(),
            portfolio: Seq::<ProjectView>::empty(),
            about: Seq::<char>::empty(),
            image: Seq::<char>::empty(),
            fonts: Fonts::default_view(),
            accent_color: Color { red: 0, green: 0, blue: 0, alpha: 0 },
        }
    }

    /// A site model with the given title and every other field defaulted.
    pub fn new(title: &String) -> (r: Website)
        ensures
            r@ == (WebsiteView { title: title@, ..Website::default_view() }),
    {
        let mut r = Website::default();
        r.title = title.clone();
        r
    }

    /// Replaces the site title, leaving everything else untouched.
    pub fn update_title(&mut self, title: String)
        ensures
            final(self)@ == (WebsiteView { title: title@, ..old(self)@ }),
    {
        self.title = title;
    }
}

impl Default for Website {
    fn default() -> (r: Website)
        ensures
            r@ == Website::default_view(),
    {
        let w = Website {
            title: String::new(),
            portfolio: Vec::new(),
            about: String::new(),
            image: String::new(),
            fonts: Fonts::default(),
            accent_color: Color::default(),
        };
        assert(project_views(w.portfolio@) =~= Seq::<ProjectView>::empty());
        w
    }
}

/// The top-level application state: the site model plus the resolved source
/// directory. This is the unit the session cache persists wholesale.
pub struct AppState {
    pub source: String,
    pub website: Website,
}

/// Mathematical view of [`AppState`].
pub struct AppStateView {
    pub source: Seq<char>,
    pub website: WebsiteView,
}

impl View for AppState {
    type V = AppStateView;

    open spec fn view(&self) -> AppStateView {
        AppStateView { source: self.source@, website: self.website@ }
    }
}

impl AppState {
    /// The state a session starts from when no cache is available.
    pub open spec fn default_view() -> AppStateView {
        AppStateView { source: Seq::<char>::empty(), website: Website::default_view() }
    }
}

impl Default for AppState {
    fn default() -> (r: AppState)
        ensures
            r@ == AppState::default_view(),
    {
        AppState { source: String::new(), website: Website::default() }
    }
}

/// One immediate child of a scanned directory, as the scanner reports it.
pub struct DirEntry {
    pub name: String,
    pub path: String,
    pub is_file: bool,
}

/// Mathematical view of [`DirEntry`].
pub struct DirEntryView {
    pub name: Seq<char>,
    pub path: Seq<char>,
    pub is_file: bool,
}

impl View for DirEntry {
    type V = DirEntryView;

    open spec fn view(&self) -> DirEntryView {
        DirEntryView { name: self.name@, path: self.path@, is_file: self.is_file }
    }
}

/// The views of a sequence of directory entries.
pub open spec fn dir_entry_views(v: Seq<DirEntry>) -> Seq<DirEntryView> {
    v.map_values(|e: DirEntry| e@)
}

} // verus!
