use vstd::prelude::*;

verus! {

/// The mathematical value of a [`Song`]: one row of the catalog.
pub struct SongView {
    pub id: u16,
    pub title: Seq<char>,
    pub path: Seq<char>,
    pub count: u16,
}

/// One media entry of the catalog: its identifier, its title (the file name
/// without its extension), its absolute path and its play count.
#[derive(Debug, Clone)]
pub struct Song {
    id: u16,
    title: String,
    path: String,
    count: u16,
}

impl View for Song {
    type V = SongView;

    closed spec fn view(&self) -> SongView {
        SongView { id: self.id, title: self.title@, path: self.path@, count: self.count }
    }
}

impl Song {
    pub fn new(id: u16, title: String, path: String, count: u16) -> (r: Self)
        ensures
            r@ == (SongView { id, title: title@, path: path@, count }),
    {
        Self { id, title, path, count }
    }

    pub fn id(&self) -> (r: u16)
        ensures
            r == self@.id,
    {
        self.id
    }

    pub fn title(&self) -> (r: String)
        ensures
            r@ == self@.title,
    {
        self.title.clone()
    }

    pub fn path(&self) -> (r: String)
        ensures
            r@ == self@.path,
    {
        self.path.clone()
    }

    pub fn count(&self) -> (r: u16)
        ensures
            r == self@.count,
    {
        self.count
    }

    pub(crate) fn path_ref(&self) -> (r: &String)
        ensures
            r@ == self@.path,
    {
        &self.path
    }

    /// A second song with the same identifier, title, path and count.
    pub fn duplicate(&self) -> (r: Song)
        ensures
            r@ == self@,
    {
        Song { id: self.id, title: self.title.clone(), path: self.path.clone(), count: self.count }
    }
}

/// Two songs are the same song when their identifiers agree.
impl PartialEq for Song {
    fn eq(&self, other: &Song) -> (r: bool) {
        self.id == other.id
    }
}

impl vstd::std_specs::cmp::PartialEqSpecImpl for Song {
    open spec fn obeys_eq_spec() -> bool {
        true
    }

    open spec fn eq_spec(&self, other: &Song) -> bool {
        self@.id == other@.id
    }
}

} // verus!
