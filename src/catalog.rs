use crate::media::{is_media_file, is_media_path, is_under, is_under_root};
use crate::playlist::Playlist;
use crate::song::{Song, SongView};
use vstd::prelude::*;

verus! {

/// The mathematical value of one playlist's membership: its name and the
/// identifiers of its songs, in the order they were added.
pub struct PlaylistModel {
    pub name: Seq<char>,
    pub members: Seq<u16>,
}

/// The mathematical value of a [`Catalog`].
pub struct CatalogModel {
    /// The implicit library root, always watched.
    pub library_root: Seq<char>,
    /// The other watched roots.
    pub roots: Seq<Seq<char>>,
    /// The media entries, in the order they were created.
    pub songs: Seq<SongView>,
    pub playlists: Seq<PlaylistModel>,
    /// The identifier the next entry receives.
    pub next_id: u16,
}

/// The character sequences of a list of strings.
pub open spec fn texts(v: Seq<String>) -> Seq<Seq<char>> {
    v.map_values(|x: String| x@)
}

/// Which entries a purge removes: the one at a path, or all inside a directory.
pub open spec fn doomed(s: SongView, target: Seq<char>, inside: bool) -> bool {
    if inside {
        is_under(s.path, target)
    } else {
        s.path == target
    }
}

/// Holds of the entries that a purge keeps.
pub open spec fn spared(target: Seq<char>, inside: bool) -> spec_fn(SongView) -> bool {
    |s: SongView| !doomed(s, target, inside)
}

/// Holds of the identifiers not in `gone`.
pub open spec fn outside(gone: Set<u16>) -> spec_fn(u16) -> bool {
    |x: u16| !gone.contains(x)
}

/// Holds of the entries whose path `m` holds.
pub open spec fn held_paths(m: CatalogModel) -> spec_fn(SongView) -> bool {
    |s: SongView| m.has_path(s.path)
}

/// Holds of the identifiers that `m` holds.
pub open spec fn held_ids(m: CatalogModel) -> spec_fn(u16) -> bool {
    |x: u16| m.has_id(x)
}

impl CatalogModel {
    pub open spec fn has_path(self, p: Seq<char>) -> bool {
        exists|i: int| 0 <= i < self.songs.len() && self.songs[i].path == p
    }

    pub open spec fn has_id(self, id: u16) -> bool {
        exists|i: int| 0 <= i < self.songs.len() && self.songs[i].id == id
    }

    /// `p` is the library root or one of the other watched roots.
    pub open spec fn is_watched(self, p: Seq<char>) -> bool {
        p == self.library_root || self.roots.contains(p)
    }

    /// `p` may never be unregistered: it is the implicit library root.
    pub open spec fn is_protected(self, p: Seq<char>) -> bool {
        p == self.library_root
    }

    pub open spec fn playlist_index(self, name: Seq<char>) -> Option<int> {
        if exists|i: int| 0 <= i < self.playlists.len() && self.playlists[i].name == name {
            Some(choose|i: int| 0 <= i < self.playlists.len() && self.playlists[i].name == name)
        } else {
            None
        }
    }

    /// The entry whose identifier is `id`.
    pub open spec fn song_with_id(self, id: u16) -> SongView {
        self.songs[choose|i: int| 0 <= i < self.songs.len() && self.songs[i].id == id]
    }

    /// The entries that a list of identifiers refers to, in its order.
    pub open spec fn resolve(self, ids: Seq<u16>) -> Seq<SongView> {
        ids.map_values(|id: u16| self.song_with_id(id))
    }

    pub open spec fn wf(self) -> bool {
        &&& forall|i: int, j: int|
            0 <= i < j < self.songs.len() ==> self.songs[i].id < self.songs[j].id
        &&& forall|i: int| 0 <= i < self.songs.len() ==> self.songs[i].id < self.next_id
        &&& forall|i: int, j: int|
            0 <= i < self.songs.len() && 0 <= j < self.songs.len() && i != j
                ==> self.songs[i].path != self.songs[j].path
        &&& forall|i: int| 0 <= i < self.songs.len() ==> is_media_path(#[trigger] self.songs[i].path)
        &&& forall|i: int, j: int|
            0 <= i < self.playlists.len() && 0 <= j < self.playlists.len() && i != j
                ==> self.playlists[i].name != self.playlists[j].name
        &&& forall|i: int|
            0 <= i < self.playlists.len() ==> (#[trigger] self.playlists[i]).members.no_duplicates()
        &&& forall|i: int, x: u16|
            0 <= i < self.playlists.len() && #[trigger] self.playlists[i].members.contains(x)
                ==> self.has_id(x)
        &&& self.roots.no_duplicates()
        &&& !self.roots.contains(self.library_root)
    }

    /// The catalog with a new entry for `path`, titled `title`, appended.
    pub open spec fn inserted(self, path: Seq<char>, title: Seq<char>) -> CatalogModel {
        CatalogModel {
            songs: self.songs.push(SongView { id: self.next_id, title, path, count: 0 }),
            next_id: (self.next_id + 1) as u16,
            ..self
        }
    }

    /// The identifiers of the entries that a purge removes.
    pub open spec fn doomed_ids(self, target: Seq<char>, inside: bool) -> Set<u16> {
        Set::new(
            |x: u16|
                exists|i: int|
                    0 <= i < self.songs.len() && doomed(self.songs[i], target, inside)
                        && self.songs[i].id == x,
        )
    }

    /// The catalog without the entries that `target` and `inside` select,
    /// and without their identifiers in any playlist.
    pub open spec fn purged(self, target: Seq<char>, inside: bool) -> CatalogModel {
        let gone = self.doomed_ids(target, inside);
        CatalogModel {
            songs: self.songs.filter(spared(target, inside)),
            playlists: self.playlists.map_values(
                |pl: PlaylistModel|
                    PlaylistModel {
                        name: pl.name,
                        members: pl.members.filter(outside(gone)),
                    },
            ),
            ..self
        }
    }
}

proof fn lemma_filter_sorted(s: Seq<SongView>, pred: spec_fn(SongView) -> bool)
    requires
        forall|i: int, j: int| 0 <= i < j < s.len() ==> s[i].id < s[j].id,
    ensures
        forall|i: int, j: int|
            0 <= i < j < s.filter(pred).len() ==> s.filter(pred)[i].id < s.filter(pred)[j].id,
    decreases s.len(),
{
    reveal(Seq::filter);
    if s.len() > 0 {
        let d = s.drop_last();
        lemma_filter_sorted(d, pred);
        if pred(s.last()) {
            let f = d.filter(pred);
            assert forall|i: int| 0 <= i < f.len() implies f[i].id < s.last().id by {
                d.lemma_filter_contains_rev(pred, f[i]);
                let k = choose|k: int| 0 <= k < d.len() && d[k] == f[i];
                assert(s[k] == d[k]);
            }
        }
    }
}

proof fn lemma_filter_no_dup(s: Seq<u16>, pred: spec_fn(u16) -> bool)
    requires
        s.no_duplicates(),
    ensures
        s.filter(pred).no_duplicates(),
    decreases s.len(),
{
    reveal(Seq::filter);
    if s.len() > 0 {
        let d = s.drop_last();
        assert(d.no_duplicates()) by {
            assert forall|i: int, j: int| 0 <= i < d.len() && 0 <= j < d.len() && i != j implies d[i] != d[j] by {
                assert(d[i] == s[i] && d[j] == s[j]);
            }
        }
        lemma_filter_no_dup(d, pred);
        if pred(s.last()) {
            let f = d.filter(pred);
            if f.contains(s.last()) {
                d.lemma_filter_contains_rev(pred, s.last());
                let k = choose|k: int| 0 <= k < d.len() && d[k] == s.last();
                assert(s[k] == s[s.len() - 1]);
            }
            let g = f.push(s.last());
            assert forall|i: int, j: int| 0 <= i < g.len() && 0 <= j < g.len() && i != j implies g[i] != g[j] by {
                if i == g.len() - 1 {
                    assert(g[j] == f[j]);
                } else if j == g.len() - 1 {
                    assert(g[i] == f[i]);
                } else {
                    assert(g[i] == f[i] && g[j] == f[j]);
                }
            }
        }
    }
}

/// A purge keeps the catalog well formed.
pub proof fn lemma_purged_wf(m: CatalogModel, target: Seq<char>, inside: bool)
    requires
        m.wf(),
    ensures
        m.purged(target, inside).wf(),
{
    let pred = spared(target, inside);
    let r = m.purged(target, inside);
    let f = m.songs.filter(pred);
    assert(r.songs == f);
    lemma_filter_sorted(m.songs, pred);
    assert forall|i: int| 0 <= i < f.len() implies f[i].id < m.next_id && is_media_path(#[trigger] f[i].path) by {
        m.songs.lemma_filter_contains_rev(pred, f[i]);
    }
    assert forall|i: int, j: int| 0 <= i < f.len() && 0 <= j < f.len() && i != j implies f[i].path != f[j].path by {
        m.songs.lemma_filter_contains_rev(pred, f[i]);
        m.songs.lemma_filter_contains_rev(pred, f[j]);
        let a = choose|a: int| 0 <= a < m.songs.len() && m.songs[a] == f[i];
        let b = choose|b: int| 0 <= b < m.songs.len() && m.songs[b] == f[j];
        assert(f[i].id != f[j].id);
    }
    let gone = m.doomed_ids(target, inside);
    let keep = outside(gone);
    assert forall|i: int| 0 <= i < r.playlists.len() implies (#[trigger] r.playlists[i]).members.no_duplicates() by {
        assert(r.playlists[i].members == m.playlists[i].members.filter(keep));
        lemma_filter_no_dup(m.playlists[i].members, keep);
    }
    assert forall|i: int, x: u16| 0 <= i < r.playlists.len() && #[trigger] r.playlists[i].members.contains(x) implies r.has_id(x) by {
        assert(r.playlists[i].members == m.playlists[i].members.filter(keep));
        m.playlists[i].members.lemma_filter_contains_rev(keep, x);
        assert(m.has_id(x));
        let k = choose|k: int| 0 <= k < m.songs.len() && m.songs[k].id == x;
        let fi = choose|fi: int| 0 <= fi < m.playlists[i].members.filter(keep).len() && m.playlists[i].members.filter(keep)[fi] == x;
        m.playlists[i].members.lemma_filter_pred(keep, fi);
        assert(!doomed(m.songs[k], target, inside));
        m.songs.lemma_filter_contains(pred, k);
    }
    assert forall|i: int, j: int| 0 <= i < r.playlists.len() && 0 <= j < r.playlists.len() && i != j implies r.playlists[i].name != r.playlists[j].name by {
        assert(r.playlists[i].name == m.playlists[i].name);
        assert(r.playlists[j].name == m.playlists[j].name);
    }
}


/// Which paths and entries a purge leaves, and that their data is unchanged.
pub proof fn lemma_purged_songs(m: CatalogModel, target: Seq<char>, inside: bool)
    ensures
        forall|s: SongView| #[trigger] m.purged(target, inside).songs.contains(s)
            <==> m.songs.contains(s) && !doomed(s, target, inside),
        forall|q: Seq<char>| #[trigger] m.purged(target, inside).has_path(q)
            <==> exists|i: int| 0 <= i < m.songs.len() && m.songs[i].path == q && !doomed(m.songs[i], target, inside),
        m.purged(target, inside).next_id == m.next_id,
        m.purged(target, inside).roots == m.roots,
        m.purged(target, inside).library_root == m.library_root,
{
    let pred = spared(target, inside);
    let f = m.songs.filter(pred);
    assert forall|s: SongView| #[trigger] f.contains(s) <==> m.songs.contains(s) && !doomed(s, target, inside) by {
        if f.contains(s) {
            m.songs.lemma_filter_contains_rev(pred, s);
            let i = choose|i: int| 0 <= i < f.len() && f[i] == s;
            m.songs.lemma_filter_pred(pred, i);
        }
        if m.songs.contains(s) && !doomed(s, target, inside) {
            let i = choose|i: int| 0 <= i < m.songs.len() && m.songs[i] == s;
            m.songs.lemma_filter_contains(pred, i);
        }
    }
    assert forall|q: Seq<char>| #[trigger] m.purged(target, inside).has_path(q)
        <==> exists|i: int| 0 <= i < m.songs.len() && m.songs[i].path == q && !doomed(m.songs[i], target, inside) by {
        if m.purged(target, inside).has_path(q) {
            let k = choose|k: int| 0 <= k < f.len() && f[k].path == q;
            assert(f.contains(f[k]));
            let i = choose|i: int| 0 <= i < m.songs.len() && m.songs[i] == f[k];
            assert(0 <= i < m.songs.len() && m.songs[i].path == q && !doomed(m.songs[i], target, inside));
        }
        if exists|i: int| 0 <= i < m.songs.len() && m.songs[i].path == q && !doomed(m.songs[i], target, inside) {
            let i = choose|i: int| 0 <= i < m.songs.len() && m.songs[i].path == q && !doomed(m.songs[i], target, inside);
            assert(m.songs.contains(m.songs[i]));
            assert(f.contains(m.songs[i]));
            let k = choose|k: int| 0 <= k < f.len() && f[k] == m.songs[i];
            assert(m.purged(target, inside).songs[k].path == q);
        }
    }
}

/// A purge of a path the catalog does not hold changes nothing.
pub proof fn lemma_purge_absent(m: CatalogModel, p: Seq<char>)
    requires
        !m.has_path(p),
    ensures
        m.purged(p, false) == m,
{
    let pred = spared(p, false);
    lemma_filter_all(m.songs, pred);
    let gone = m.doomed_ids(p, false);
    assert(gone =~= Set::<u16>::empty());
    let keep = outside(gone);
    assert forall|i: int| 0 <= i < m.playlists.len() implies m.purged(p, false).playlists[i] == m.playlists[i] by {
        lemma_filter_all(m.playlists[i].members, keep);
    }
    assert(m.purged(p, false).playlists =~= m.playlists);
}

pub proof fn lemma_filter_all<A>(s: Seq<A>, pred: spec_fn(A) -> bool)
    requires
        forall|i: int| 0 <= i < s.len() ==> pred(s[i]),
    ensures
        s.filter(pred) == s,
    decreases s.len(),
{
    reveal(Seq::filter);
    if s.len() > 0 {
        lemma_filter_all(s.drop_last(), pred);
        assert(s.drop_last().push(s.last()) =~= s);
    }
}

/// The name of the playlist that holds every entry of the catalog.
pub open spec fn all_songs_name() -> Seq<char> {
    seq!['A', 'l', 'l', ' ', 'S', 'o', 'n', 'g', 's']
}

/// A membership list without `id`.
pub open spec fn without(ms: Seq<u16>, id: u16) -> Seq<u16> {
    ms.filter(other_than(id))
}

/// Holds of every identifier but `id`.
pub open spec fn other_than(id: u16) -> spec_fn(u16) -> bool {
    |x: u16| x != id
}

proof fn lemma_without(ms: Seq<u16>, id: u16)
    requires
        ms.no_duplicates(),
    ensures
        without(ms, id).no_duplicates(),
        forall|x: u16| #[trigger] without(ms, id).contains(x) ==> ms.contains(x),
{
    lemma_filter_no_dup(ms, other_than(id));
    assert forall|x: u16| #[trigger] without(ms, id).contains(x) implies ms.contains(x) by {
        ms.lemma_filter_contains_rev(other_than(id), x);
    }
}

/// Filtering by `p` and then by `q` is filtering by `r`, where `r` holds of an
/// element of `s` exactly when `p` and `q` both do.
pub proof fn lemma_filter_filter<A>(s: Seq<A>, p: spec_fn(A) -> bool, q: spec_fn(A) -> bool, r: spec_fn(A) -> bool)
    requires
        forall|i: int| 0 <= i < s.len() ==> (p(s[i]) && q(s[i])) == r(s[i]),
    ensures
        s.filter(p).filter(q) == s.filter(r),
    decreases s.len(),
{
    reveal(Seq::filter);
    if s.len() > 0 {
        let d = s.drop_last();
        assert forall|i: int| 0 <= i < d.len() implies (p(d[i]) && q(d[i])) == r(d[i]) by {
            assert(d[i] == s[i]);
        }
        lemma_filter_filter(d, p, q, r);
        assert((p(s.last()) && q(s.last())) == r(s.last()));
        if p(s.last()) {
            assert(s.filter(p).drop_last() =~= d.filter(p));
        }
    }
}

/// The identifiers a purge leaves are those it did not remove.
pub proof fn lemma_purged_ids(m: CatalogModel, target: Seq<char>, inside: bool)
    requires
        m.wf(),
    ensures
        forall|x: u16| #[trigger] m.purged(target, inside).has_id(x)
            == (m.has_id(x) && !m.doomed_ids(target, inside).contains(x)),
{
    lemma_purged_songs(m, target, inside);
    let r = m.purged(target, inside);
    assert forall|x: u16| #[trigger] r.has_id(x) == (m.has_id(x) && !m.doomed_ids(target, inside).contains(x)) by {
        if r.has_id(x) {
            let k = choose|k: int| 0 <= k < r.songs.len() && r.songs[k].id == x;
            assert(r.songs.contains(r.songs[k]));
            let a = choose|a: int| 0 <= a < m.songs.len() && m.songs[a] == r.songs[k];
            if m.doomed_ids(target, inside).contains(x) {
                let b = choose|b: int| 0 <= b < m.songs.len() && doomed(m.songs[b], target, inside) && m.songs[b].id == x;
                if a < b {
                } else if b < a {
                }
            }
        }
        if m.has_id(x) && !m.doomed_ids(target, inside).contains(x) {
            let a = choose|a: int| 0 <= a < m.songs.len() && m.songs[a].id == x;
            assert(!doomed(m.songs[a], target, inside));
            assert(m.songs.contains(m.songs[a]));
            assert(r.songs.contains(m.songs[a]));
        }
    }
}

/// What a catalog, directory or playlist operation can fail with.
#[derive(Debug, Clone, Copy, PartialEq, Eq, Structural)]
pub enum LibraryError {
    /// An entry with this path is already in the catalog.
    DuplicatePath,
    /// The path does not have a recognised media extension.
    UnsupportedPath,
    /// Every identifier has been handed out.
    IdsExhausted,
    /// The directory is already watched.
    AlreadyWatched,
    /// The directory could not be subscribed to (or unsubscribed from).
    SubscriptionFailed,
    /// The directory is the library root.
    ProtectedRoot,
    /// The directory is not watched.
    NotWatched,
    /// A playlist of this name already exists.
    PlaylistExists,
    /// No playlist has this name.
    NoSuchPlaylist,
    /// No catalog entry has this identifier.
    NoSuchSong,
    /// The song is already in the playlist.
    AlreadyInPlaylist,
    /// An entry put back must have an identifier above every one handed out.
    IdTaken,
}

struct PlaylistRecord {
    name: String,
    members: Vec<u16>,
}

impl PlaylistRecord {
    closed spec fn model(&self) -> PlaylistModel {
        PlaylistModel { name: self.name@, members: self.members@ }
    }
}

/// The catalog store: media entries, watched roots and playlist memberships.
pub struct Catalog {
    library_root: String,
    roots: Vec<String>,
    songs: Vec<Song>,
    playlists: Vec<PlaylistRecord>,
    next_id: u16,
}

impl View for Catalog {
    type V = CatalogModel;

    closed spec fn view(&self) -> CatalogModel {
        CatalogModel {
            library_root: self.library_root@,
            roots: self.roots@.map_values(|r: String| r@),
            songs: self.songs@.map_values(|s: Song| s@),
            playlists: self.playlists@.map_values(|p: PlaylistRecord| p.model()),
            next_id: self.next_id,
        }
    }
}

fn contains_id(v: &Vec<u16>, x: u16) -> (r: bool)
    ensures
        r == v@.contains(x),
{
    let mut i: usize = 0;
    while i < v.len()
        invariant
            i <= v@.len(),
            forall|j: int| 0 <= j < i ==> v@[j] != x,
        decreases v@.len() - i,
    {
        if v[i] == x {
            return true;
        }
        i = i + 1;
    }
    false
}

fn drop_id(members: &Vec<u16>, id: u16) -> (r: Vec<u16>)
    ensures
        r@ == without(members@, id),
{
    let mut r: Vec<u16> = Vec::new();
    let mut i: usize = 0;
    while i < members.len()
        invariant
            i <= members@.len(),
            r@ == without(members@.subrange(0, i as int), id),
        decreases members@.len() - i,
    {
        proof {
            reveal(Seq::filter);
            let ss = members@.subrange(0, i + 1);
            assert(ss.drop_last() =~= members@.subrange(0, i as int));
            assert(ss.last() == members@[i as int]);
            assert(without(ss, id) == if members@[i as int] != id {
                without(members@.subrange(0, i as int), id).push(members@[i as int])
            } else {
                without(members@.subrange(0, i as int), id)
            });
        }
        if members[i] != id {
            r.push(members[i]);
        }
        i = i + 1;
    }
    assert(members@.subrange(0, members@.len() as int) =~= members@);
    r
}

fn keep_members(members: &Vec<u16>, gone: &Vec<u16>, Ghost(gone_set): Ghost<Set<u16>>) -> (r: Vec<u16>)
    requires
        forall|x: u16| gone@.contains(x) == gone_set.contains(x),
    ensures
        r@ == members@.filter(outside(gone_set)),
{
    let ghost keep = outside(gone_set);
    let mut r: Vec<u16> = Vec::new();
    let mut i: usize = 0;
    while i < members.len()
        invariant
            i <= members@.len(),
            forall|x: u16| gone@.contains(x) == gone_set.contains(x),
            keep == (outside(gone_set)),
            r@ == members@.subrange(0, i as int).filter(keep),
        decreases members@.len() - i,
    {
        proof {
            reveal(Seq::filter);
            let ss = members@.subrange(0, i + 1);
            assert(ss.drop_last() =~= members@.subrange(0, i as int));
            assert(ss.last() == members@[i as int]);
            assert(ss.filter(keep) == if keep(members@[i as int]) {
                members@.subrange(0, i as int).filter(keep).push(members@[i as int])
            } else {
                members@.subrange(0, i as int).filter(keep)
            });
        }
        let x = members[i];
        let c = contains_id(gone, x);
        assert(c == gone_set.contains(x));
        if !c {
            r.push(x);
        }
        i = i + 1;
    }
    assert(members@.subrange(0, members@.len() as int) =~= members@);
    r
}

impl Catalog {
    /// An empty catalog whose library root is `library_root`.
    pub fn new(library_root: String) -> (r: Catalog)
        ensures
            r@.wf(),
            r@.library_root == library_root@,
            r@.next_id == 1,
            r@.roots.len() == 0,
            r@.songs.len() == 0,
            r@.playlists.len() == 0,
    {
        let r = Catalog { library_root, roots: Vec::new(), songs: Vec::new(), playlists: Vec::new(), next_id: 1 };
        assert(r@.roots =~= Seq::<Seq<char>>::empty());
        r
    }

    fn index_of_path(&self, path: &String) -> (r: Option<usize>)
        ensures
            match r {
                Some(i) => i < self@.songs.len() && self@.songs[i as int].path == path@,
                None => !self@.has_path(path@),
            },
    {
        let mut i: usize = 0;
        while i < self.songs.len()
            invariant
                i <= self.songs@.len(),
                forall|j: int| 0 <= j < i ==> self@.songs[j].path != path@,
            decreases self.songs@.len() - i,
        {
            assert(self@.songs[i as int] == self.songs@[i as int]@);
            if *self.songs[i].path_ref() == *path {
                return Some(i);
            }
            i = i + 1;
        }
        None
    }

    /// The entry at `path`, if the catalog holds one.
    pub fn find_entry_by_path(&self, path: &str) -> (r: Option<Song>)
        ensures
            match r {
                Some(s) => exists|i: int| 0 <= i < self@.songs.len() && self@.songs[i] == s@ && s@.path == path@,
                None => !self@.has_path(path@),
            },
    {
        let p = path.to_owned();
        match self.index_of_path(&p) {
            Some(i) => {
                assert(self@.songs[i as int] == self.songs@[i as int]@);
                Some(self.songs[i].duplicate())
            },
            None => None,
        }
    }

    /// Adds an entry for `path` titled `title`, with a fresh identifier and a
    /// play count of zero.
    pub fn insert_entry(&mut self, path: &str, title: &str) -> (r: Result<u16, LibraryError>)
        requires
            old(self)@.wf(),
        ensures
            final(self)@.wf(),
            old(self)@.has_path(path@) ==> r == Err::<u16, LibraryError>(LibraryError::DuplicatePath),
            !old(self)@.has_path(path@) && !is_media_path(path@) ==> r == Err::<u16, LibraryError>(LibraryError::UnsupportedPath),
            !old(self)@.has_path(path@) && is_media_path(path@) && old(self)@.next_id == u16::MAX
                ==> r == Err::<u16, LibraryError>(LibraryError::IdsExhausted),
            r is Err ==> final(self)@ == old(self)@,
            !old(self)@.has_path(path@) && is_media_path(path@) && old(self)@.next_id < u16::MAX
                ==> r == Ok::<u16, LibraryError>(old(self)@.next_id) && final(self)@ == old(self)@.inserted(path@, title@),
    {
        let p = path.to_owned();
        if self.index_of_path(&p).is_some() {
            return Err(LibraryError::DuplicatePath);
        }
        if !is_media_file(path) {
            return Err(LibraryError::UnsupportedPath);
        }
        if self.next_id == u16::MAX {
            return Err(LibraryError::IdsExhausted);
        }
        let id = self.next_id;
        let ghost before = self@;
        self.songs.push(Song::new(id, title.to_owned(), p, 0));
        self.next_id = id + 1;
        assert(self@.songs =~= before.songs.push(SongView { id, title: title@, path: path@, count: 0 }));
        assert(self@ == before.inserted(path@, title@));
        proof {
            let m = self@;
            assert forall|i: int, x: u16| 0 <= i < m.playlists.len() && #[trigger] m.playlists[i].members.contains(x) implies m.has_id(x) by {
                assert(before.has_id(x));
                let k = choose|k: int| 0 <= k < before.songs.len() && before.songs[k].id == x;
                assert(m.songs[k] == before.songs[k]);
            }
        }
        Ok(id)
    }

    /// The paths of the entries inside the directory `dir`.
    pub fn paths_under(&self, dir: &str) -> (r: Vec<String>)
        ensures
            forall|p: Seq<char>| #[trigger] texts(r@).contains(p)
                <==> self@.has_path(p) && is_under(p, dir@),
    {
        let ghost paths = self@.songs.map_values(|s: SongView| s.path);
        let ghost pu = |p: Seq<char>| is_under(p, dir@);
        let mut r: Vec<String> = Vec::new();
        let mut i: usize = 0;
        while i < self.songs.len()
            invariant
                i <= self.songs@.len(),
                paths == self@.songs.map_values(|s: SongView| s.path),
                pu == (|p: Seq<char>| is_under(p, dir@)),
                texts(r@) == paths.subrange(0, i as int).filter(pu),
            decreases self.songs@.len() - i,
        {
            let sp = self.songs[i].path_ref();
            assert(self@.songs[i as int] == self.songs@[i as int]@);
            assert(paths[i as int] == sp@);
            let ghost before = r@;
            proof {
                reveal(Seq::filter);
                let ss = paths.subrange(0, i + 1);
                assert(ss.drop_last() =~= paths.subrange(0, i as int));
                assert(ss.last() == paths[i as int]);
                assert(ss.filter(pu) == if pu(paths[i as int]) {
                    paths.subrange(0, i as int).filter(pu).push(paths[i as int])
                } else {
                    paths.subrange(0, i as int).filter(pu)
                });
            }
            if is_under_root(sp.as_str(), dir) {
                r.push(sp.clone());
                assert(texts(r@) =~= texts(before).push(sp@));
            }
            i = i + 1;
        }
        assert(paths.subrange(0, paths.len() as int) =~= paths);
        let ghost f = paths.filter(pu);
        assert forall|p: Seq<char>| #[trigger] f.contains(p) <==> self@.has_path(p) && is_under(p, dir@) by {
            if f.contains(p) {
                paths.lemma_filter_contains_rev(pu, p);
                let k = choose|k: int| 0 <= k < f.len() && f[k] == p;
                paths.lemma_filter_pred(pu, k);
                let j = choose|j: int| 0 <= j < paths.len() && paths[j] == p;
                assert(self@.songs[j].path == p);
            }
            if self@.has_path(p) && is_under(p, dir@) {
                let j = choose|j: int| 0 <= j < self@.songs.len() && self@.songs[j].path == p;
                assert(paths[j] == p);
                paths.lemma_filter_contains(pu, j);
            }
        }
        r
    }

    /// The watched roots: the library root first, then the others in the
    /// order they were added.
    pub fn list_roots(&self) -> (r: Vec<String>)
        ensures
            texts(r@) == seq![self@.library_root] + self@.roots,
    {
        let mut r: Vec<String> = Vec::new();
        r.push(self.library_root.clone());
        let mut i: usize = 0;
        while i < self.roots.len()
            invariant
                i <= self.roots@.len(),
                texts(r@) == seq![self@.library_root] + self@.roots.subrange(0, i as int),
            decreases self.roots@.len() - i,
        {
            let ghost before = r@;
            r.push(self.roots[i].clone());
            assert(texts(r@) =~= texts(before).push(self.roots@[i as int]@));
            assert(self@.roots.subrange(0, i + 1) =~= self@.roots.subrange(0, i as int).push(self.roots@[i as int]@));
            assert(seq![self@.library_root] + self@.roots.subrange(0, i + 1) =~= (seq![self@.library_root] + self@.roots.subrange(0, i as int)).push(self.roots@[i as int]@));
            i = i + 1;
        }
        assert(self@.roots.subrange(0, self.roots@.len() as int) =~= self@.roots);
        r
    }

    fn root_index(&self, path: &String) -> (r: Option<usize>)
        ensures
            match r {
                Some(i) => i < self@.roots.len() && self@.roots[i as int] == path@,
                None => !self@.roots.contains(path@),
            },
    {
        let mut i: usize = 0;
        while i < self.roots.len()
            invariant
                i <= self.roots@.len(),
                forall|j: int| 0 <= j < i ==> self@.roots[j] != path@,
            decreases self.roots@.len() - i,
        {
            assert(self@.roots[i as int] == self.roots@[i as int]@);
            if self.roots[i] == *path {
                return Some(i);
            }
            i = i + 1;
        }
        None
    }

    /// Whether `path` is watched: the library root or one of the other roots.
    pub fn is_watched(&self, path: &str) -> (r: bool)
        ensures
            r == self@.is_watched(path@),
    {
        let p = path.to_owned();
        p == self.library_root || self.root_index(&p).is_some()
    }

    /// Whether `path` may be registered: it fails when it is already watched.
    pub fn check_add(&self, path: &str) -> (r: Result<(), LibraryError>)
        ensures
            r == if self@.is_watched(path@) {
                Err::<(), LibraryError>(LibraryError::AlreadyWatched)
            } else {
                Ok::<(), LibraryError>(())
            },
    {
        if self.is_watched(path) {
            Err(LibraryError::AlreadyWatched)
        } else {
            Ok(())
        }
    }

    /// Whether `path` may be unregistered: never the library root, and only a
    /// watched directory.
    pub fn check_remove(&self, path: &str) -> (r: Result<(), LibraryError>)
        ensures
            r == if self@.is_protected(path@) {
                Err::<(), LibraryError>(LibraryError::ProtectedRoot)
            } else if !self@.roots.contains(path@) {
                Err::<(), LibraryError>(LibraryError::NotWatched)
            } else {
                Ok::<(), LibraryError>(())
            },
    {
        let p = path.to_owned();
        if p == self.library_root {
            return Err(LibraryError::ProtectedRoot);
        }
        if self.root_index(&p).is_none() {
            return Err(LibraryError::NotWatched);
        }
        Ok(())
    }

    pub(crate) fn add_root(&mut self, path: &str)
        requires
            old(self)@.wf(),
            !old(self)@.is_watched(path@),
        ensures
            final(self)@ == (CatalogModel { roots: old(self)@.roots.push(path@), ..old(self)@ }),
            final(self)@.wf(),
    {
        let ghost before = self@;
        self.roots.push(path.to_owned());
        assert(self@.roots =~= before.roots.push(path@));
        assert(self@.songs == before.songs && self@.playlists == before.playlists);
        assert(!self@.roots.contains(self@.library_root)) by {
            if self@.roots.contains(self@.library_root) {
                let a = choose|a: int| 0 <= a < self@.roots.len() && self@.roots[a] == self@.library_root;
                if a < before.roots.len() {
                    assert(before.roots[a] == self@.library_root);
                }
            }
        }
        assert(self@.roots.no_duplicates()) by {
            assert forall|i: int, j: int| 0 <= i < self@.roots.len() && 0 <= j < self@.roots.len() && i != j
                implies self@.roots[i] != self@.roots[j] by {
                if i == before.roots.len() {
                    assert(before.roots.contains(self@.roots[j]));
                } else if j == before.roots.len() {
                    assert(before.roots.contains(self@.roots[i]));
                }
            }
        }
    }

    pub(crate) fn remove_root(&mut self, path: &str) -> (r: usize)
        requires
            old(self)@.wf(),
            old(self)@.roots.contains(path@),
        ensures
            r < old(self)@.roots.len(),
            old(self)@.roots[r as int] == path@,
            final(self)@ == (CatalogModel { roots: old(self)@.roots.remove(r as int), ..old(self)@ }),
            final(self)@.wf(),
    {
        let ghost before = self@;
        let p = path.to_owned();
        match self.root_index(&p) {
            Some(i) => {
                self.roots.remove(i);
                assert(self@.roots =~= before.roots.remove(i as int));
                assert(self@.songs == before.songs && self@.playlists == before.playlists);
                assert(self@.roots.no_duplicates()) by {
                    assert forall|a: int, b: int| 0 <= a < self@.roots.len() && 0 <= b < self@.roots.len() && a != b
                        implies self@.roots[a] != self@.roots[b] by {
                        let a2 = if a < i { a } else { a + 1 };
                        let b2 = if b < i { b } else { b + 1 };
                        assert(self@.roots[a] == before.roots[a2]);
                        assert(self@.roots[b] == before.roots[b2]);
                    }
                }
                assert(!self@.roots.contains(self@.library_root)) by {
                    if self@.roots.contains(self@.library_root) {
                        let a = choose|a: int| 0 <= a < self@.roots.len() && self@.roots[a] == self@.library_root;
                        let a2 = if a < i { a } else { a + 1 };
                        assert(before.roots[a2] == self@.library_root);
                    }
                }
                i
            },
            None => {
                0
            },
        }
    }

    fn playlist_idx(&self, name: &String) -> (r: Option<usize>)
        requires
            self@.wf(),
        ensures
            match r {
                Some(i) => i < self@.playlists.len() && self@.playlists[i as int].name == name@
                    && self@.playlist_index(name@) == Some(i as int),
                None => self@.playlist_index(name@) is None,
            },
    {
        let mut i: usize = 0;
        while i < self.playlists.len()
            invariant
                i <= self.playlists@.len(),
                self@.wf(),
                forall|j: int| 0 <= j < i ==> self@.playlists[j].name != name@,
            decreases self.playlists@.len() - i,
        {
            assert(self@.playlists[i as int] == self.playlists@[i as int].model());
            if self.playlists[i].name == *name {
                assert(self@.playlists[i as int].name == name@);
                let ghost k = choose|k: int| 0 <= k < self@.playlists.len() && self@.playlists[k].name == name@;
                assert(k == i);
                return Some(i);
            }
            i = i + 1;
        }
        None
    }

    fn song_index_of_id(&self, id: u16) -> (r: usize)
        requires
            self@.wf(),
            self@.has_id(id),
        ensures
            r < self@.songs.len(),
            self@.songs[r as int] == self@.song_with_id(id),
    {
        let mut i: usize = 0;
        while i < self.songs.len()
            invariant
                i <= self.songs@.len(),
                self@.wf(),
                self@.has_id(id),
                forall|j: int| 0 <= j < i ==> self@.songs[j].id != id,
            decreases self.songs@.len() - i,
        {
            assert(self@.songs[i as int] == self.songs@[i as int]@);
            if self.songs[i].id() == id {
                let ghost k = choose|k: int| 0 <= k < self@.songs.len() && self@.songs[k].id == id;
                assert(k == i) by {
                    if k < i {
                    } else if k > i {
                    }
                }
                return i;
            }
            i = i + 1;
        }
        let ghost k = choose|k: int| 0 <= k < self@.songs.len() && self@.songs[k].id == id;
        assert(self@.songs[k].id != id);
        0
    }

    fn resolve_members(&self, members: &Vec<u16>) -> (r: Vec<Song>)
        requires
            self@.wf(),
            forall|x: u16| members@.contains(x) ==> self@.has_id(x),
        ensures
            r@.map_values(|s: Song| s@) == self@.resolve(members@),
    {
        let mut r: Vec<Song> = Vec::new();
        let mut i: usize = 0;
        while i < members.len()
            invariant
                i <= members@.len(),
                self@.wf(),
                forall|x: u16| members@.contains(x) ==> self@.has_id(x),
                r@.map_values(|s: Song| s@) == self@.resolve(members@.subrange(0, i as int)),
            decreases members@.len() - i,
        {
            assert(members@.contains(members@[i as int]));
            let k = self.song_index_of_id(members[i]);
            assert(self@.songs[k as int] == self.songs@[k as int]@);
            let ghost before = r@;
            r.push(self.songs[k].duplicate());
            assert(r@.map_values(|s: Song| s@) =~= before.map_values(|s: Song| s@).push(self@.song_with_id(members@[i as int])));
            assert(members@.subrange(0, i + 1) =~= members@.subrange(0, i as int).push(members@[i as int]));
            assert(self@.resolve(members@.subrange(0, i + 1)) =~= self@.resolve(members@.subrange(0, i as int)).push(self@.song_with_id(members@[i as int])));
            i = i + 1;
        }
        assert(members@.subrange(0, members@.len() as int) =~= members@);
        r
    }

    /// Every entry of the catalog, as the playlist "All Songs".
    pub fn get_all_songs(&self) -> (r: Playlist)
        ensures
            r.name_view() == all_songs_name(),
            r.songs_view() == self@.songs,
    {
        let mut v: Vec<Song> = Vec::new();
        let mut i: usize = 0;
        while i < self.songs.len()
            invariant
                i <= self.songs@.len(),
                v@.map_values(|s: Song| s@) == self@.songs.subrange(0, i as int),
            decreases self.songs@.len() - i,
        {
            let ghost before = v@;
            assert(self@.songs[i as int] == self.songs@[i as int]@);
            v.push(self.songs[i].duplicate());
            assert(v@.map_values(|s: Song| s@) =~= before.map_values(|s: Song| s@).push(self@.songs[i as int]));
            assert(v@.map_values(|s: Song| s@) =~= self@.songs.subrange(0, i + 1));
            i = i + 1;
        }
        assert(self@.songs.subrange(0, self.songs@.len() as int) =~= self@.songs);
        let name = "All Songs".to_owned();
        proof {
            reveal_strlit("All Songs");
            assert(name@ =~= all_songs_name());
        }
        Playlist::from(name, v)
    }

    /// The songs of the playlist `name`, in the order they were added.
    pub fn get_playlist(&self, name: &str) -> (r: Result<Playlist, LibraryError>)
        requires
            self@.wf(),
        ensures
            match self@.playlist_index(name@) {
                None => r == Err::<Playlist, LibraryError>(LibraryError::NoSuchPlaylist),
                Some(i) => r matches Ok(p) && p.name_view() == name@
                    && p.songs_view() == self@.resolve(self@.playlists[i].members),
            },
    {
        let n = name.to_owned();
        match self.playlist_idx(&n) {
            None => Err(LibraryError::NoSuchPlaylist),
            Some(i) => {
                let rec = &self.playlists[i];
                assert(self@.playlists[i as int] == rec.model());
                assert forall|x: u16| rec.members@.contains(x) implies self@.has_id(x) by {
                    assert(self@.playlists[i as int].members.contains(x));
                }
                let songs = self.resolve_members(&rec.members);
                Ok(Playlist::from(n, songs))
            },
        }
    }

    /// The playlist "All Songs" first, then every named playlist with its songs.
    pub fn get_all_playlists(&self) -> (r: Vec<Playlist>)
        requires
            self@.wf(),
        ensures
            r@.len() == self@.playlists.len() + 1,
            r@[0].name_view() == all_songs_name(),
            r@[0].songs_view() == self@.songs,
            forall|i: int| 0 <= i < self@.playlists.len() ==> (#[trigger] r@[i + 1]).name_view() == self@.playlists[i].name
                && r@[i + 1].songs_view() == self@.resolve(self@.playlists[i].members),
    {
        let mut r: Vec<Playlist> = Vec::new();
        r.push(self.get_all_songs());
        let mut i: usize = 0;
        while i < self.playlists.len()
            invariant
                i <= self.playlists@.len(),
                self@.wf(),
                r@.len() == i + 1,
                r@[0].name_view() == all_songs_name(),
                r@[0].songs_view() == self@.songs,
                forall|j: int| 0 <= j < i ==> (#[trigger] r@[j + 1]).name_view() == self@.playlists[j].name
                    && r@[j + 1].songs_view() == self@.resolve(self@.playlists[j].members),
            decreases self.playlists@.len() - i,
        {
            let rec = &self.playlists[i];
            assert(self@.playlists[i as int] == rec.model());
            assert forall|x: u16| rec.members@.contains(x) implies self@.has_id(x) by {
                assert(self@.playlists[i as int].members.contains(x));
            }
            let songs = self.resolve_members(&rec.members);
            r.push(Playlist::from(rec.name.clone(), songs));
            assert(r@[i + 1].name_view() == self@.playlists[i as int].name);
            i = i + 1;
        }
        r
    }

    /// Creates an empty playlist `name`; fails when one of that name exists.
    pub fn create_playlist(&mut self, name: &str) -> (r: Result<(), LibraryError>)
        requires
            old(self)@.wf(),
        ensures
            final(self)@.wf(),
            old(self)@.playlist_index(name@) is Some ==> r == Err::<(), LibraryError>(LibraryError::PlaylistExists)
                && final(self)@ == old(self)@,
            old(self)@.playlist_index(name@) is None ==> r is Ok && final(self)@ == (CatalogModel {
                playlists: old(self)@.playlists.push(PlaylistModel { name: name@, members: Seq::empty() }),
                ..old(self)@
            }),
    {
        let n = name.to_owned();
        if self.playlist_idx(&n).is_some() {
            return Err(LibraryError::PlaylistExists);
        }
        let ghost before = self@;
        self.playlists.push(PlaylistRecord { name: n, members: Vec::new() });
        assert(self@.playlists =~= before.playlists.push(PlaylistModel { name: name@, members: Seq::empty() }));
        proof {
            let m = self@;
            assert(m.songs == before.songs);
            assert forall|i: int, x: u16| 0 <= i < m.playlists.len() && #[trigger] m.playlists[i].members.contains(x) implies m.has_id(x) by {
                if i < before.playlists.len() {
                    assert(m.playlists[i] == before.playlists[i]);
                    assert(before.playlists[i].members.contains(x));
                    assert(before.has_id(x));
                } else {
                    assert(m.playlists[i].members =~= Seq::<u16>::empty());
                }
            }
            assert forall|i: int, j: int| 0 <= i < m.playlists.len() && 0 <= j < m.playlists.len() && i != j
                implies m.playlists[i].name != m.playlists[j].name by {
                if i < before.playlists.len() && j < before.playlists.len() {
                } else if i < before.playlists.len() {
                    assert(before.playlists[i].name != name@);
                } else {
                    assert(before.playlists[j].name != name@);
                }
            }
        }
        Ok(())
    }

    /// Deletes the playlist `name`; fails when there is none.
    pub fn delete_playlist(&mut self, name: &str) -> (r: Result<(), LibraryError>)
        requires
            old(self)@.wf(),
        ensures
            final(self)@.wf(),
            match old(self)@.playlist_index(name@) {
                None => r == Err::<(), LibraryError>(LibraryError::NoSuchPlaylist) && final(self)@ == old(self)@,
                Some(i) => r is Ok && final(self)@ == (CatalogModel {
                    playlists: old(self)@.playlists.remove(i),
                    ..old(self)@
                }),
            },
    {
        let n = name.to_owned();
        match self.playlist_idx(&n) {
            None => Err(LibraryError::NoSuchPlaylist),
            Some(i) => {
                let ghost before = self@;
                self.playlists.remove(i);
                assert(self@.playlists =~= before.playlists.remove(i as int));
                proof {
                    let m = self@;
                    assert(m.songs == before.songs);
                    assert forall|a: int| 0 <= a < m.playlists.len() implies m.playlists[a] == before.playlists[if a < i { a } else { a + 1 }] by {}
                    assert forall|a: int, x: u16| 0 <= a < m.playlists.len() && #[trigger] m.playlists[a].members.contains(x) implies m.has_id(x) by {
                        assert(before.playlists[if a < i { a } else { a + 1 }].members.contains(x));
                        assert(before.has_id(x));
                    }
                    assert forall|a: int| 0 <= a < m.playlists.len() implies (#[trigger] m.playlists[a]).members.no_duplicates() by {
                        assert(before.playlists[if a < i { a } else { a + 1 }].members.no_duplicates());
                    }
                    assert forall|a: int, b: int| 0 <= a < m.playlists.len() && 0 <= b < m.playlists.len() && a != b
                        implies m.playlists[a].name != m.playlists[b].name by {
                        let a2 = if a < i { a } else { a + 1 };
                        let b2 = if b < i { b } else { b + 1 };
                        assert(before.playlists[a2].name != before.playlists[b2].name);
                    }
                }
                Ok(())
            },
        }
    }

    fn has_id_exec(&self, id: u16) -> (r: bool)
        ensures
            r == self@.has_id(id),
    {
        let mut i: usize = 0;
        while i < self.songs.len()
            invariant
                i <= self.songs@.len(),
                forall|j: int| 0 <= j < i ==> self@.songs[j].id != id,
            decreases self.songs@.len() - i,
        {
            assert(self@.songs[i as int] == self.songs@[i as int]@);
            if self.songs[i].id() == id {
                return true;
            }
            i = i + 1;
        }
        false
    }

    /// Adds the entry `id` at the end of the playlist `playlist`.
    pub fn add_playlist_song(&mut self, playlist: &str, id: u16) -> (r: Result<(), LibraryError>)
        requires
            old(self)@.wf(),
        ensures
            final(self)@.wf(),
            r is Err ==> final(self)@ == old(self)@,
            match old(self)@.playlist_index(playlist@) {
                None => r == Err::<(), LibraryError>(LibraryError::NoSuchPlaylist),
                Some(i) => if !old(self)@.has_id(id) {
                    r == Err::<(), LibraryError>(LibraryError::NoSuchSong)
                } else if old(self)@.playlists[i].members.contains(id) {
                    r == Err::<(), LibraryError>(LibraryError::AlreadyInPlaylist)
                } else {
                    r is Ok && final(self)@ == (CatalogModel {
                        playlists: old(self)@.playlists.update(i, PlaylistModel {
                            name: old(self)@.playlists[i].name,
                            members: old(self)@.playlists[i].members.push(id),
                        }),
                        ..old(self)@
                    })
                },
            },
    {
        let n = playlist.to_owned();
        let i = match self.playlist_idx(&n) {
            None => {
                return Err(LibraryError::NoSuchPlaylist);
            },
            Some(i) => i,
        };
        if !self.has_id_exec(id) {
            return Err(LibraryError::NoSuchSong);
        }
        assert(self@.playlists[i as int] == self.playlists@[i as int].model());
        if contains_id(&self.playlists[i].members, id) {
            return Err(LibraryError::AlreadyInPlaylist);
        }
        let ghost before = self@;
        let mut rec = self.playlists.remove(i);
        rec.members.push(id);
        self.playlists.insert(i, rec);
        let ghost target = before.playlists.update(i as int, PlaylistModel {
            name: before.playlists[i as int].name,
            members: before.playlists[i as int].members.push(id),
        });
        assert(self@.playlists =~= target);
        proof {
            let m = self@;
            assert(m.songs == before.songs);
            assert forall|a: int, x: u16| 0 <= a < m.playlists.len() && #[trigger] m.playlists[a].members.contains(x) implies m.has_id(x) by {
                if a != i {
                    assert(before.playlists[a].members.contains(x));
                } else if x != id {
                    let k = choose|k: int| 0 <= k < m.playlists[a].members.len() && m.playlists[a].members[k] == x;
                    assert(before.playlists[a].members[k] == x);
                    assert(before.playlists[a].members.contains(x));
                }
            }
            assert forall|a: int| 0 <= a < m.playlists.len() implies (#[trigger] m.playlists[a]).members.no_duplicates() by {
                if a == i {
                    let ms = before.playlists[a].members;
                    assert(before.playlists[a].members.no_duplicates());
                    assert forall|p: int, q: int| 0 <= p < ms.len() + 1 && 0 <= q < ms.len() + 1 && p != q
                        implies ms.push(id)[p] != ms.push(id)[q] by {
                        if p == ms.len() {
                            assert(ms.contains(ms[q]));
                        } else if q == ms.len() {
                            assert(ms.contains(ms[p]));
                        }
                    }
                } else {
                    assert(before.playlists[a].members.no_duplicates());
                }
            }
            assert forall|a: int, b: int| 0 <= a < m.playlists.len() && 0 <= b < m.playlists.len() && a != b
                implies m.playlists[a].name != m.playlists[b].name by {
                assert(before.playlists[a].name != before.playlists[b].name);
            }
        }
        Ok(())
    }

    /// Removes the entry `id` from the playlist `playlist`; an entry that is not
    /// in it leaves it unchanged.
    pub fn remove_playlist_song(&mut self, playlist: &str, id: u16) -> (r: Result<(), LibraryError>)
        requires
            old(self)@.wf(),
        ensures
            final(self)@.wf(),
            match old(self)@.playlist_index(playlist@) {
                None => r == Err::<(), LibraryError>(LibraryError::NoSuchPlaylist) && final(self)@ == old(self)@,
                Some(i) => r is Ok && final(self)@ == (CatalogModel {
                    playlists: old(self)@.playlists.update(i, PlaylistModel {
                        name: old(self)@.playlists[i].name,
                        members: without(old(self)@.playlists[i].members, id),
                    }),
                    ..old(self)@
                }),
            },
    {
        let n = playlist.to_owned();
        let i = match self.playlist_idx(&n) {
            None => {
                return Err(LibraryError::NoSuchPlaylist);
            },
            Some(i) => i,
        };
        let ghost before = self@;
        assert(self@.playlists[i as int] == self.playlists@[i as int].model());
        let mut rec = self.playlists.remove(i);
        let kept = drop_id(&rec.members, id);
        rec.members = kept;
        self.playlists.insert(i, rec);
        let ghost ms = before.playlists[i as int].members;
        assert(self@.playlists =~= before.playlists.update(i as int, PlaylistModel {
            name: before.playlists[i as int].name,
            members: without(ms, id),
        }));
        proof {
            let m = self@;
            assert(m.songs == before.songs);
            assert(before.playlists[i as int].members.no_duplicates());
            lemma_without(ms, id);
            assert forall|a: int, x: u16| 0 <= a < m.playlists.len() && #[trigger] m.playlists[a].members.contains(x) implies m.has_id(x) by {
                if a != i {
                    assert(before.playlists[a].members.contains(x));
                } else {
                    assert(before.playlists[a].members.contains(x));
                }
            }
            assert forall|a: int| 0 <= a < m.playlists.len() implies (#[trigger] m.playlists[a]).members.no_duplicates() by {
                if a != i {
                    assert(before.playlists[a].members.no_duplicates());
                }
            }
            assert forall|a: int, b: int| 0 <= a < m.playlists.len() && 0 <= b < m.playlists.len() && a != b
                implies m.playlists[a].name != m.playlists[b].name by {
                assert(before.playlists[a].name != before.playlists[b].name);
            }
        }
        Ok(())
    }

    /// Puts back an entry saved earlier, with its own identifier, title and
    /// play count. Entries are put back in the order of their identifiers.
    pub fn restore_entry(&mut self, id: u16, title: &str, path: &str, count: u16) -> (r: Result<(), LibraryError>)
        requires
            old(self)@.wf(),
        ensures
            final(self)@.wf(),
            r is Err ==> final(self)@ == old(self)@,
            old(self)@.has_path(path@) ==> r == Err::<(), LibraryError>(LibraryError::DuplicatePath),
            !old(self)@.has_path(path@) && !is_media_path(path@) ==> r == Err::<(), LibraryError>(LibraryError::UnsupportedPath),
            !old(self)@.has_path(path@) && is_media_path(path@) && id < old(self)@.next_id
                ==> r == Err::<(), LibraryError>(LibraryError::IdTaken),
            !old(self)@.has_path(path@) && is_media_path(path@) && old(self)@.next_id <= id && id == u16::MAX
                ==> r == Err::<(), LibraryError>(LibraryError::IdsExhausted),
            !old(self)@.has_path(path@) && is_media_path(path@) && old(self)@.next_id <= id < u16::MAX
                ==> r is Ok && final(self)@ == (CatalogModel {
                    songs: old(self)@.songs.push(SongView { id, title: title@, path: path@, count }),
                    next_id: (id + 1) as u16,
                    ..old(self)@
                }),
    {
        let p = path.to_owned();
        if self.index_of_path(&p).is_some() {
            return Err(LibraryError::DuplicatePath);
        }
        if !is_media_file(path) {
            return Err(LibraryError::UnsupportedPath);
        }
        if id < self.next_id {
            return Err(LibraryError::IdTaken);
        }
        if id == u16::MAX {
            return Err(LibraryError::IdsExhausted);
        }
        let ghost before = self@;
        self.songs.push(Song::new(id, title.to_owned(), p, count));
        self.next_id = id + 1;
        assert(self@.songs =~= before.songs.push(SongView { id, title: title@, path: path@, count }));
        proof {
            let m = self@;
            assert forall|i: int, x: u16| 0 <= i < m.playlists.len() && #[trigger] m.playlists[i].members.contains(x) implies m.has_id(x) by {
                assert(before.has_id(x));
                let k = choose|k: int| 0 <= k < before.songs.len() && before.songs[k].id == x;
                assert(m.songs[k] == before.songs[k]);
            }
        }
        Ok(())
    }

    fn purge(&mut self, target: &str, inside: bool)
        requires
            old(self)@.wf(),
        ensures
            final(self)@ == old(self)@.purged(target@, inside),
            final(self)@.wf(),
    {
        let ghost m = self@;
        let ghost pred = spared(target@, inside);
        let t = target.to_owned();
        let mut old_songs: Vec<Song> = Vec::new();
        std::mem::swap(&mut self.songs, &mut old_songs);
        assert(old_songs@.map_values(|s: Song| s@) == m.songs);
        let mut gone: Vec<u16> = Vec::new();
        let mut i: usize = 0;
        while i < old_songs.len()
            invariant
                i <= old_songs@.len(),
                old_songs@.map_values(|s: Song| s@) == m.songs,
                m == old(self)@,
                t@ == target@,
                pred == (spared(target@, inside)),
                self.playlists == old(self).playlists,
                self.roots == old(self).roots,
                self.library_root == old(self).library_root,
                self.next_id == old(self).next_id,
                self.songs@.map_values(|s: Song| s@) == m.songs.subrange(0, i as int).filter(pred),
                forall|x: u16| gone@.contains(x) <==> exists|j: int| 0 <= j < i && doomed(m.songs[j], target@, inside) && m.songs[j].id == x,
            decreases old_songs@.len() - i,
        {
            let s = &old_songs[i];
            assert(m.songs[i as int] == s@);
            let sp = s.path_ref();
            let hit = if inside {
                let h = is_under_root(sp.as_str(), target);
                assert(h == is_under(sp@, target@));
                h
            } else {
                let h = *sp == t;
                assert(t@ == target@);
                assert(h == (sp@ == target@));
                h
            };
            assert(sp@ == m.songs[i as int].path);
            assert(hit == doomed(m.songs[i as int], target@, inside));
            let ghost kept_before = self.songs@;
            proof {
                reveal(Seq::filter);
                let ss = m.songs.subrange(0, i + 1);
                assert(ss.drop_last() =~= m.songs.subrange(0, i as int));
                assert(ss.last() == m.songs[i as int]);
                assert(ss.filter(pred) == if pred(m.songs[i as int]) {
                    m.songs.subrange(0, i as int).filter(pred).push(m.songs[i as int])
                } else {
                    m.songs.subrange(0, i as int).filter(pred)
                });
            }
            if hit {
                let ghost g0 = gone@;
                gone.push(s.id());
                assert forall|x: u16| gone@.contains(x) implies exists|j: int| 0 <= j < i + 1 && doomed(m.songs[j], target@, inside) && m.songs[j].id == x by {
                    let k = choose|k: int| 0 <= k < gone@.len() && gone@[k] == x;
                    if k == g0.len() {
                        assert(doomed(m.songs[i as int], target@, inside) && m.songs[i as int].id == x);
                    } else {
                        assert(g0[k] == x);
                        assert(g0.contains(x));
                        let j = choose|j: int| 0 <= j < i && doomed(m.songs[j], target@, inside) && m.songs[j].id == x;
                        assert(0 <= j < i + 1 && doomed(m.songs[j], target@, inside) && m.songs[j].id == x);
                    }
                }
                assert forall|x: u16| (exists|j: int| 0 <= j < i + 1 && doomed(m.songs[j], target@, inside) && m.songs[j].id == x) implies gone@.contains(x) by {
                    let j = choose|j: int| 0 <= j < i + 1 && doomed(m.songs[j], target@, inside) && m.songs[j].id == x;
                    if j == i {
                        assert(gone@[gone@.len() - 1] == x);
                    } else {
                        assert(exists|jj: int| 0 <= jj < i && doomed(m.songs[jj], target@, inside) && m.songs[jj].id == x);
                        assert(g0.contains(x));
                        let k = choose|k: int| 0 <= k < g0.len() && g0[k] == x;
                        assert(gone@[k] == x);
                    }
                }
            } else {
                self.songs.push(s.duplicate());
                assert(self.songs@.map_values(|s: Song| s@) =~= kept_before.map_values(|s: Song| s@).push(s@));
            }
            i = i + 1;
        }
        assert(m.songs.subrange(0, m.songs.len() as int) =~= m.songs);
        let ghost gone_set = m.doomed_ids(target@, inside);
        let mut old_pls: Vec<PlaylistRecord> = Vec::new();
        std::mem::swap(&mut self.playlists, &mut old_pls);
        let ghost keep = outside(gone_set);
        let ghost fmap = |pl: PlaylistModel| PlaylistModel { name: pl.name, members: pl.members.filter(keep) };
        assert(old_pls@.map_values(|p: PlaylistRecord| p.model()) == m.playlists);
        let mut k: usize = 0;
        while k < old_pls.len()
            invariant
                k <= old_pls@.len(),
                old_pls@.map_values(|p: PlaylistRecord| p.model()) == m.playlists,
                self.songs@.map_values(|s: Song| s@) == m.songs.filter(pred),
                self.roots == old(self).roots,
                self.library_root == old(self).library_root,
                self.next_id == old(self).next_id,
                forall|x: u16| gone@.contains(x) == gone_set.contains(x),
                m == old(self)@,
                pred == (spared(target@, inside)),
                keep == (outside(gone_set)),
                fmap == (|pl: PlaylistModel| PlaylistModel { name: pl.name, members: pl.members.filter(keep) }),
                gone_set == m.doomed_ids(target@, inside),
                self.playlists@.map_values(|p: PlaylistRecord| p.model()) == m.playlists.subrange(0, k as int).map_values(fmap),
            decreases old_pls@.len() - k,
        {
            let rec = &old_pls[k];
            assert(m.playlists[k as int] == rec.model());
            let members = keep_members(&rec.members, &gone, Ghost(gone_set));
            let ghost before = self.playlists@;
            let rec2 = PlaylistRecord { name: rec.name.clone(), members };
            assert(rec2.model().members == m.playlists[k as int].members.filter(keep));
            assert(rec2.model().name == m.playlists[k as int].name);
            assert(rec2.model() == fmap(m.playlists[k as int]));
            self.playlists.push(rec2);
            assert(m.playlists.subrange(0, k + 1).map_values(fmap) =~= m.playlists.subrange(0, k as int).map_values(fmap).push(fmap(m.playlists[k as int])));
            assert(self.playlists@.map_values(|p: PlaylistRecord| p.model()) =~= before.map_values(|p: PlaylistRecord| p.model()).push(rec2.model()));
            assert(self.playlists@.map_values(|p: PlaylistRecord| p.model()) =~= m.playlists.subrange(0, k + 1).map_values(fmap));
            k = k + 1;
        }
        assert(m.playlists.subrange(0, m.playlists.len() as int) =~= m.playlists);
        assert(self@.playlists =~= m.purged(target@, inside).playlists);
        assert(self@ == m.purged(target@, inside));
        proof {
            lemma_purged_wf(m, target@, inside);
        }
    }

    /// Removes the entry at `path`, and its identifier from every playlist; a
    /// path the catalog does not hold leaves it unchanged.
    pub fn delete_entry_by_path(&mut self, path: &str)
        requires
            old(self)@.wf(),
        ensures
            final(self)@ == old(self)@.purged(path@, false),
            final(self)@.wf(),
    {
        self.purge(path, false);
    }

    /// Removes every entry inside the directory `dir`, and their identifiers
    /// from every playlist.
    pub fn delete_entries_under(&mut self, dir: &str)
        requires
            old(self)@.wf(),
        ensures
            final(self)@ == old(self)@.purged(dir@, true),
            final(self)@.wf(),
    {
        self.purge(dir, true);
    }
}

} // verus!
