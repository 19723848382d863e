use crate::catalog::{
    held_ids, held_paths, lemma_filter_all, lemma_filter_filter, lemma_purged_ids, lemma_purged_songs,
    outside, spared, texts, Catalog, CatalogModel, LibraryError,
};
use crate::media::{
    file_name, is_media_file, is_media_path, is_under, is_under_root, lemma_last_index_of, stem,
    title_from_filename,
};
use crate::catalog::PlaylistModel;
use crate::song::SongView;
use vstd::prelude::*;

verus! {

/// The kind of a filesystem change notification.
#[derive(Debug, Clone, Copy, PartialEq, Eq, Structural)]
pub enum EventKind {
    Create,
    Remove,
    /// The old half of a rename.
    RenameFrom,
    /// The new half of a rename.
    RenameTo,
    /// Anything else: a metadata change, an access.
    Other,
}

/// One filesystem change notification for one path. `is_dir` tells whether
/// the path named a directory when the event was observed.
pub struct FsEvent {
    pub kind: EventKind,
    pub path: String,
    pub is_dir: bool,
}

/// The mathematical value of an [`FsEvent`].
pub struct EventModel {
    pub kind: EventKind,
    pub path: Seq<char>,
    pub is_dir: bool,
}

impl View for FsEvent {
    type V = EventModel;

    open spec fn view(&self) -> EventModel {
        EventModel { kind: self.kind, path: self.path@, is_dir: self.is_dir }
    }
}

/// What an event does to the catalog.
#[derive(Debug, Clone, Copy, PartialEq, Eq, Structural)]
pub enum Action {
    /// Make sure an entry for the path exists.
    Insert,
    /// Make sure no entry for the path exists.
    Delete,
    Ignore,
}

/// A create (or the new half of a rename) of a media file inserts it; a
/// remove (or the old half of a rename) deletes; everything else is ignored.
pub open spec fn action_of(e: EventModel) -> Action {
    match e.kind {
        EventKind::Create | EventKind::RenameTo => if e.is_dir || !is_media_path(e.path) {
            Action::Ignore
        } else {
            Action::Insert
        },
        EventKind::Remove | EventKind::RenameFrom => Action::Delete,
        EventKind::Other => Action::Ignore,
    }
}

/// The catalog with an entry for the media file `p`, titled by its stem: the
/// catalog itself when it holds one already, when `p` is no media file, or
/// when identifiers ran out.
pub open spec fn ensured(m: CatalogModel, p: Seq<char>) -> CatalogModel {
    if m.has_path(p) || !is_media_path(p) || m.next_id == u16::MAX {
        m
    } else {
        m.inserted(p, stem(p))
    }
}

/// The catalog after one event.
pub open spec fn applied(m: CatalogModel, e: EventModel) -> CatalogModel {
    match action_of(e) {
        Action::Insert => ensured(m, e.path),
        Action::Delete => m.purged(e.path, false),
        Action::Ignore => m,
    }
}

/// The catalog after a sequence of events, applied in order.
pub open spec fn replayed(m: CatalogModel, es: Seq<EventModel>) -> CatalogModel
    decreases es.len(),
{
    if es.len() == 0 {
        m
    } else {
        applied(replayed(m, es.drop_last()), es.last())
    }
}

/// The entries of `old` whose paths `new` still holds, in their order.
pub open spec fn survivors(old: CatalogModel, new: CatalogModel) -> Seq<SongView> {
    old.songs.filter(held_paths(new))
}

/// `s` is the `k`-th entry created after `old`: a file `old` did not hold,
/// titled by its stem, with a play count of zero and the `k`-th identifier
/// from `old`'s next one.
pub open spec fn fresh_entry(old: CatalogModel, s: SongView, k: int) -> bool {
    &&& s.id == old.next_id + k
    &&& s.title == stem(s.path)
    &&& s.count == 0
    &&& !old.has_path(s.path)
}

/// `p` is a media file inside `root` that a scan of `root` reported.
pub open spec fn scanned(on_disk: Seq<Seq<char>>, root: Seq<char>, p: Seq<char>) -> bool {
    on_disk.contains(p) && is_media_path(p) && is_under(p, root)
}

pub proof fn lemma_media_stem(p: Seq<char>)
    requires
        is_media_path(p),
    ensures
        stem(p).len() > 0,
{
    lemma_last_index_of(file_name(p), '.');
}

/// Inserting keeps the catalog well formed and adds exactly the new path.
pub proof fn lemma_inserted(m: CatalogModel, p: Seq<char>, t: Seq<char>)
    requires
        m.wf(),
        !m.has_path(p),
        is_media_path(p),
        m.next_id < u16::MAX,
    ensures
        m.inserted(p, t).wf(),
        forall|q: Seq<char>| #[trigger] m.inserted(p, t).has_path(q) <==> m.has_path(q) || q == p,
{
    let r = m.inserted(p, t);
    assert forall|q: Seq<char>| #[trigger] r.has_path(q) <==> m.has_path(q) || q == p by {
        if m.has_path(q) {
            let k = choose|k: int| 0 <= k < m.songs.len() && m.songs[k].path == q;
            assert(r.songs[k] == m.songs[k]);
        }
        if q == p {
            assert(r.songs[m.songs.len() as int].path == p);
        }
        if r.has_path(q) && q != p {
            let k = choose|k: int| 0 <= k < r.songs.len() && r.songs[k].path == q;
            assert(m.songs[k] == r.songs[k]);
        }
    }
    assert forall|i: int, x: u16| 0 <= i < r.playlists.len() && #[trigger] r.playlists[i].members.contains(x) implies r.has_id(x) by {
        let k = choose|k: int| 0 <= k < m.songs.len() && m.songs[k].id == x;
        assert(r.songs[k] == m.songs[k]);
    }
}

/// Whether `p` occurs in `v`.
fn contains_path(v: &Vec<String>, p: &str) -> (r: bool)
    ensures
        r == texts(v@).contains(p@),
{
    let q = p.to_owned();
    let mut i: usize = 0;
    while i < v.len()
        invariant
            i <= v@.len(),
            q@ == p@,
            forall|j: int| 0 <= j < i ==> v@[j]@ != p@,
        decreases v@.len() - i,
    {
        if v[i] == q {
            assert(texts(v@)[i as int] == p@);
            return true;
        }
        i = i + 1;
    }
    assert forall|j: int| 0 <= j < v@.len() implies #[trigger] texts(v@)[j] != p@ by {
        assert(texts(v@)[j] == v@[j]@);
    }
    false
}

/// What `e` does to the catalog.
pub fn classify_event(e: &FsEvent) -> (r: Action)
    ensures
        r == action_of(e@),
{
    match e.kind {
        EventKind::Create | EventKind::RenameTo => {
            if e.is_dir || !is_media_file(e.path.as_str()) {
                Action::Ignore
            } else {
                Action::Insert
            }
        },
        EventKind::Remove | EventKind::RenameFrom => Action::Delete,
        EventKind::Other => Action::Ignore,
    }
}

/// Makes sure the catalog holds an entry for the media file `path`, titled by
/// the file name without its extension. A path already held, or one that is
/// no media file, leaves the catalog as it is.
pub fn add_song(c: &mut Catalog, path: &str)
    requires
        old(c)@.wf(),
    ensures
        final(c)@ == ensured(old(c)@, path@),
        final(c)@.wf(),
{
    match title_from_filename(path) {
        Ok(t) => {
            let _ = c.insert_entry(path, t.as_str());
        },
        Err(_) => {
            proof {
                if is_media_path(path@) {
                    lemma_media_stem(path@);
                }
            }
        },
    }
}

/// Makes sure the catalog holds no entry for `path`; its identifier leaves
/// every playlist. A path not held leaves the catalog as it is.
pub fn remove_song(c: &mut Catalog, path: &str)
    requires
        old(c)@.wf(),
    ensures
        final(c)@ == old(c)@.purged(path@, false),
        final(c)@.wf(),
{
    c.delete_entry_by_path(path);
}

/// Applies one filesystem change notification to the catalog.
pub fn handle_event(c: &mut Catalog, e: &FsEvent)
    requires
        old(c)@.wf(),
    ensures
        final(c)@ == applied(old(c)@, e@),
        final(c)@.wf(),
{
    match classify_event(e) {
        Action::Insert => add_song(c, e.path.as_str()),
        Action::Delete => remove_song(c, e.path.as_str()),
        Action::Ignore => {},
    }
}

/// Brings the catalog's entries inside `root` in line with a scan of `root`:
/// `on_disk` lists the regular files that the scan found. Each media file
/// inside `root` that the catalog lacks is inserted, titled by its stem; each
/// entry inside `root` that the scan did not report is deleted, and its
/// identifier leaves every playlist. Entries elsewhere are left alone.
#[verifier::rlimit(100)]
#[verifier::spinoff_prover]
pub fn reconcile(c: &mut Catalog, root: &str, on_disk: &Vec<String>)
    requires
        old(c)@.wf(),
    ensures
        final(c)@.wf(),
        final(c)@.library_root == old(c)@.library_root,
        final(c)@.roots == old(c)@.roots,
        final(c)@.next_id >= old(c)@.next_id,
        forall|p: Seq<char>| is_under(p, root@) && #[trigger] final(c)@.has_path(p)
            ==> scanned(texts(on_disk@), root@, p),
        forall|p: Seq<char>| #[trigger] scanned(texts(on_disk@), root@, p)
            && (old(c)@.has_path(p) || final(c)@.next_id < u16::MAX) ==> final(c)@.has_path(p),
        forall|p: Seq<char>| !is_under(p, root@) ==> (#[trigger] final(c)@.has_path(p) == old(c)@.has_path(p)),
        forall|s: SongView| #[trigger] old(c)@.songs.contains(s) && final(c)@.has_path(s.path)
            ==> final(c)@.songs.contains(s),
        forall|s: SongView| #[trigger] final(c)@.songs.contains(s) && !old(c)@.has_path(s.path)
            ==> s.title == stem(s.path) && s.count == 0,
        forall|s: SongView| #[trigger] final(c)@.songs.contains(s) && !old(c)@.has_path(s.path)
            ==> s.id >= old(c)@.next_id,
        final(c)@.next_id <= old(c)@.next_id + on_disk@.len(),
        forall|p: Seq<char>| #[trigger] scanned(texts(on_disk@), root@, p)
            && old(c)@.next_id + on_disk@.len() < u16::MAX ==> final(c)@.has_path(p),
        final(c)@.songs.subrange(0, survivors(old(c)@, final(c)@).len() as int) == survivors(old(c)@, final(c)@),
        final(c)@.next_id == old(c)@.next_id + final(c)@.songs.len() - survivors(old(c)@, final(c)@).len(),
        forall|j: int| survivors(old(c)@, final(c)@).len() <= j < final(c)@.songs.len()
            ==> fresh_entry(old(c)@, #[trigger] final(c)@.songs[j], j - survivors(old(c)@, final(c)@).len())
                && scanned(texts(on_disk@), root@, final(c)@.songs[j].path),
        final(c)@.playlists.len() == old(c)@.playlists.len(),
        forall|i: int| 0 <= i < old(c)@.playlists.len() ==> #[trigger] final(c)@.playlists[i] == (PlaylistModel {
            name: old(c)@.playlists[i].name,
            members: old(c)@.playlists[i].members.filter(held_ids(final(c)@)),
        }),
{
    let ghost m0 = c@;
    let ghost disk = texts(on_disk@);
    let mut i: usize = 0;
    while i < on_disk.len()
        invariant
            i <= on_disk@.len(),
            disk == texts(on_disk@),
            c@.wf(),
            c@.library_root == m0.library_root,
            c@.roots == m0.roots,
            c@.next_id >= m0.next_id,
            c@.playlists == m0.playlists,
            forall|p: Seq<char>| #[trigger] c@.has_path(p) ==> m0.has_path(p)
                || ((exists|j: int| 0 <= j < i && disk[j] == p) && scanned(disk, root@, p)),
            forall|p: Seq<char>| m0.has_path(p) ==> #[trigger] c@.has_path(p),
            forall|p: Seq<char>| (exists|j: int| 0 <= j < i && disk[j] == p) && scanned(disk, root@, p)
                && c@.next_id < u16::MAX ==> #[trigger] c@.has_path(p),
            forall|s: SongView| #[trigger] m0.songs.contains(s) ==> c@.songs.contains(s),
            forall|s: SongView| #[trigger] c@.songs.contains(s) && !m0.has_path(s.path)
                ==> s.title == stem(s.path) && s.count == 0,
            c@.next_id <= m0.next_id + i,
            c@.songs.len() == m0.songs.len() + c@.next_id - m0.next_id,
            c@.songs.subrange(0, m0.songs.len() as int) == m0.songs,
            forall|j: int| m0.songs.len() <= j < c@.songs.len()
                ==> fresh_entry(m0, #[trigger] c@.songs[j], j - m0.songs.len())
                    && scanned(disk, root@, c@.songs[j].path),
        decreases on_disk@.len() - i,
    {
        let p = on_disk[i].as_str();
        assert(disk[i as int] == p@);
        if is_media_file(p) && is_under_root(p, root) {
            let ghost before = c@;
            add_song(c, p);
            proof {
                assert(disk.contains(p@));
                if !before.has_path(p@) && before.next_id < u16::MAX {
                    lemma_inserted(before, p@, stem(p@));
                    let new_song = SongView { id: before.next_id, title: stem(p@), path: p@, count: 0 };
                    assert(c@.songs == before.songs.push(new_song));
                    assert(c@.songs.subrange(0, m0.songs.len() as int) =~= before.songs.subrange(0, m0.songs.len() as int));
                    assert(!m0.has_path(p@));
                    assert forall|j: int| m0.songs.len() <= j < c@.songs.len()
                        implies fresh_entry(m0, #[trigger] c@.songs[j], j - m0.songs.len())
                            && scanned(disk, root@, c@.songs[j].path) by {
                        if j < before.songs.len() {
                            assert(c@.songs[j] == before.songs[j]);
                        }
                    }
                    assert forall|s: SongView| #[trigger] before.songs.contains(s) implies c@.songs.contains(s) by {
                        let k = choose|k: int| 0 <= k < before.songs.len() && before.songs[k] == s;
                        assert(c@.songs[k] == s);
                    }
                    assert forall|s: SongView| #[trigger] c@.songs.contains(s) && !m0.has_path(s.path)
                        implies s.title == stem(s.path) && s.count == 0 by {
                        let k = choose|k: int| 0 <= k < c@.songs.len() && c@.songs[k] == s;
                        if k < before.songs.len() {
                            assert(before.songs[k] == s);
                            assert(before.songs.contains(s));
                        }
                    }
                }
                assert forall|q: Seq<char>| (exists|j: int| 0 <= j < i + 1 && disk[j] == q) && scanned(disk, root@, q)
                    && c@.next_id < u16::MAX implies #[trigger] c@.has_path(q) by {
                    let j = choose|j: int| 0 <= j < i + 1 && disk[j] == q;
                    if j < i {
                        assert(before.has_path(q));
                    }
                }
            }
        } else {
            proof {
                assert forall|q: Seq<char>| (exists|j: int| 0 <= j < i + 1 && disk[j] == q) && scanned(disk, root@, q)
                    && c@.next_id < u16::MAX implies #[trigger] c@.has_path(q) by {
                    let j = choose|j: int| 0 <= j < i + 1 && disk[j] == q;
                    if j == i {
                        assert(q == p@);
                    }
                }
            }
        }
        i = i + 1;
    }
    let ghost m1 = c@;
    proof {
        assert forall|j: int| 0 <= j < m1.songs.len() implies #[trigger] held_paths(m1)(m1.songs[j]) by {}
        lemma_filter_all(m1.songs, held_paths(m1));
        assert forall|j: int| 0 <= j < m0.playlists.len() implies #[trigger] c@.playlists[j] == (PlaylistModel {
            name: m0.playlists[j].name,
            members: m0.playlists[j].members.filter(held_ids(c@)),
        }) by {
            let ms = m0.playlists[j].members;
            assert forall|a: int| 0 <= a < ms.len() implies #[trigger] held_ids(m1)(ms[a]) by {
                assert(ms.contains(ms[a]));
                assert(m0.has_id(ms[a]));
                let b = choose|b: int| 0 <= b < m0.songs.len() && m0.songs[b].id == ms[a];
                assert(m0.songs.contains(m0.songs[b]));
                assert(m1.songs.contains(m0.songs[b]));
            }
            lemma_filter_all(ms, held_ids(m1));
        }
    }
    let doomed_list = c.paths_under(root);
    let ghost list = texts(doomed_list@);
    let mut k: usize = 0;
    while k < doomed_list.len()
        invariant
            k <= doomed_list@.len(),
            disk == texts(on_disk@),
            list == texts(doomed_list@),
            forall|p: Seq<char>| #[trigger] list.contains(p) <==> m1.has_path(p) && is_under(p, root@),
            c@.wf(),
            c@.library_root == m0.library_root,
            c@.roots == m0.roots,
            c@.next_id == m1.next_id,
            m1.playlists == m0.playlists,
            c@.playlists.len() == m0.playlists.len(),
            forall|j: int| 0 <= j < m0.playlists.len() ==> (#[trigger] c@.playlists[j]).name == m0.playlists[j].name,
            forall|j: int, x: u16| 0 <= j < m0.playlists.len() && #[trigger] c@.playlists[j].members.contains(x)
                ==> m0.playlists[j].members.contains(x),
            forall|p: Seq<char>| #[trigger] c@.has_path(p) <==> m1.has_path(p)
                && !((exists|j: int| 0 <= j < k && list[j] == p) && !disk.contains(p)),
            forall|s: SongView| #[trigger] m1.songs.contains(s) && c@.has_path(s.path) ==> c@.songs.contains(s),
            forall|s: SongView| #[trigger] c@.songs.contains(s) ==> m1.songs.contains(s),
            c@.songs == m1.songs.filter(held_paths(c@)),
            forall|j: int| 0 <= j < m0.playlists.len() ==> #[trigger] c@.playlists[j] == (PlaylistModel {
                name: m0.playlists[j].name,
                members: m0.playlists[j].members.filter(held_ids(c@)),
            }),
        decreases doomed_list@.len() - k,
    {
        let q = doomed_list[k].as_str();
        assert(list[k as int] == q@);
        let ghost before = c@;
        if !contains_path(on_disk, q) {
            remove_song(c, q);
            proof {
                lemma_purged_songs(before, q@, false);
                let gone = before.doomed_ids(q@, false);
                assert forall|j: int, x: u16| 0 <= j < m0.playlists.len() && #[trigger] c@.playlists[j].members.contains(x)
                    implies m0.playlists[j].members.contains(x) by {
                    before.playlists[j].members.lemma_filter_contains_rev(outside(gone), x);
                }
                assert forall|p: Seq<char>| #[trigger] c@.has_path(p) <==> before.has_path(p) && p != q@ by {
                    if before.has_path(p) && p != q@ {
                        let x = choose|x: int| 0 <= x < before.songs.len() && before.songs[x].path == p;
                        assert(!crate::catalog::doomed(before.songs[x], q@, false));
                    }
                }
                assert forall|a: int| 0 <= a < m1.songs.len() implies (held_paths(before)(m1.songs[a])
                    && spared(q@, false)(m1.songs[a])) == held_paths(c@)(m1.songs[a]) by {}
                lemma_filter_filter(m1.songs, held_paths(before), spared(q@, false), held_paths(c@));
                lemma_purged_ids(before, q@, false);
                assert forall|j: int| 0 <= j < m0.playlists.len() implies #[trigger] c@.playlists[j] == (PlaylistModel {
                    name: m0.playlists[j].name,
                    members: m0.playlists[j].members.filter(held_ids(c@)),
                }) by {
                    let ms = m0.playlists[j].members;
                    assert(before.playlists[j].members == ms.filter(held_ids(before)));
                    assert forall|a: int| 0 <= a < ms.len() implies (held_ids(before)(ms[a])
                        && outside(gone)(ms[a])) == held_ids(c@)(ms[a]) by {}
                    lemma_filter_filter(ms, held_ids(before), outside(gone), held_ids(c@));
                }
            }
        }
        proof {
            assert forall|p: Seq<char>| #[trigger] c@.has_path(p) <==> m1.has_path(p)
                && !((exists|j: int| 0 <= j < k + 1 && list[j] == p) && !disk.contains(p)) by {
                if (exists|j: int| 0 <= j < k + 1 && list[j] == p) && !disk.contains(p) {
                    let j = choose|j: int| 0 <= j < k + 1 && list[j] == p;
                    if j < k {
                        assert(exists|jj: int| 0 <= jj < k && list[jj] == p);
                    }
                }
                if exists|j: int| 0 <= j < k && list[j] == p {
                    let j = choose|j: int| 0 <= j < k && list[j] == p;
                    assert(0 <= j < k + 1 && list[j] == p);
                }
            }
        }
        k = k + 1;
    }
    proof {
        assert forall|p: Seq<char>| is_under(p, root@) && #[trigger] c@.has_path(p)
            implies scanned(texts(on_disk@), root@, p) by {
            assert(m1.has_path(p));
            assert(list.contains(p));
            let j = choose|j: int| 0 <= j < list.len() && list[j] == p;
            assert(exists|jj: int| 0 <= jj < k && list[jj] == p);
            let x = choose|x: int| 0 <= x < c@.songs.len() && c@.songs[x].path == p;
            assert(is_media_path(c@.songs[x].path));
        }
        assert forall|p: Seq<char>| #[trigger] scanned(texts(on_disk@), root@, p)
            && (m0.has_path(p) || c@.next_id < u16::MAX) implies c@.has_path(p) by {
            let j = choose|j: int| 0 <= j < disk.len() && disk[j] == p;
            assert(exists|jj: int| 0 <= jj < on_disk@.len() && disk[jj] == p);
            assert(m1.has_path(p));
        }
        assert forall|p: Seq<char>| !is_under(p, root@) implies (#[trigger] c@.has_path(p) == m0.has_path(p)) by {
            assert(!list.contains(p));
            if exists|j: int| 0 <= j < k && list[j] == p {
                let j = choose|j: int| 0 <= j < k && list[j] == p;
                assert(list.contains(p));
            }
        }
        assert forall|s: SongView| #[trigger] m0.songs.contains(s) && c@.has_path(s.path) implies c@.songs.contains(s) by {
            assert(m1.songs.contains(s));
        }
        assert forall|s: SongView| #[trigger] c@.songs.contains(s) && !m0.has_path(s.path)
            implies s.title == stem(s.path) && s.count == 0 by {
            assert(m1.songs.contains(s));
        }
        let n = m1.songs.subrange(m0.songs.len() as int, m1.songs.len() as int);
        assert(m1.songs =~= m0.songs + n);
        Seq::<SongView>::filter_distributes_over_add(m0.songs, n, held_paths(c@));
        assert forall|a: int| 0 <= a < n.len() implies #[trigger] held_paths(c@)(n[a]) by {
            assert(n[a] == m1.songs[m0.songs.len() + a]);
            assert(scanned(disk, root@, n[a].path));
            assert(m1.has_path(n[a].path));
            assert(scanned(texts(on_disk@), root@, n[a].path));
        }
        lemma_filter_all(n, held_paths(c@));
        let sv = survivors(m0, c@);
        assert(c@.songs == sv + n);
        assert(c@.songs.subrange(0, sv.len() as int) =~= sv);
        assert forall|j: int| sv.len() <= j < c@.songs.len()
            implies fresh_entry(m0, #[trigger] c@.songs[j], j - sv.len())
                && scanned(texts(on_disk@), root@, c@.songs[j].path) by {
            assert(c@.songs[j] == m1.songs[m0.songs.len() + (j - sv.len())]);
        }
        assert forall|s: SongView| #[trigger] c@.songs.contains(s) && !m0.has_path(s.path)
            implies s.id >= m0.next_id by {
            let j = choose|j: int| 0 <= j < c@.songs.len() && c@.songs[j] == s;
            if j < sv.len() {
                assert(sv[j] == s);
                assert(sv.contains(s));
                m0.songs.lemma_filter_contains_rev(held_paths(c@), s);
                let b = choose|b: int| 0 <= b < m0.songs.len() && m0.songs[b] == s;
                assert(m0.has_path(s.path));
            } else {
                assert(fresh_entry(m0, c@.songs[j], j - sv.len()));
            }
        }
    }
}

/// Registers the directory `path`. `subscribed` tells whether the change
/// notifications for it could be set up, and `on_disk` lists the regular files
/// that a scan of it found. A watched directory is refused; so is one that
/// could not be subscribed to. Otherwise the directory joins the watched roots
/// and the catalog is reconciled with the scan, as [`reconcile`] describes.
pub fn add_dir(c: &mut Catalog, path: &str, subscribed: bool, on_disk: &Vec<String>) -> (r: Result<(), LibraryError>)
    requires
        old(c)@.wf(),
    ensures
        final(c)@.wf(),
        old(c)@.is_watched(path@) ==> r == Err::<(), LibraryError>(LibraryError::AlreadyWatched),
        !old(c)@.is_watched(path@) && !subscribed ==> r == Err::<(), LibraryError>(LibraryError::SubscriptionFailed),
        r is Err ==> final(c)@ == old(c)@,
        !old(c)@.is_watched(path@) && subscribed ==> r is Ok,
        r is Ok ==> final(c)@.roots == old(c)@.roots.push(path@),
        r is Ok ==> final(c)@.library_root == old(c)@.library_root,
        r is Ok ==> forall|p: Seq<char>| is_under(p, path@) && #[trigger] final(c)@.has_path(p)
            ==> scanned(texts(on_disk@), path@, p),
        r is Ok ==> forall|p: Seq<char>| #[trigger] scanned(texts(on_disk@), path@, p)
            && (old(c)@.has_path(p) || final(c)@.next_id < u16::MAX) ==> final(c)@.has_path(p),
        r is Ok ==> forall|p: Seq<char>| !is_under(p, path@) ==> (#[trigger] final(c)@.has_path(p) == old(c)@.has_path(p)),
        r is Ok ==> forall|s: SongView| #[trigger] old(c)@.songs.contains(s) && final(c)@.has_path(s.path)
            ==> final(c)@.songs.contains(s),
        r is Ok ==> forall|s: SongView| #[trigger] final(c)@.songs.contains(s) && !old(c)@.has_path(s.path)
            ==> s.title == stem(s.path) && s.count == 0,
        r is Ok ==> forall|s: SongView| #[trigger] final(c)@.songs.contains(s) && !old(c)@.has_path(s.path)
            ==> s.id >= old(c)@.next_id,
        r is Ok ==> final(c)@.next_id <= old(c)@.next_id + on_disk@.len(),
        r is Ok ==> forall|p: Seq<char>| #[trigger] scanned(texts(on_disk@), path@, p)
            && old(c)@.next_id + on_disk@.len() < u16::MAX ==> final(c)@.has_path(p),
        r is Ok ==> final(c)@.songs.subrange(0, survivors(old(c)@, final(c)@).len() as int)
            == survivors(old(c)@, final(c)@),
        r is Ok ==> final(c)@.next_id == old(c)@.next_id + final(c)@.songs.len() - survivors(old(c)@, final(c)@).len(),
        r is Ok ==> forall|j: int| survivors(old(c)@, final(c)@).len() <= j < final(c)@.songs.len()
            ==> fresh_entry(old(c)@, #[trigger] final(c)@.songs[j], j - survivors(old(c)@, final(c)@).len())
                && scanned(texts(on_disk@), path@, final(c)@.songs[j].path),
        r is Ok ==> final(c)@.playlists.len() == old(c)@.playlists.len(),
        r is Ok ==> forall|i: int| 0 <= i < old(c)@.playlists.len() ==> #[trigger] final(c)@.playlists[i] == (PlaylistModel {
            name: old(c)@.playlists[i].name,
            members: old(c)@.playlists[i].members.filter(held_ids(final(c)@)),
        }),
{
    if c.is_watched(path) {
        return Err(LibraryError::AlreadyWatched);
    }
    if !subscribed {
        return Err(LibraryError::SubscriptionFailed);
    }
    let ghost m0 = c@;
    c.add_root(path);
    proof {
        assert(c@.songs == m0.songs && c@.playlists == m0.playlists && c@.next_id == m0.next_id);
    }
    let ghost m1 = c@;
    reconcile(c, path, on_disk);
    proof {
        assert(survivors(m1, c@) == survivors(m0, c@));
        assert forall|p: Seq<char>| m1.has_path(p) == m0.has_path(p) by {}
    }
    Ok(())
}

/// Unregisters the directory `path`. `unsubscribed` tells whether its change
/// notifications could be stopped. The library root is refused whatever the
/// catalog holds; so is a directory that is not
/// watched, and one that could not be unsubscribed from. Otherwise the
/// directory leaves the watched roots, every entry inside it is deleted, and
/// their identifiers leave every playlist.
pub fn remove_dir(c: &mut Catalog, path: &str, unsubscribed: bool) -> (r: Result<(), LibraryError>)
    requires
        old(c)@.wf(),
    ensures
        final(c)@.wf(),
        old(c)@.is_protected(path@) ==> r == Err::<(), LibraryError>(LibraryError::ProtectedRoot),
        !old(c)@.is_protected(path@) && !old(c)@.roots.contains(path@)
            ==> r == Err::<(), LibraryError>(LibraryError::NotWatched),
        !old(c)@.is_protected(path@) && old(c)@.roots.contains(path@) && !unsubscribed
            ==> r == Err::<(), LibraryError>(LibraryError::SubscriptionFailed),
        r is Err ==> final(c)@ == old(c)@,
        !old(c)@.is_protected(path@) && old(c)@.roots.contains(path@) && unsubscribed ==> r is Ok,
        r is Ok ==> final(c)@ == (CatalogModel {
            roots: old(c)@.roots.remove(old(c)@.roots.index_of(path@)),
            ..old(c)@.purged(path@, true)
        }),
{
    match c.check_remove(path) {
        Err(e) => {
            return Err(e);
        },
        Ok(()) => {},
    }
    if !unsubscribed {
        return Err(LibraryError::SubscriptionFailed);
    }
    let ghost m0 = c@;
    let i = c.remove_root(path);
    proof {
        assert(m0.roots.index_of(path@) == i) by {
            let k = m0.roots.index_of(path@);
            assert(m0.roots[k] == path@);
            if k != i {
                assert(m0.roots.no_duplicates());
            }
        }
    }
    let ghost m1 = c@;
    c.delete_entries_under(path);
    proof {
        lemma_purged_songs(m1, path@, true);
        assert(c@.roots == m1.roots);
    }
    Ok(())
}

} // verus!
