use crate::catalog::{
    CatalogModel, doomed, lemma_purge_absent, lemma_purged_songs, lemma_purged_wf, outside,
};
use crate::media::{is_media_path, is_under, stem};
use crate::song::SongView;
use crate::sync::{
    Action, EventKind, EventModel, action_of, applied, ensured, lemma_inserted, replayed, scanned,
};
use vstd::prelude::*;

verus! {

/// An event keeps the catalog well formed.
pub proof fn lemma_applied_wf(m: CatalogModel, e: EventModel)
    requires
        m.wf(),
    ensures
        applied(m, e).wf(),
        applied(m, e).next_id >= m.next_id,
        applied(m, e).library_root == m.library_root,
        applied(m, e).roots == m.roots,
{
    match action_of(e) {
        Action::Insert => {
            if !(m.has_path(e.path) || !is_media_path(e.path) || m.next_id == u16::MAX) {
                lemma_inserted(m, e.path, stem(e.path));
            }
        },
        Action::Delete => {
            lemma_purged_wf(m, e.path, false);
            lemma_purged_songs(m, e.path, false);
        },
        Action::Ignore => {},
    }
}

/// Applying the same create event twice leaves the catalog as applying it
/// once does; when the event inserts, exactly one entry then has its path.
pub proof fn lemma_create_idempotent(m: CatalogModel, e: EventModel)
    requires
        m.wf(),
        e.kind == EventKind::Create,
    ensures
        applied(applied(m, e), e) == applied(m, e),
        action_of(e) == Action::Insert && (m.has_path(e.path) || m.next_id < u16::MAX) ==> exists|i: int|
            0 <= i < applied(m, e).songs.len() && applied(m, e).songs[i].path == e.path
                && forall|j: int|
                0 <= j < applied(m, e).songs.len() && applied(m, e).songs[j].path == e.path ==> j == i,
{
    lemma_applied_wf(m, e);
    let r = applied(m, e);
    if action_of(e) == Action::Insert {
        if !m.has_path(e.path) && m.next_id < u16::MAX {
            lemma_inserted(m, e.path, stem(e.path));
        }
        if m.has_path(e.path) || m.next_id < u16::MAX {
            assert(r.has_path(e.path));
            let i = choose|i: int| 0 <= i < r.songs.len() && r.songs[i].path == e.path;
            assert(forall|j: int| 0 <= j < r.songs.len() && r.songs[j].path == e.path ==> j == i);
        }
    }
}

/// Deleting a path the catalog does not hold, by a remove event, changes
/// nothing.
pub proof fn lemma_remove_absent(m: CatalogModel, e: EventModel)
    requires
        e.kind == EventKind::Remove,
        !m.has_path(e.path),
    ensures
        applied(m, e) == m,
{
    lemma_purge_absent(m, e.path);
}

/// The two halves of a rename from `a` to `b` leave the catalog as a remove of
/// `a` followed by a create of `b` does: no entry for `a`, and for `b` a new
/// entry with a fresh identifier and a play count of zero.
pub proof fn lemma_rename_equivalence(m: CatalogModel, a: Seq<char>, b: Seq<char>, a_dir: bool, b_dir: bool)
    requires
        m.wf(),
    ensures
        ({
            let from = EventModel { kind: EventKind::RenameFrom, path: a, is_dir: a_dir };
            let to = EventModel { kind: EventKind::RenameTo, path: b, is_dir: b_dir };
            let rm = EventModel { kind: EventKind::Remove, path: a, is_dir: a_dir };
            let cr = EventModel { kind: EventKind::Create, path: b, is_dir: b_dir };
            let r = applied(applied(m, from), to);
            &&& r == applied(applied(m, rm), cr)
            &&& a != b ==> !r.has_path(a)
            &&& (is_media_path(b) && !b_dir && !m.has_path(b) && m.next_id < u16::MAX) ==> r.songs.last()
                == (SongView { id: m.next_id, title: stem(b), path: b, count: 0 })
        }),
{
    let from = EventModel { kind: EventKind::RenameFrom, path: a, is_dir: a_dir };
    let to = EventModel { kind: EventKind::RenameTo, path: b, is_dir: b_dir };
    let m1 = applied(m, from);
    lemma_purged_songs(m, a, false);
    lemma_purged_wf(m, a, false);
    assert(!m1.has_path(a)) by {
        if m1.has_path(a) {
            let i = choose|i: int| 0 <= i < m.songs.len() && m.songs[i].path == a && !doomed(m.songs[i], a, false);
        }
    }
    if is_media_path(b) && !b_dir && !m1.has_path(b) && m1.next_id < u16::MAX {
        lemma_inserted(m1, b, stem(b));
    }
    if !m.has_path(b) {
        assert(!m1.has_path(b));
    }
}

/// Unregistering a directory purges every entry inside it from every playlist.
pub proof fn lemma_purge_cascade(m: CatalogModel, dir: Seq<char>)
    requires
        m.wf(),
    ensures
        forall|i: int, j: int|
            0 <= i < m.playlists.len() && 0 <= j < m.songs.len() && is_under(m.songs[j].path, dir)
                ==> !(#[trigger] m.purged(dir, true).playlists[i]).members.contains(#[trigger] m.songs[j].id),
        forall|q: Seq<char>| is_under(q, dir) ==> !#[trigger] m.purged(dir, true).has_path(q),
{
    let gone = m.doomed_ids(dir, true);
    let keep = outside(gone);
    assert forall|i: int, j: int|
        0 <= i < m.playlists.len() && 0 <= j < m.songs.len() && is_under(m.songs[j].path, dir)
            implies !(#[trigger] m.purged(dir, true).playlists[i]).members.contains(#[trigger] m.songs[j].id) by {
        let ms = m.playlists[i].members;
        assert(m.purged(dir, true).playlists[i].members == ms.filter(keep));
        assert(gone.contains(m.songs[j].id));
        if ms.filter(keep).contains(m.songs[j].id) {
            let k = choose|k: int| 0 <= k < ms.filter(keep).len() && ms.filter(keep)[k] == m.songs[j].id;
            ms.lemma_filter_pred(keep, k);
        }
    }
    lemma_purged_songs(m, dir, true);
}

/// Every entry inside `root` is on disk, and every media file on disk inside
/// `root` is an entry.
pub open spec fn agrees(m: CatalogModel, root: Seq<char>, disk: Seq<Seq<char>>) -> bool {
    forall|p: Seq<char>| is_under(p, root) ==> (#[trigger] m.has_path(p) <==> scanned(disk, root, p))
}

/// Whether `p` is held after the events `es`, judged by the last of them that
/// inserts or deletes `p`; `start` when none does.
pub open spec fn last_verdict(es: Seq<EventModel>, p: Seq<char>, start: bool) -> bool
    decreases es.len(),
{
    if es.len() == 0 {
        start
    } else if es.last().path == p && action_of(es.last()) != Action::Ignore {
        action_of(es.last()) == Action::Insert
    } else {
        last_verdict(es.drop_last(), p, start)
    }
}

/// The last event that inserts or deletes each file inside `root` agrees with
/// the disk: it inserts a file that is there and deletes one that is not.
pub open spec fn settled(es: Seq<EventModel>, root: Seq<char>, disk: Seq<Seq<char>>) -> bool {
    forall|p: Seq<char>| is_under(p, root) ==> #[trigger] last_verdict(es, p, scanned(disk, root, p))
        == scanned(disk, root, p)
}

proof fn lemma_replayed_wf(m: CatalogModel, es: Seq<EventModel>)
    requires
        m.wf(),
    ensures
        replayed(m, es).wf(),
        replayed(m, es).next_id >= m.next_id,
    decreases es.len(),
{
    if es.len() > 0 {
        lemma_replayed_wf(m, es.drop_last());
        lemma_applied_wf(replayed(m, es.drop_last()), es.last());
    }
}

/// After a sequence of events, a path is held exactly when the last event
/// that inserts or deletes it inserts it (or, with none, when it was held
/// before), as long as identifiers last.
pub proof fn lemma_replayed_paths(m: CatalogModel, es: Seq<EventModel>)
    requires
        m.wf(),
        replayed(m, es).next_id < u16::MAX,
    ensures
        forall|p: Seq<char>| #[trigger] replayed(m, es).has_path(p) == last_verdict(es, p, m.has_path(p)),
    decreases es.len(),
{
    lemma_replayed_wf(m, es);
    if es.len() > 0 {
        let d = es.drop_last();
        let e = es.last();
        lemma_replayed_wf(m, d);
        let m1 = replayed(m, d);
        lemma_applied_wf(m1, e);
        lemma_replayed_paths(m, d);
        let r = applied(m1, e);
        match action_of(e) {
            Action::Insert => {
                if !m1.has_path(e.path) && m1.next_id < u16::MAX {
                    lemma_inserted(m1, e.path, stem(e.path));
                }
            },
            Action::Delete => {
                lemma_purged_songs(m1, e.path, false);
                assert forall|p: Seq<char>| #[trigger] r.has_path(p) == (m1.has_path(p) && p != e.path) by {
                    if m1.has_path(p) && p != e.path {
                        let i = choose|i: int| 0 <= i < m1.songs.len() && m1.songs[i].path == p;
                        assert(!doomed(m1.songs[i], e.path, false));
                    }
                }
            },
            Action::Ignore => {},
        }
    }
}

/// A reconciliation of `root` leaves the catalog agreeing with the disk inside
/// `root` (see its contract), whatever came before it. The live events that
/// race with it, applied in their order after it, keep that agreement as long
/// as the last event for each file inside `root` agrees with the disk, however
/// stale the earlier ones are; events elsewhere do not disturb it. So a scan
/// and the events interleaved with it converge on what is on disk, with no
/// entry lost, doubled or stale, as long as identifiers last.
pub proof fn lemma_scan_event_convergence(
    m: CatalogModel,
    root: Seq<char>,
    disk: Seq<Seq<char>>,
    es: Seq<EventModel>,
)
    requires
        m.wf(),
        agrees(m, root, disk),
        settled(es, root, disk),
        replayed(m, es).next_id < u16::MAX,
    ensures
        agrees(replayed(m, es), root, disk),
        replayed(m, es).wf(),
{
    lemma_replayed_wf(m, es);
    lemma_replayed_paths(m, es);
    assert forall|p: Seq<char>| is_under(p, root) implies (#[trigger] replayed(m, es).has_path(p) <==> scanned(disk, root, p)) by {
        assert(m.has_path(p) == scanned(disk, root, p));
        assert(last_verdict(es, p, scanned(disk, root, p)) == scanned(disk, root, p));
    }
}

} // verus!
