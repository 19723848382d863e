use icai::{
    add_dir, add_song, classify_event, file_name_of, handle_event, is_media_file, is_under_root,
    reconcile, remove_dir, remove_song, title_from_filename, Action, Catalog, EventKind, FsEvent,
    LibraryError, Playlist, Song, TitleError,
};

const ROOT: &str = "/home/u/Music";

fn catalog() -> Catalog {
    Catalog::new(ROOT.to_string())
}

fn ev(kind: EventKind, path: &str) -> FsEvent {
    FsEvent { kind, path: path.to_string(), is_dir: false }
}

fn paths(c: &Catalog) -> Vec<String> {
    let mut v: Vec<String> = c.get_all_songs().iter().map(|s| s.path()).collect();
    v.sort();
    v
}

fn files(list: &[&str]) -> Vec<String> {
    list.iter().map(|s| s.to_string()).collect()
}

#[test]
fn song_getters() {
    let s = Song::new(3, "a".to_string(), "/m/a.mp3".to_string(), 7);
    assert_eq!(s.id(), 3);
    assert_eq!(s.title(), "a");
    assert_eq!(s.path(), "/m/a.mp3");
    assert_eq!(s.count(), 7);
}

#[test]
fn songs_equal_by_id() {
    let a = Song::new(1, "a".to_string(), "/m/a.mp3".to_string(), 0);
    let b = Song::new(1, "b".to_string(), "/m/b.mp3".to_string(), 4);
    let c = Song::new(2, "a".to_string(), "/m/a.mp3".to_string(), 0);
    assert!(a == b);
    assert!(a != c);
}

#[test]
fn playlist_add_get_remove() {
    let mut p = Playlist::new("mix".to_string());
    assert_eq!(p.name(), "mix");
    assert_eq!(p.iter().count(), 0);
    p.add_song(Song::new(1, "a".to_string(), "/m/a.mp3".to_string(), 0));
    p.add_song(Song::new(2, "b".to_string(), "/m/b.mp3".to_string(), 0));
    assert_eq!(p.get_song(2).map(|s| s.title()), Some("b".to_string()));
    assert!(p.get_song(9).is_none());
    p.remove_song(Song::new(1, "x".to_string(), "/x".to_string(), 0));
    let ids: Vec<u16> = p.iter().map(|s| s.id()).collect();
    assert_eq!(ids, vec![2]);
    p.remove_song(Song::new(5, "x".to_string(), "/x".to_string(), 0));
    assert_eq!(p.iter().count(), 1);
}

#[test]
fn playlist_from_and_set_songs() {
    let mut p = Playlist::from("p".to_string(), vec![Song::new(4, "d".to_string(), "/d.ogg".to_string(), 1)]);
    assert_eq!(p.get_song(4).map(|s| s.count()), Some(1));
    p.set_songs(vec![]);
    assert!(p.get_song(4).is_none());
    p.set_songs(vec![Song::new(8, "e".to_string(), "/e.ogg".to_string(), 0)]);
    for s in p.iter_mut() {
        *s = Song::new(9, s.title(), s.path(), 2);
    }
    assert_eq!(p.get_song(9).map(|s| s.count()), Some(2));
}

#[test]
fn media_extensions() {
    assert!(is_media_file("/m/a.mp3"));
    assert!(is_media_file("/m/b.WAV"));
    assert!(is_media_file("/m/c.Ogg"));
    assert!(!is_media_file("/m/b.txt"));
    assert!(!is_media_file("/m/noext"));
    assert!(!is_media_file("/m/.mp3"));
    assert!(!is_media_file("/m.mp3/song"));
}

#[test]
fn titles_and_names() {
    assert_eq!(file_name_of("/m/x/track.one.mp3"), "track.one.mp3");
    assert_eq!(title_from_filename("/m/x/track.one.mp3"), Ok("track.one".to_string()));
    assert_eq!(title_from_filename("/m/.hidden"), Ok(".hidden".to_string()));
    assert_eq!(title_from_filename("/m/dir/"), Err(TitleError::InvalidFilename));
}

#[test]
fn under_root() {
    assert!(is_under_root("/music/a.mp3", "/music"));
    assert!(!is_under_root("/music2/a.mp3", "/music"));
    assert!(!is_under_root("/music", "/music"));
}

#[test]
fn insert_entry_outcomes() {
    let mut c = catalog();
    let id = c.insert_entry("/m/a.mp3", "a").unwrap();
    assert_eq!(c.insert_entry("/m/a.mp3", "a"), Err(LibraryError::DuplicatePath));
    assert_eq!(c.insert_entry("/m/b.txt", "b"), Err(LibraryError::UnsupportedPath));
    let s = c.find_entry_by_path("/m/a.mp3").unwrap();
    assert_eq!((s.id(), s.title(), s.count()), (id, "a".to_string(), 0));
    assert!(c.find_entry_by_path("/m/zzz.mp3").is_none());
    let id2 = c.insert_entry("/m/b.mp3", "b").unwrap();
    assert!(id2 > id);
}

#[test]
fn ids_run_out() {
    let mut c = catalog();
    let mut last = 0u16;
    for i in 0..65534u32 {
        last = c.insert_entry(&format!("/m/{}.mp3", i), "t").unwrap();
    }
    assert_eq!(last, 65534);
    assert_eq!(c.insert_entry("/m/one_more.mp3", "t"), Err(LibraryError::IdsExhausted));
}

#[test]
fn idempotent_create() {
    let mut c = catalog();
    let e = ev(EventKind::Create, "/home/u/Music/a.mp3");
    handle_event(&mut c, &e);
    handle_event(&mut c, &e);
    assert_eq!(paths(&c), files(&["/home/u/Music/a.mp3"]));
    add_song(&mut c, "/home/u/Music/a.mp3");
    assert_eq!(c.get_all_songs().iter().count(), 1);
}

#[test]
fn idempotent_delete() {
    let mut c = catalog();
    add_song(&mut c, "/home/u/Music/a.mp3");
    remove_song(&mut c, "/home/u/Music/zz.mp3");
    handle_event(&mut c, &ev(EventKind::Remove, "/home/u/Music/zz.mp3"));
    assert_eq!(paths(&c), files(&["/home/u/Music/a.mp3"]));
    remove_song(&mut c, "/home/u/Music/a.mp3");
    remove_song(&mut c, "/home/u/Music/a.mp3");
    assert!(paths(&c).is_empty());
}

#[test]
fn event_classification() {
    assert_eq!(classify_event(&ev(EventKind::Create, "/m/a.mp3")), Action::Insert);
    assert_eq!(classify_event(&ev(EventKind::Create, "/m/a.txt")), Action::Ignore);
    let dir = FsEvent { kind: EventKind::Create, path: "/m/d.mp3".to_string(), is_dir: true };
    assert_eq!(classify_event(&dir), Action::Ignore);
    assert_eq!(classify_event(&ev(EventKind::Remove, "/m/a.txt")), Action::Delete);
    assert_eq!(classify_event(&ev(EventKind::RenameFrom, "/m/a.mp3")), Action::Delete);
    assert_eq!(classify_event(&ev(EventKind::RenameTo, "/m/a.mp3")), Action::Insert);
    assert_eq!(classify_event(&ev(EventKind::Other, "/m/a.mp3")), Action::Ignore);
}

#[test]
fn scan_convergence() {
    let mut c = catalog();
    let disk = files(&["/home/u/Music/a.mp3", "/home/u/Music/b.txt", "/home/u/Music/c.ogg"]);
    reconcile(&mut c, ROOT, &disk);
    assert_eq!(paths(&c), files(&["/home/u/Music/a.mp3", "/home/u/Music/c.ogg"]));
    let mut titles: Vec<String> = c.get_all_songs().iter().map(|s| s.title()).collect();
    titles.sort();
    assert_eq!(titles, files(&["a", "c"]));
}

#[test]
fn removal_detection() {
    let mut c = catalog();
    reconcile(&mut c, ROOT, &files(&["/home/u/Music/a.mp3", "/home/u/Music/c.ogg"]));
    reconcile(&mut c, ROOT, &files(&["/home/u/Music/c.ogg"]));
    assert_eq!(paths(&c), files(&["/home/u/Music/c.ogg"]));
}

#[test]
fn reconcile_leaves_other_roots() {
    let mut c = catalog();
    add_song(&mut c, "/other/x.mp3");
    reconcile(&mut c, ROOT, &files(&["/home/u/Music/a.mp3", "/other/y.mp3"]));
    assert_eq!(paths(&c), files(&["/home/u/Music/a.mp3", "/other/x.mp3"]));
}

#[test]
fn rename_equivalence() {
    let mut a = catalog();
    let mut b = catalog();
    for c in [&mut a, &mut b] {
        add_song(c, "/home/u/Music/z.mp3");
        add_song(c, "/home/u/Music/a.mp3");
    }
    handle_event(&mut a, &ev(EventKind::RenameFrom, "/home/u/Music/a.mp3"));
    handle_event(&mut a, &ev(EventKind::RenameTo, "/home/u/Music/b.mp3"));
    handle_event(&mut b, &ev(EventKind::Remove, "/home/u/Music/a.mp3"));
    handle_event(&mut b, &ev(EventKind::Create, "/home/u/Music/b.mp3"));
    let view = |c: &Catalog| -> Vec<(u16, String, String, u16)> {
        c.get_all_songs().iter().map(|s| (s.id(), s.title(), s.path(), s.count())).collect()
    };
    assert_eq!(view(&a), view(&b));
    assert!(a.find_entry_by_path("/home/u/Music/a.mp3").is_none());
    let nb = a.find_entry_by_path("/home/u/Music/b.mp3").unwrap();
    assert_eq!((nb.id(), nb.title(), nb.count()), (3, "b".to_string(), 0));
}

#[test]
fn cascading_playlist_cleanup() {
    let mut c = catalog();
    assert_eq!(add_dir(&mut c, "/data/tunes", true, &files(&["/data/tunes/x.mp3", "/data/tunes/y.wav"])), Ok(()));
    add_song(&mut c, "/home/u/Music/k.ogg");
    c.create_playlist("P").unwrap();
    let x = c.find_entry_by_path("/data/tunes/x.mp3").unwrap().id();
    let k = c.find_entry_by_path("/home/u/Music/k.ogg").unwrap().id();
    c.add_playlist_song("P", x).unwrap();
    c.add_playlist_song("P", k).unwrap();
    assert_eq!(remove_dir(&mut c, "/data/tunes", true), Ok(()));
    let ids: Vec<u16> = c.get_playlist("P").unwrap().iter().map(|s| s.id()).collect();
    assert_eq!(ids, vec![k]);
    assert_eq!(paths(&c), files(&["/home/u/Music/k.ogg"]));
    assert_eq!(c.list_roots(), files(&[ROOT]));
}

#[test]
fn deleting_entry_leaves_playlists() {
    let mut c = catalog();
    add_song(&mut c, "/home/u/Music/a.mp3");
    add_song(&mut c, "/home/u/Music/b.mp3");
    c.create_playlist("P").unwrap();
    c.add_playlist_song("P", 1).unwrap();
    c.add_playlist_song("P", 2).unwrap();
    handle_event(&mut c, &ev(EventKind::Remove, "/home/u/Music/a.mp3"));
    let ids: Vec<u16> = c.get_playlist("P").unwrap().iter().map(|s| s.id()).collect();
    assert_eq!(ids, vec![2]);
}

#[test]
fn protected_root() {
    let mut c = catalog();
    assert_eq!(remove_dir(&mut c, ROOT, true), Err(LibraryError::ProtectedRoot));
    assert_eq!(remove_dir(&mut c, "/home/u/Music/sub", true), Err(LibraryError::NotWatched));
    assert_eq!(add_dir(&mut c, "/home/u/Music/sub", true, &vec![]), Ok(()));
    assert_eq!(remove_dir(&mut c, "/home/u/Music/sub", true), Ok(()));
    add_song(&mut c, "/home/u/Music/a.mp3");
    assert_eq!(add_dir(&mut c, "/data", true, &vec![]), Ok(()));
    assert_eq!(remove_dir(&mut c, ROOT, true), Err(LibraryError::ProtectedRoot));
    assert_eq!(c.check_remove(ROOT), Err(LibraryError::ProtectedRoot));
    assert_eq!(paths(&c), files(&["/home/u/Music/a.mp3"]));
}

#[test]
fn directory_errors() {
    let mut c = catalog();
    assert_eq!(add_dir(&mut c, ROOT, true, &vec![]), Err(LibraryError::AlreadyWatched));
    assert_eq!(add_dir(&mut c, "/data", false, &vec![]), Err(LibraryError::SubscriptionFailed));
    assert!(!c.is_watched("/data"));
    assert_eq!(c.check_add("/data"), Ok(()));
    assert_eq!(add_dir(&mut c, "/data", true, &vec![]), Ok(()));
    assert!(c.is_watched("/data"));
    assert_eq!(c.check_add("/data"), Err(LibraryError::AlreadyWatched));
    assert_eq!(add_dir(&mut c, "/data", true, &vec![]), Err(LibraryError::AlreadyWatched));
    assert_eq!(remove_dir(&mut c, "/nowhere", true), Err(LibraryError::NotWatched));
    assert_eq!(remove_dir(&mut c, "/data", false), Err(LibraryError::SubscriptionFailed));
    assert_eq!(c.list_roots(), files(&[ROOT, "/data"]));
    assert_eq!(remove_dir(&mut c, "/data", true), Ok(()));
    assert_eq!(c.list_roots(), files(&[ROOT]));
}

#[test]
fn concurrent_scan_and_events() {
    let disk = files(&["/home/u/Music/a.mp3", "/home/u/Music/n.ogg"]);
    let events = vec![
        ev(EventKind::Create, "/home/u/Music/n.ogg"),
        ev(EventKind::Remove, "/home/u/Music/old.mp3"),
    ];
    for split in 0..=events.len() {
        let mut c = catalog();
        add_song(&mut c, "/home/u/Music/old.mp3");
        add_song(&mut c, "/home/u/Music/a.mp3");
        for e in &events[..split] {
            handle_event(&mut c, e);
        }
        reconcile(&mut c, ROOT, &disk);
        for e in &events[split..] {
            handle_event(&mut c, e);
        }
        assert_eq!(paths(&c), files(&["/home/u/Music/a.mp3", "/home/u/Music/n.ogg"]));
    }
}

#[test]
fn playlist_operations() {
    let mut c = catalog();
    add_song(&mut c, "/home/u/Music/a.mp3");
    add_song(&mut c, "/home/u/Music/b.mp3");
    assert_eq!(c.create_playlist("P"), Ok(()));
    assert_eq!(c.create_playlist("P"), Err(LibraryError::PlaylistExists));
    assert_eq!(c.create_playlist("Q"), Ok(()));
    assert_eq!(c.add_playlist_song("P", 2), Ok(()));
    assert_eq!(c.add_playlist_song("P", 1), Ok(()));
    assert_eq!(c.add_playlist_song("P", 1), Err(LibraryError::AlreadyInPlaylist));
    assert_eq!(c.add_playlist_song("P", 42), Err(LibraryError::NoSuchSong));
    assert_eq!(c.add_playlist_song("Z", 1), Err(LibraryError::NoSuchPlaylist));
    let p = c.get_playlist("P").unwrap();
    assert_eq!(p.name(), "P");
    let titles: Vec<String> = p.iter().map(|s| s.title()).collect();
    assert_eq!(titles, files(&["b", "a"]));
    assert!(matches!(c.get_playlist("Z"), Err(LibraryError::NoSuchPlaylist)));
    let all = c.get_all_playlists();
    let names: Vec<String> = all.iter().map(|p| p.name()).collect();
    assert_eq!(names, files(&["All Songs", "P", "Q"]));
    assert_eq!(all[0].iter().count(), 2);
    assert_eq!(all[1].iter().count(), 2);
    assert_eq!(c.remove_playlist_song("P", 2), Ok(()));
    assert_eq!(c.remove_playlist_song("P", 2), Ok(()));
    assert_eq!(c.remove_playlist_song("Z", 2), Err(LibraryError::NoSuchPlaylist));
    let ids: Vec<u16> = c.get_playlist("P").unwrap().iter().map(|s| s.id()).collect();
    assert_eq!(ids, vec![1]);
    assert_eq!(c.delete_playlist("P"), Ok(()));
    assert_eq!(c.delete_playlist("P"), Err(LibraryError::NoSuchPlaylist));
    let names: Vec<String> = c.get_all_playlists().iter().map(|p| p.name()).collect();
    assert_eq!(names, files(&["All Songs", "Q"]));
}

#[test]
fn all_songs_playlist() {
    let mut c = catalog();
    add_song(&mut c, "/home/u/Music/a.mp3");
    let all = c.get_all_songs();
    assert_eq!(all.name(), "All Songs");
    assert_eq!(all.get_song(1).map(|s| s.path()), Some("/home/u/Music/a.mp3".to_string()));
}

#[test]
fn paths_under_dir() {
    let mut c = catalog();
    add_song(&mut c, "/a/x.mp3");
    add_song(&mut c, "/b/y.mp3");
    assert_eq!(c.paths_under("/a"), files(&["/a/x.mp3"]));
    c.delete_entries_under("/a");
    assert_eq!(paths(&c), files(&["/b/y.mp3"]));
    c.delete_entry_by_path("/b/y.mp3");
    assert!(paths(&c).is_empty());
}

#[test]
fn stale_events_converge() {
    let disk = files(&["/home/u/Music/a.mp3"]);
    let events = vec![
        ev(EventKind::Create, "/home/u/Music/x.mp3"),
        ev(EventKind::Create, "/home/u/Music/a.mp3"),
        ev(EventKind::Remove, "/home/u/Music/x.mp3"),
        ev(EventKind::Other, "/home/u/Music/a.mp3"),
    ];
    for split in 0..=events.len() {
        let mut c = catalog();
        for e in &events[..split] {
            handle_event(&mut c, e);
        }
        reconcile(&mut c, ROOT, &disk);
        for e in &events[split..] {
            handle_event(&mut c, e);
        }
        assert_eq!(paths(&c), files(&["/home/u/Music/a.mp3"]));
    }
}

#[test]
fn restore_entry_outcomes() {
    let mut c = catalog();
    assert_eq!(c.restore_entry(7, "a", "/home/u/Music/a.mp3", 5), Ok(()));
    let a = c.find_entry_by_path("/home/u/Music/a.mp3").unwrap();
    assert_eq!((a.id(), a.title(), a.count()), (7, "a".to_string(), 5));
    assert_eq!(c.restore_entry(9, "a", "/home/u/Music/a.mp3", 0), Err(LibraryError::DuplicatePath));
    assert_eq!(c.restore_entry(9, "t", "/home/u/Music/t.txt", 0), Err(LibraryError::UnsupportedPath));
    assert_eq!(c.restore_entry(7, "b", "/home/u/Music/b.mp3", 0), Err(LibraryError::IdTaken));
    assert_eq!(c.restore_entry(65535, "b", "/home/u/Music/b.mp3", 0), Err(LibraryError::IdsExhausted));
    add_song(&mut c, "/home/u/Music/n.mp3");
    assert_eq!(c.find_entry_by_path("/home/u/Music/n.mp3").unwrap().id(), 8);
}

#[test]
fn second_scan_changes_nothing() {
    let mut c = catalog();
    let disk = files(&["/home/u/Music/a.mp3", "/home/u/Music/c.ogg"]);
    reconcile(&mut c, ROOT, &disk);
    c.create_playlist("P").unwrap();
    c.add_playlist_song("P", 2).unwrap();
    let before: Vec<(u16, String, String, u16)> =
        c.get_all_songs().iter().map(|s| (s.id(), s.title(), s.path(), s.count())).collect();
    reconcile(&mut c, ROOT, &disk);
    let after: Vec<(u16, String, String, u16)> =
        c.get_all_songs().iter().map(|s| (s.id(), s.title(), s.path(), s.count())).collect();
    assert_eq!(before, after);
    let ids: Vec<u16> = c.get_playlist("P").unwrap().iter().map(|s| s.id()).collect();
    assert_eq!(ids, vec![2]);
}

#[test]
fn rename_gives_new_row() {
    let mut c = catalog();
    c.restore_entry(4, "a", "/home/u/Music/a.mp3", 5).unwrap();
    handle_event(&mut c, &ev(EventKind::RenameFrom, "/home/u/Music/a.mp3"));
    handle_event(&mut c, &ev(EventKind::RenameTo, "/home/u/Music/b.mp3"));
    let b = c.find_entry_by_path("/home/u/Music/b.mp3").unwrap();
    assert_eq!((b.id(), b.title(), b.count()), (5, "b".to_string(), 0));
}

#[test]
fn clones_keep_contents() {
    let s = Song::new(3, "a".to_string(), "/m/a.mp3".to_string(), 7);
    let t = s.clone();
    assert_eq!((t.id(), t.title(), t.path(), t.count()), (3, "a".to_string(), "/m/a.mp3".to_string(), 7));
    let p = Playlist::from("p".to_string(), vec![s]);
    assert_eq!(p.clone().name(), "p");
}
