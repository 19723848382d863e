//! A media library index: a catalog of media files under watched directories,
//! kept in step with the filesystem by full reconciliation scans and by live
//! change events, together with named playlists that reference catalog entries.

pub mod song;
pub mod playlist;
pub mod media;
pub mod catalog;
pub mod sync;
pub mod lemmas;

pub use catalog::{Catalog, LibraryError};
pub use media::{file_name_of, is_media_file, is_under_root, title_from_filename, TitleError};
pub use playlist::Playlist;
pub use song::{Song, SongView};
pub use sync::{
    add_dir, add_song, classify_event, handle_event, reconcile, remove_dir, remove_song, Action,
    EventKind, FsEvent,
};
