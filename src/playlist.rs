use crate::song::{Song, SongView};
use vstd::prelude::*;
use vstd::std_specs::slice::into_iter_elts;

verus! {

/// The position of the first song of `songs` whose identifier is `id`, if any.
pub open spec fn first_with_id(songs: Seq<SongView>, id: u16) -> Option<int>
    decreases songs.len(),
{
    if songs.len() == 0 {
        None
    } else if songs[0].id == id {
        Some(0)
    } else {
        match first_with_id(songs.drop_first(), id) {
            Some(i) => Some(i + 1),
            None => None,
        }
    }
}

pub proof fn lemma_first_with_id(songs: Seq<SongView>, id: u16)
    ensures
        match first_with_id(songs, id) {
            Some(i) => 0 <= i < songs.len() && songs[i].id == id && forall|j: int|
                0 <= j < i ==> songs[j].id != id,
            None => forall|j: int| 0 <= j < songs.len() ==> songs[j].id != id,
        },
    decreases songs.len(),
{
    if songs.len() > 0 {
        lemma_first_with_id(songs.drop_first(), id);
        assert forall|j: int| 1 <= j < songs.len() implies songs[j] == songs.drop_first()[j - 1] by {}
    }
}

/// A named, ordered list of songs, as handed to the presentation layer.
#[derive(Debug, Clone)]
pub struct Playlist {
    name: String,
    songs: Vec<Song>,
}

impl Playlist {
    /// The playlist's name.
    pub closed spec fn name_view(&self) -> Seq<char> {
        self.name@
    }

    /// The playlist's songs, in order.
    pub closed spec fn songs_view(&self) -> Seq<SongView> {
        self.songs@.map_values(|s: Song| s@)
    }

    pub fn new(name: String) -> (r: Self)
        ensures
            r.name_view() == name@,
            r.songs_view() == Seq::<SongView>::empty(),
    {
        let r = Self { name, songs: Vec::new() };
        assert(r.songs_view() =~= Seq::<SongView>::empty());
        r
    }

    pub fn from(name: String, songs: Vec<Song>) -> (r: Self)
        ensures
            r.name_view() == name@,
            r.songs_view() == songs@.map_values(|s: Song| s@),
    {
        Self { name, songs }
    }

    pub fn name(&self) -> (r: String)
        ensures
            r@ == self.name_view(),
    {
        self.name.clone()
    }

    pub fn set_songs(&mut self, songs: Vec<Song>)
        ensures
            final(self).name_view() == old(self).name_view(),
            final(self).songs_view() == songs@.map_values(|s: Song| s@),
    {
        self.songs = songs;
    }

    /// The first song of the playlist whose identifier is `id`.
    pub fn get_song(&self, id: u16) -> (r: Option<&Song>)
        ensures
            match first_with_id(self.songs_view(), id) {
                Some(i) => r is Some && r->0@ == self.songs_view()[i],
                None => r is None,
            },
    {
        proof {
            lemma_first_with_id(self.songs_view(), id);
        }
        let mut i: usize = 0;
        while i < self.songs.len()
            invariant
                i <= self.songs@.len(),
                forall|j: int| 0 <= j < i ==> self.songs_view()[j].id != id,
                match first_with_id(self.songs_view(), id) {
                    Some(k) => 0 <= k < self.songs_view().len() && self.songs_view()[k].id == id
                        && forall|j: int| 0 <= j < k ==> self.songs_view()[j].id != id,
                    None => forall|j: int|
                        0 <= j < self.songs_view().len() ==> self.songs_view()[j].id != id,
                },
            decreases self.songs@.len() - i,
        {
            if self.songs[i].id() == id {
                let ghost k = first_with_id(self.songs_view(), id);
                assert(self.songs_view()[i as int] == self.songs@[i as int]@);
                proof {
                    if k is Some {
                        let kk = k->0;
                        assert(kk == i) by {
                            if kk < i {
                            } else if kk > i {
                            }
                        }
                    }
                }
                return Some(&self.songs[i]);
            }
            i = i + 1;
        }
        None
    }

    pub fn add_song(&mut self, song: Song)
        ensures
            final(self).name_view() == old(self).name_view(),
            final(self).songs_view() == old(self).songs_view().push(song@),
    {
        self.songs.push(song);
        assert(self.songs_view() =~= old(self).songs_view().push(song@));
    }

    /// Removes the first song that is the same song as `song` (same identifier).
    pub fn remove_song(&mut self, song: Song)
        ensures
            final(self).name_view() == old(self).name_view(),
            match first_with_id(old(self).songs_view(), song@.id) {
                Some(i) => final(self).songs_view() == old(self).songs_view().remove(i),
                None => final(self).songs_view() == old(self).songs_view(),
            },
    {
        proof {
            lemma_first_with_id(self.songs_view(), song@.id);
        }
        let mut i: usize = 0;
        while i < self.songs.len()
            invariant
                i <= self.songs@.len(),
                self.songs == old(self).songs,
                self.name == old(self).name,
                forall|j: int| 0 <= j < i ==> self.songs_view()[j].id != song@.id,
                match first_with_id(self.songs_view(), song@.id) {
                    Some(k) => 0 <= k < self.songs_view().len() && self.songs_view()[k].id
                        == song@.id && forall|j: int|
                        0 <= j < k ==> self.songs_view()[j].id != song@.id,
                    None => forall|j: int|
                        0 <= j < self.songs_view().len() ==> self.songs_view()[j].id != song@.id,
                },
            decreases self.songs@.len() - i,
        {
            assert(self.songs_view()[i as int] == self.songs@[i as int]@);
            if self.songs[i] == song {
                let ghost k = first_with_id(self.songs_view(), song@.id);
                proof {
                    if k is Some {
                        let kk = k->0;
                        assert(kk == i) by {
                            if kk < i {
                            } else if kk > i {
                            }
                        }
                    }
                }
                self.songs.remove(i);
                assert(self.songs_view() =~= old(self).songs_view().remove(i as int));
                return;
            }
            i = i + 1;
        }
    }

    /// The songs of the playlist, in order.
    pub fn iter(&self) -> (r: std::slice::Iter<'_, Song>)
        ensures
            into_iter_elts(r).map_values(|s: Song| s@) == self.songs_view(),
    {
        let r = self.songs.iter();
        proof {
            broadcast use vstd::std_specs::slice::axiom_spec_slice_iter;
            assert(vstd::std_specs::iter::IteratorSpec::remaining(&r).unref() =~= self.songs@);
        }
        r
    }

    /// The songs of the playlist, in order, open to change in place.
    pub fn iter_mut(&mut self) -> (r: &mut [Song])
        ensures
            r@.map_values(|s: Song| s@) == old(self).songs_view(),
            final(self).songs_view() == final(r)@.map_values(|s: Song| s@),
            final(self).name_view() == old(self).name_view(),
    {
        self.songs.as_mut_slice()
    }
}

} // verus!
