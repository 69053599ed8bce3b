//! Songs as the player lists them.

use vstd::prelude::*;

verus! {

/// A song: its service id, tags, file name, cover image and play time.
#[derive(Debug, Clone)]
pub struct Song {
    pub id: String,
    pub title: String,
    pub artist: String,
    pub album: String,
    pub filename: String,
    pub img: String,
    pub duration: String,
}

impl Song {
    /// A song with every field empty.
    pub fn new() -> (s: Song)
        ensures
            s.id@ == Seq::<char>::empty(),
            s.title@ == Seq::<char>::empty(),
            s.artist@ == Seq::<char>::empty(),
            s.album@ == Seq::<char>::empty(),
            s.filename@ == Seq::<char>::empty(),
            s.img@ == Seq::<char>::empty(),
            s.duration@ == Seq::<char>::empty(),
    {
        Song {
            id: String::new(),
            title: String::new(),
            artist: String::new(),
            album: String::new(),
            filename: String::new(),
            img: String::new(),
            duration: String::new(),
        }
    }

    /// A field-by-field copy.
    pub fn duplicate(&self) -> (s: Song)
        ensures
            s == *self,
    {
        Song {
            id: self.id.clone(),
            title: self.title.clone(),
            artist: self.artist.clone(),
            album: self.album.clone(),
            filename: self.filename.clone(),
            img: self.img.clone(),
            duration: self.duration.clone(),
        }
    }
}

} // verus!
