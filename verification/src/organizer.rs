use vstd::prelude::*;

use crate::mp3::MusicFileData;

verus! {

/// An artist as the directory walker reports it: a name and the albums found
/// under it.
#[derive(Debug)]
pub struct Artist {
    pub name: String,
    pub albums: Vec<Album>,
}

/// An album as the directory walker reports it: a name, the tracks that were
/// read, and how many files the album folder held.
#[derive(Debug)]
pub struct Album {
    pub name: String,
    pub tracks: Vec<MusicFileData>,
    pub track_count: usize,
}

impl Album {
    pub fn new(name: &str, tracks: Vec<MusicFileData>, track_count: usize) -> (r: Album)
        ensures
            r.name@ == name@,
            r.tracks == tracks,
            r.track_count == track_count,
    {
        Album { name: name.to_string(), tracks, track_count }
    }
}

impl Artist {
    pub fn new(name: &str, albums: Vec<Album>) -> (r: Artist)
        ensures
            r.name@ == name@,
            r.albums == albums,
    {
        Artist { name: name.to_string(), albums }
    }
}

} // verus!
