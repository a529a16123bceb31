use vstd::prelude::*;

verus! {

/// What can go wrong reading a music file's metadata.
#[derive(Debug)]
pub enum FileError {
    InvalidFormat,
}

/// The metadata of one music file, as the format reader reports it.
#[derive(Debug)]
pub struct MusicFileData {
    pub path: String,
    pub version: String,
    pub layer: String,
    pub bitrate: u16,
    pub sampling_freq: u16,
    pub channel_type: String,
    pub title: String,
    pub artist: String,
    pub album: String,
    pub year: u16,
    pub genre: String,
    pub hash: String,
}

impl MusicFileData {
    /// A placeholder record with fixed fields.
    pub fn new() -> (r: MusicFileData)
        ensures
            r.bitrate == 12600,
            r.sampling_freq == 12600,
            r.year == 2019,
    {
        MusicFileData {
            path: "a".to_string(),
            version: "a".to_string(),
            layer: "a".to_string(),
            bitrate: 12600,
            sampling_freq: 12600,
            channel_type: "a".to_string(),
            title: "a".to_string(),
            artist: "a".to_string(),
            album: "a".to_string(),
            year: 2019,
            genre: "a".to_string(),
            hash: "".to_string(),
        }
    }
}

} // verus!
