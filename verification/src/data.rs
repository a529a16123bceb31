use vstd::prelude::*;

use crate::peer::{clone_opt_bytes, copy_bytes, opt_bytes_view};
use crate::utils::{
    MessageCodecError, buf_bytes, buf_byte_at, buf_extend, buf_len, buf_new, buf_put_u16,
    buf_put_u8, buf_put_u64, buf_split_to, buf_unsplit, get_nstring, lemma_concat_assoc, lemma_concat_take_skip,
    lemma_trim_zeros_id, lemma_u16_be_roundtrip, lemma_u64_be_roundtrip, spec_u16_from_be_bytes,
    spec_u16_to_be_bytes, spec_u64_from_be_bytes, spec_u64_to_be_bytes, take_u16, take_u64,
    trim_zeros,
};

verus! {

/// One track of an album: its title with the bitrate and length that the
/// catalog reports, and optional back-references to the album and artist.
/// Only the title, bitrate and length travel on the wire.
#[derive(Debug, PartialEq)]
pub struct TrackData {
    pub artist: Option<Vec<u8>>,
    pub album: Option<Vec<u8>>,
    pub title: Vec<u8>,
    pub bitrate: u16,
    pub length: u8,
}

#[verifier::ext_equal]
pub ghost struct TrackView {
    pub artist: Option<Seq<u8>>,
    pub album: Option<Seq<u8>>,
    pub title: Seq<u8>,
    pub bitrate: u16,
    pub length: u8,
}

impl View for TrackData {
    type V = TrackView;

    open spec fn view(&self) -> TrackView {
        TrackView {
            artist: opt_bytes_view(self.artist),
            album: opt_bytes_view(self.album),
            title: self.title@,
            bitrate: self.bitrate,
            length: self.length,
        }
    }
}

/// One album: an optional artist back-reference, the title, the number of
/// tracks the owner reports, and optionally the tracks themselves.
#[derive(Debug, PartialEq)]
pub struct AlbumData {
    pub artist: Option<Vec<u8>>,
    pub album_title: Vec<u8>,
    pub track_count: u8,
    pub tracks: Option<Vec<TrackData>>,
}

#[verifier::ext_equal]
pub ghost struct AlbumView {
    pub artist: Option<Seq<u8>>,
    pub album_title: Seq<u8>,
    pub track_count: u8,
    pub tracks: Option<Seq<TrackView>>,
}

pub open spec fn tracks_view(s: Seq<TrackData>) -> Seq<TrackView> {
    s.map_values(|t: TrackData| t@)
}

pub open spec fn opt_tracks_view(o: Option<Vec<TrackData>>) -> Option<Seq<TrackView>> {
    match o {
        Some(v) => Some(tracks_view(v@)),
        None => None,
    }
}

impl View for AlbumData {
    type V = AlbumView;

    open spec fn view(&self) -> AlbumView {
        AlbumView {
            artist: opt_bytes_view(self.artist),
            album_title: self.album_title@,
            track_count: self.track_count,
            tracks: opt_tracks_view(self.tracks),
        }
    }
}

/// One artist with, optionally, the albums the catalog holds for it.
#[derive(Debug, PartialEq)]
pub struct ArtistData {
    pub artist: Vec<u8>,
    pub albums: Option<Vec<AlbumData>>,
}

#[verifier::ext_equal]
pub ghost struct ArtistView {
    pub artist: Seq<u8>,
    pub albums: Option<Seq<AlbumView>>,
}

pub open spec fn albums_view(s: Seq<AlbumData>) -> Seq<AlbumView> {
    s.map_values(|a: AlbumData| a@)
}

pub open spec fn opt_albums_view(o: Option<Vec<AlbumData>>) -> Option<Seq<AlbumView>> {
    match o {
        Some(v) => Some(albums_view(v@)),
        None => None,
    }
}

impl View for ArtistData {
    type V = ArtistView;

    open spec fn view(&self) -> ArtistView {
        ArtistView { artist: self.artist@, albums: opt_albums_view(self.albums) }
    }
}

/// A whole catalog: the artists a peer holds, in a stable order.
#[derive(Debug, PartialEq)]
pub struct Collection {
    pub artists: Vec<ArtistData>,
}

pub open spec fn artists_view(s: Seq<ArtistData>) -> Seq<ArtistView> {
    s.map_values(|a: ArtistData| a@)
}

impl View for Collection {
    type V = Seq<ArtistView>;

    open spec fn view(&self) -> Seq<ArtistView> {
        artists_view(self.artists@)
    }
}

impl TrackData {
    pub fn new(title: Vec<u8>, bitrate: u16, length: u8) -> (r: TrackData)
        ensures
            r@ == (TrackView { artist: None, album: None, title: title@, bitrate, length }),
    {
        TrackData { artist: None, album: None, title, bitrate, length }
    }
}

impl Clone for TrackData {
    fn clone(&self) -> (r: TrackData)
        ensures
            r@ == self@,
    {
        TrackData {
            artist: clone_opt_bytes(&self.artist),
            album: clone_opt_bytes(&self.album),
            title: copy_bytes(&self.title),
            bitrate: self.bitrate,
            length: self.length,
        }
    }
}

/// Element-wise copy of a track list.
pub fn clone_tracks(v: &Vec<TrackData>) -> (r: Vec<TrackData>)
    ensures
        tracks_view(r@) == tracks_view(v@),
{
    let mut r: Vec<TrackData> = Vec::new();
    let mut i: usize = 0;
    while i < v.len()
        invariant
            i <= v@.len(),
            r@.len() == i,
            forall|j: int| 0 <= j < i ==> (#[trigger] r@[j])@ == v@[j]@,
        decreases v@.len() - i,
    {
        r.push(v[i].clone());
        i = i + 1;
    }
    assert(tracks_view(r@) =~= tracks_view(v@));
    r
}

impl AlbumData {
    pub fn new(
        artist: Option<Vec<u8>>,
        album_title: Vec<u8>,
        track_count: u8,
        tracks: Option<Vec<TrackData>>,
    ) -> (r: AlbumData)
        ensures
            r@ == (AlbumView {
                artist: opt_bytes_view(artist),
                album_title: album_title@,
                track_count,
                tracks: opt_tracks_view(tracks),
            }),
    {
        AlbumData { artist, album_title, track_count, tracks }
    }
}

impl Clone for AlbumData {
    fn clone(&self) -> (r: AlbumData)
        ensures
            r@ == self@,
    {
        AlbumData {
            artist: clone_opt_bytes(&self.artist),
            album_title: copy_bytes(&self.album_title),
            track_count: self.track_count,
            tracks: match &self.tracks {
                Some(v) => Some(clone_tracks(v)),
                None => None,
            },
        }
    }
}

/// Element-wise copy of an album list.
pub fn clone_albums(v: &Vec<AlbumData>) -> (r: Vec<AlbumData>)
    ensures
        albums_view(r@) == albums_view(v@),
{
    let mut r: Vec<AlbumData> = Vec::new();
    let mut i: usize = 0;
    while i < v.len()
        invariant
            i <= v@.len(),
            r@.len() == i,
            forall|j: int| 0 <= j < i ==> (#[trigger] r@[j])@ == v@[j]@,
        decreases v@.len() - i,
    {
        r.push(v[i].clone());
        i = i + 1;
    }
    assert(albums_view(r@) =~= albums_view(v@));
    r
}

impl ArtistData {
    pub fn new(artist: Vec<u8>, albums: Option<Vec<AlbumData>>) -> (r: ArtistData)
        ensures
            r@ == (ArtistView { artist: artist@, albums: opt_albums_view(albums) }),
    {
        ArtistData { artist, albums }
    }
}

impl Clone for ArtistData {
    fn clone(&self) -> (r: ArtistData)
        ensures
            r@ == self@,
    {
        ArtistData {
            artist: copy_bytes(&self.artist),
            albums: match &self.albums {
                Some(v) => Some(clone_albums(v)),
                None => None,
            },
        }
    }
}

/// Element-wise copy of an artist list.
pub fn clone_artists(v: &Vec<ArtistData>) -> (r: Vec<ArtistData>)
    ensures
        artists_view(r@) == artists_view(v@),
{
    let mut r: Vec<ArtistData> = Vec::new();
    let mut i: usize = 0;
    while i < v.len()
        invariant
            i <= v@.len(),
            r@.len() == i,
            forall|j: int| 0 <= j < i ==> (#[trigger] r@[j])@ == v@[j]@,
        decreases v@.len() - i,
    {
        r.push(v[i].clone());
        i = i + 1;
    }
    assert(artists_view(r@) =~= artists_view(v@));
    r
}

impl Collection {
    pub fn new(artists: Vec<ArtistData>) -> (r: Collection)
        ensures
            r@ == artists_view(artists@),
    {
        Collection { artists }
    }
}

impl Clone for Collection {
    fn clone(&self) -> (r: Collection)
        ensures
            r@ == self@,
    {
        Collection { artists: clone_artists(&self.artists) }
    }
}

/// Wire form of a string with an eight-byte length prefix.
pub open spec fn spec_str_u64(s: Seq<u8>) -> Seq<u8> {
    spec_u64_to_be_bytes(s.len() as u64) + s
}

/// Wire form of an optional string with an eight-byte length prefix; a zero
/// length stands for an absent string.
pub open spec fn spec_opt_str_u64(o: Option<Seq<u8>>) -> Seq<u8> {
    match o {
        Some(s) => spec_str_u64(s),
        None => spec_u64_to_be_bytes(0),
    }
}

/// Wire form of a track: the title, the bitrate, the length.
pub open spec fn spec_track_bytes(t: TrackView) -> Seq<u8> {
    spec_str_u64(t.title) + spec_u16_to_be_bytes(t.bitrate) + seq![t.length]
}

pub open spec fn spec_tracks_bytes(ts: Seq<TrackView>) -> Seq<u8>
    decreases ts.len(),
{
    if ts.len() == 0 {
        Seq::<u8>::empty()
    } else {
        spec_track_bytes(ts[0]) + spec_tracks_bytes(ts.skip(1))
    }
}

/// Wire form of an album: the optional artist, the title, the reported track
/// count, a flag telling whether tracks follow, and then the tracks.
pub open spec fn spec_album_bytes(a: AlbumView) -> Seq<u8> {
    spec_opt_str_u64(a.artist) + spec_str_u64(a.album_title) + seq![a.track_count] + (
    match a.tracks {
        None => seq![0u8],
        Some(ts) => seq![1u8] + spec_u64_to_be_bytes(ts.len() as u64) + spec_tracks_bytes(ts),
    })
}

pub open spec fn spec_albums_bytes(s: Seq<AlbumView>) -> Seq<u8>
    decreases s.len(),
{
    if s.len() == 0 {
        Seq::<u8>::empty()
    } else {
        spec_album_bytes(s[0]) + spec_albums_bytes(s.skip(1))
    }
}

/// Wire form of an artist: the name, then the album count and the albums; an
/// absent album list is written as a zero count.
pub open spec fn spec_artist_bytes(a: ArtistView) -> Seq<u8> {
    spec_str_u64(a.artist) + (match a.albums {
        None => spec_u64_to_be_bytes(0),
        Some(al) => spec_u64_to_be_bytes(al.len() as u64) + spec_albums_bytes(al),
    })
}

pub open spec fn spec_artists_bytes(s: Seq<ArtistView>) -> Seq<u8>
    decreases s.len(),
{
    if s.len() == 0 {
        Seq::<u8>::empty()
    } else {
        spec_artist_bytes(s[0]) + spec_artists_bytes(s.skip(1))
    }
}

/// A string that survives the round trip through an eight-byte length prefix:
/// non-empty and without trailing NUL padding.
pub open spec fn wf_str(s: Seq<u8>) -> bool {
    0 < s.len() <= u64::MAX && s[s.len() - 1] != 0
}

pub open spec fn wf_opt_str64(o: Option<Seq<u8>>) -> bool {
    match o {
        Some(s) => wf_str(s),
        None => true,
    }
}

/// A track that survives the round trip: the back-references never travel on
/// the wire, so they must be absent.
pub open spec fn wf_track(t: TrackView) -> bool {
    t.artist is None && t.album is None && wf_str(t.title)
}

pub open spec fn wf_tracks(ts: Seq<TrackView>) -> bool {
    ts.len() <= u64::MAX && forall|i: int| 0 <= i < ts.len() ==> wf_track(#[trigger] ts[i])
}

pub open spec fn wf_album(a: AlbumView) -> bool {
    wf_opt_str64(a.artist) && wf_str(a.album_title) && match a.tracks {
        None => true,
        Some(ts) => wf_tracks(ts),
    }
}

pub open spec fn wf_albums(s: Seq<AlbumView>) -> bool {
    s.len() <= u64::MAX && forall|i: int| 0 <= i < s.len() ==> wf_album(#[trigger] s[i])
}

/// An artist that survives the round trip: an empty album list would be read
/// back as an absent one, so a present list is non-empty.
pub open spec fn wf_artist(a: ArtistView) -> bool {
    wf_str(a.artist) && match a.albums {
        None => true,
        Some(al) => 0 < al.len() && wf_albums(al),
    }
}

pub open spec fn wf_artists(s: Seq<ArtistView>) -> bool {
    s.len() <= u64::MAX && forall|i: int| 0 <= i < s.len() ==> wf_artist(#[trigger] s[i])
}

pub open spec fn spec_parse_u8(s: Seq<u8>) -> Result<(u8, Seq<u8>), MessageCodecError> {
    if s.len() < 1 {
        Err(MessageCodecError::SerializationError)
    } else {
        Ok((s[0], s.skip(1)))
    }
}

pub open spec fn spec_parse_u16(s: Seq<u8>) -> Result<(u16, Seq<u8>), MessageCodecError> {
    if s.len() < 2 {
        Err(MessageCodecError::SerializationError)
    } else {
        Ok((spec_u16_from_be_bytes(s.take(2)), s.skip(2)))
    }
}

pub open spec fn spec_parse_u64(s: Seq<u8>) -> Result<(u64, Seq<u8>), MessageCodecError> {
    if s.len() < 8 {
        Err(MessageCodecError::SerializationError)
    } else {
        Ok((spec_u64_from_be_bytes(s.take(8)), s.skip(8)))
    }
}

/// Parses a required string behind an eight-byte length prefix; a zero length
/// is a malformed record.
pub open spec fn spec_parse_str_u64(s: Seq<u8>) -> Result<(Seq<u8>, Seq<u8>), MessageCodecError> {
    match spec_parse_u64(s) {
        Err(e) => Err(e),
        Ok((n, t)) => if n == 0 {
            Err(MessageCodecError::SerializationError)
        } else if t.len() < n {
            Err(MessageCodecError::DataLengthMismatch)
        } else {
            Ok((trim_zeros(t.take(n as int)), t.skip(n as int)))
        },
    }
}

/// Parses an optional string behind an eight-byte length prefix; a zero
/// length stands for an absent string.
pub open spec fn spec_parse_optstr_u64(s: Seq<u8>) -> Result<
    (Option<Seq<u8>>, Seq<u8>),
    MessageCodecError,
> {
    match spec_parse_u64(s) {
        Err(e) => Err(e),
        Ok((n, t)) => if n == 0 {
            Ok((None, t))
        } else if t.len() < n {
            Err(MessageCodecError::DataLengthMismatch)
        } else {
            Ok((Some(trim_zeros(t.take(n as int))), t.skip(n as int)))
        },
    }
}

pub open spec fn spec_parse_track(s: Seq<u8>) -> Result<(TrackView, Seq<u8>), MessageCodecError> {
    match spec_parse_str_u64(s) {
        Err(e) => Err(e),
        Ok((title, s1)) => match spec_parse_u16(s1) {
            Err(e) => Err(e),
            Ok((bitrate, s2)) => match spec_parse_u8(s2) {
                Err(e) => Err(e),
                Ok((length, s3)) => Ok(
                    (TrackView { artist: None, album: None, title, bitrate, length }, s3),
                ),
            },
        },
    }
}

pub open spec fn spec_parse_tracks(s: Seq<u8>, n: int) -> Result<
    (Seq<TrackView>, Seq<u8>),
    MessageCodecError,
>
    decreases n,
{
    if n <= 0 {
        Ok((Seq::<TrackView>::empty(), s))
    } else {
        match spec_parse_track(s) {
            Err(e) => Err(e),
            Ok((t, s1)) => match spec_parse_tracks(s1, n - 1) {
                Err(e) => Err(e),
                Ok((ts, s2)) => Ok((seq![t] + ts, s2)),
            },
        }
    }
}

pub open spec fn spec_parse_album(s: Seq<u8>) -> Result<(AlbumView, Seq<u8>), MessageCodecError> {
    match spec_parse_optstr_u64(s) {
        Err(e) => Err(e),
        Ok((artist, s1)) => match spec_parse_str_u64(s1) {
            Err(e) => Err(e),
            Ok((album_title, s2)) => match spec_parse_u8(s2) {
                Err(e) => Err(e),
                Ok((track_count, s3)) => match spec_parse_u8(s3) {
                    Err(e) => Err(e),
                    Ok((has_tracks, s4)) => if has_tracks == 1 {
                        match spec_parse_u64(s4) {
                            Err(e) => Err(e),
                            Ok((n, s5)) => match spec_parse_tracks(s5, n as int) {
                                Err(e) => Err(e),
                                Ok((ts, s6)) => Ok(
                                    (
                                        AlbumView {
                                            artist,
                                            album_title,
                                            track_count,
                                            tracks: Some(ts),
                                        },
                                        s6,
                                    ),
                                ),
                            },
                        }
                    } else {
                        Ok((AlbumView { artist, album_title, track_count, tracks: None }, s4))
                    },
                },
            },
        },
    }
}

pub open spec fn spec_parse_albums(s: Seq<u8>, n: int) -> Result<
    (Seq<AlbumView>, Seq<u8>),
    MessageCodecError,
>
    decreases n,
{
    if n <= 0 {
        Ok((Seq::<AlbumView>::empty(), s))
    } else {
        match spec_parse_album(s) {
            Err(e) => Err(e),
            Ok((a, s1)) => match spec_parse_albums(s1, n - 1) {
                Err(e) => Err(e),
                Ok((al, s2)) => Ok((seq![a] + al, s2)),
            },
        }
    }
}

pub open spec fn spec_parse_artist(s: Seq<u8>) -> Result<(ArtistView, Seq<u8>), MessageCodecError> {
    match spec_parse_str_u64(s) {
        Err(e) => Err(e),
        Ok((artist, s1)) => match spec_parse_u64(s1) {
            Err(e) => Err(e),
            Ok((n, s2)) => if n == 0 {
                Ok((ArtistView { artist, albums: None }, s2))
            } else {
                match spec_parse_albums(s2, n as int) {
                    Err(e) => Err(e),
                    Ok((al, s3)) => Ok((ArtistView { artist, albums: Some(al) }, s3)),
                }
            },
        },
    }
}

pub open spec fn spec_parse_artists(s: Seq<u8>, n: int) -> Result<
    (Seq<ArtistView>, Seq<u8>),
    MessageCodecError,
>
    decreases n,
{
    if n <= 0 {
        Ok((Seq::<ArtistView>::empty(), s))
    } else {
        match spec_parse_artist(s) {
            Err(e) => Err(e),
            Ok((a, s1)) => match spec_parse_artists(s1, n - 1) {
                Err(e) => Err(e),
                Ok((al, s2)) => Ok((seq![a] + al, s2)),
            },
        }
    }
}

/// Reads one byte off the front of the buffer.
pub(crate) fn read_u8(buf: &mut bytes::BytesMut) -> (r: Result<u8, MessageCodecError>)
    ensures
        match spec_parse_u8(buf_bytes(*old(buf))) {
            Ok((v, rest)) => r == Ok::<u8, MessageCodecError>(v) && buf_bytes(*final(buf)) == rest,
            Err(e) => r == Err::<u8, MessageCodecError>(e),
        },
{
    if buf_len(buf) < 1 {
        return Err(MessageCodecError::SerializationError);
    }
    let b = buf_byte_at(buf, 0);
    let _ = buf_split_to(buf, 1);
    Ok(b)
}

/// Reads a required string behind an eight-byte length prefix.
pub(crate) fn read_str_u64(buf: &mut bytes::BytesMut) -> (r: Result<Vec<u8>, MessageCodecError>)
    ensures
        match spec_parse_str_u64(buf_bytes(*old(buf))) {
            Ok((sv, rest)) => (r matches Ok(v) && v@ == sv) && buf_bytes(*final(buf)) == rest,
            Err(e) => r == Err::<Vec<u8>, MessageCodecError>(e),
        },
{
    let n = match take_u64(buf) {
        Ok(v) => v,
        Err(e) => {
            return Err(e);
        },
    };
    if n == 0 {
        return Err(MessageCodecError::SerializationError);
    }
    if (buf_len(buf) as u64) < n {
        return Err(MessageCodecError::DataLengthMismatch);
    }
    match get_nstring(buf, n as usize) {
        Some(v) => Ok(v),
        None => Err(MessageCodecError::SerializationError),
    }
}

/// Reads an optional string behind an eight-byte length prefix.
pub(crate) fn read_opt_str_u64(buf: &mut bytes::BytesMut) -> (r: Result<
    Option<Vec<u8>>,
    MessageCodecError,
>)
    ensures
        match spec_parse_optstr_u64(buf_bytes(*old(buf))) {
            Ok((o, rest)) => (r matches Ok(v) && opt_bytes_view(v) == o) && buf_bytes(*final(buf))
                == rest,
            Err(e) => r == Err::<Option<Vec<u8>>, MessageCodecError>(e),
        },
{
    let n = match take_u64(buf) {
        Ok(v) => v,
        Err(e) => {
            return Err(e);
        },
    };
    if n == 0 {
        return Ok(None);
    }
    if (buf_len(buf) as u64) < n {
        return Err(MessageCodecError::DataLengthMismatch);
    }
    let v = get_nstring(buf, n as usize);
    Ok(v)
}

/// Appends a string in its eight-byte length-prefixed wire form.
pub(crate) fn put_str_u64(buf: &mut bytes::BytesMut, v: &Vec<u8>)
    ensures
        buf_bytes(*final(buf)) == buf_bytes(*old(buf)) + spec_str_u64(v@),
{
    buf_put_u64(buf, v.len() as u64);
    buf_extend(buf, v.as_slice());
    assert(buf_bytes(*buf) =~= buf_bytes(*old(buf)) + spec_str_u64(v@));
}

/// Appends an optional string in its eight-byte length-prefixed wire form.
pub(crate) fn put_opt_str_u64(buf: &mut bytes::BytesMut, o: &Option<Vec<u8>>)
    ensures
        buf_bytes(*final(buf)) == buf_bytes(*old(buf)) + spec_opt_str_u64(opt_bytes_view(*o)),
{
    match o {
        Some(v) => {
            put_str_u64(buf, v);
        },
        None => {
            buf_put_u64(buf, 0);
        },
    }
}

impl TrackData {
    /// Writes the track in its wire form.
    pub fn to_bytes(&self) -> (r: bytes::BytesMut)
        ensures
            buf_bytes(r) == spec_track_bytes(self@),
    {
        let mut buf = buf_new();
        put_str_u64(&mut buf, &self.title);
        buf_put_u16(&mut buf, self.bitrate);
        buf_put_u8(&mut buf, self.length);
        proof {
            assert(buf_bytes(buf) =~= spec_track_bytes(self@));
        }
        buf
    }

    /// Reads one track off the front of the buffer.
    pub fn from_bytes(buf: &mut bytes::BytesMut) -> (r: Result<TrackData, MessageCodecError>)
        ensures
            match spec_parse_track(buf_bytes(*old(buf))) {
                Ok((tv, rest)) => (r matches Ok(t) && t@ == tv) && buf_bytes(*final(buf)) == rest,
                Err(e) => r == Err::<TrackData, MessageCodecError>(e),
            },
    {
        let title = match read_str_u64(buf) {
            Ok(v) => v,
            Err(e) => {
                return Err(e);
            },
        };
        let bitrate = match take_u16(buf) {
            Ok(v) => v,
            Err(e) => {
                return Err(e);
            },
        };
        let length = match read_u8(buf) {
            Ok(v) => v,
            Err(e) => {
                return Err(e);
            },
        };
        Ok(TrackData { artist: None, album: None, title, bitrate, length })
    }
}

/// Appending one record extends the wire form of a track list at its tail.
#[verifier::rlimit(100)]
#[verifier::spinoff_prover]
pub proof fn lemma_tracks_bytes_snoc(ts: Seq<TrackView>, t: TrackView)
    ensures
        spec_tracks_bytes(ts.push(t)) == spec_tracks_bytes(ts) + spec_track_bytes(t),
    decreases ts.len(),
{
    if ts.len() == 0 {
        assert(ts.push(t)[0] == t);
        assert(ts.push(t).skip(1) =~= Seq::<TrackView>::empty());
        assert(spec_tracks_bytes(Seq::<TrackView>::empty()) == Seq::<u8>::empty());
        assert(spec_tracks_bytes(ts.push(t)) == spec_track_bytes(t) + Seq::<u8>::empty());
        assert(spec_track_bytes(t) + Seq::<u8>::empty() =~= Seq::<u8>::empty() + spec_track_bytes(t));
        assert(spec_tracks_bytes(ts) + spec_track_bytes(t) == Seq::<u8>::empty() + spec_track_bytes(t));
    } else {
        assert(ts.push(t)[0] == ts[0]);
        assert(ts.push(t).skip(1) =~= ts.skip(1).push(t));
        lemma_tracks_bytes_snoc(ts.skip(1), t);
        lemma_concat_assoc(
            spec_track_bytes(ts[0]),
            spec_tracks_bytes(ts.skip(1)),
            spec_track_bytes(t),
        );
    }
}

/// Appending one record extends the wire form of an album list at its tail.
#[verifier::rlimit(100)]
#[verifier::spinoff_prover]
pub proof fn lemma_albums_bytes_snoc(s: Seq<AlbumView>, a: AlbumView)
    ensures
        spec_albums_bytes(s.push(a)) == spec_albums_bytes(s) + spec_album_bytes(a),
    decreases s.len(),
{
    if s.len() == 0 {
        assert(s.push(a)[0] == a);
        assert(s.push(a).skip(1) =~= Seq::<AlbumView>::empty());
        assert(spec_albums_bytes(Seq::<AlbumView>::empty()) == Seq::<u8>::empty());
        assert(spec_albums_bytes(s.push(a)) == spec_album_bytes(a) + Seq::<u8>::empty());
        assert(spec_album_bytes(a) + Seq::<u8>::empty() =~= Seq::<u8>::empty() + spec_album_bytes(a));
        assert(spec_albums_bytes(s) + spec_album_bytes(a) == Seq::<u8>::empty() + spec_album_bytes(a));
    } else {
        assert(s.push(a)[0] == s[0]);
        assert(s.push(a).skip(1) =~= s.skip(1).push(a));
        lemma_albums_bytes_snoc(s.skip(1), a);
        lemma_concat_assoc(spec_album_bytes(s[0]), spec_albums_bytes(s.skip(1)), spec_album_bytes(a));
    }
}

/// Appending one record extends the wire form of an artist list at its tail.
#[verifier::rlimit(100)]
#[verifier::spinoff_prover]
pub proof fn lemma_artists_bytes_snoc(s: Seq<ArtistView>, a: ArtistView)
    ensures
        spec_artists_bytes(s.push(a)) == spec_artists_bytes(s) + spec_artist_bytes(a),
    decreases s.len(),
{
    if s.len() == 0 {
        assert(s.push(a)[0] == a);
        assert(s.push(a).skip(1) =~= Seq::<ArtistView>::empty());
        assert(spec_artists_bytes(Seq::<ArtistView>::empty()) == Seq::<u8>::empty());
        assert(spec_artists_bytes(s.push(a)) == spec_artist_bytes(a) + Seq::<u8>::empty());
        assert(spec_artist_bytes(a) + Seq::<u8>::empty() =~= Seq::<u8>::empty() + spec_artist_bytes(a));
        assert(spec_artists_bytes(s) + spec_artist_bytes(a) == Seq::<u8>::empty() + spec_artist_bytes(a));
    } else {
        assert(s.push(a)[0] == s[0]);
        assert(s.push(a).skip(1) =~= s.skip(1).push(a));
        lemma_artists_bytes_snoc(s.skip(1), a);
        lemma_concat_assoc(
            spec_artist_bytes(s[0]),
            spec_artists_bytes(s.skip(1)),
            spec_artist_bytes(a),
        );
    }
}

/// Appends a track list in its wire form.
fn put_tracks(buf: &mut bytes::BytesMut, ts: &Vec<TrackData>)
    ensures
        buf_bytes(*final(buf)) == buf_bytes(*old(buf)) + spec_tracks_bytes(tracks_view(ts@)),
{
    let mut i: usize = 0;
    while i < ts.len()
        invariant
            i <= ts@.len(),
            buf_bytes(*buf) == buf_bytes(*old(buf)) + spec_tracks_bytes(
                tracks_view(ts@).take(i as int),
            ),
        decreases ts@.len() - i,
    {
        let tb = ts[i].to_bytes();
        buf_unsplit(buf, tb);
        proof {
            assert(tracks_view(ts@).take(i + 1) =~= tracks_view(ts@).take(i as int).push(
                ts@[i as int]@,
            ));
            lemma_tracks_bytes_snoc(tracks_view(ts@).take(i as int), ts@[i as int]@);
            lemma_concat_assoc(
                buf_bytes(*old(buf)),
                spec_tracks_bytes(tracks_view(ts@).take(i as int)),
                spec_track_bytes(ts@[i as int]@),
            );
        }
        i = i + 1;
    }
    proof {
        assert(tracks_view(ts@).take(ts@.len() as int) =~= tracks_view(ts@));
    }
}

impl AlbumData {
    /// Writes the album in its wire form.
    pub fn to_bytes(&self) -> (r: bytes::BytesMut)
        ensures
            buf_bytes(r) == spec_album_bytes(self@),
    {
        let mut buf = buf_new();
        put_opt_str_u64(&mut buf, &self.artist);
        put_str_u64(&mut buf, &self.album_title);
        buf_put_u8(&mut buf, self.track_count);
        match &self.tracks {
            Some(ts) => {
                buf_put_u8(&mut buf, 1);
                buf_put_u64(&mut buf, ts.len() as u64);
                put_tracks(&mut buf, ts);
            },
            None => {
                buf_put_u8(&mut buf, 0);
            },
        }
        proof {
            assert(buf_bytes(buf) =~= spec_album_bytes(self@));
        }
        buf
    }

    /// Reads one album off the front of the buffer.
    pub fn from_bytes(buf: &mut bytes::BytesMut) -> (r: Result<AlbumData, MessageCodecError>)
        ensures
            match spec_parse_album(buf_bytes(*old(buf))) {
                Ok((av, rest)) => (r matches Ok(a) && a@ == av) && buf_bytes(*final(buf)) == rest,
                Err(e) => r == Err::<AlbumData, MessageCodecError>(e),
            },
    {
        let artist = match read_opt_str_u64(buf) {
            Ok(v) => v,
            Err(e) => {
                return Err(e);
            },
        };
        let album_title = match read_str_u64(buf) {
            Ok(v) => v,
            Err(e) => {
                return Err(e);
            },
        };
        let track_count = match read_u8(buf) {
            Ok(v) => v,
            Err(e) => {
                return Err(e);
            },
        };
        let has_tracks = match read_u8(buf) {
            Ok(v) => v,
            Err(e) => {
                return Err(e);
            },
        };
        if has_tracks == 1 {
            let n = match take_u64(buf) {
                Ok(v) => v,
                Err(e) => {
                    return Err(e);
                },
            };
            let tracks = match read_tracks(buf, n) {
                Ok(v) => v,
                Err(e) => {
                    return Err(e);
                },
            };
            Ok(AlbumData { artist, album_title, track_count, tracks: Some(tracks) })
        } else {
            Ok(AlbumData { artist, album_title, track_count, tracks: None })
        }
    }
}

/// Reads `n` tracks off the front of the buffer.
#[verifier::rlimit(100)]
#[verifier::spinoff_prover]
fn read_tracks(buf: &mut bytes::BytesMut, n: u64) -> (r: Result<Vec<TrackData>, MessageCodecError>)
    ensures
        match spec_parse_tracks(buf_bytes(*old(buf)), n as int) {
            Ok((ts, rest)) => (r matches Ok(v) && tracks_view(v@) == ts) && buf_bytes(*final(buf))
                == rest,
            Err(e) => r == Err::<Vec<TrackData>, MessageCodecError>(e),
        },
{
    let ghost s0 = buf_bytes(*buf);
    let mut acc: Vec<TrackData> = Vec::new();
    let mut remaining = n;
    while remaining > 0
        invariant
            s0 == buf_bytes(*old(buf)),
            spec_parse_tracks(s0, n as int) == (match spec_parse_tracks(
                buf_bytes(*buf),
                remaining as int,
            ) {
                Ok((ts2, rest)) => Ok::<(Seq<TrackView>, Seq<u8>), MessageCodecError>(
                    (tracks_view(acc@) + ts2, rest),
                ),
                Err(e) => Err(e),
            }),
        decreases remaining,
    {
        let ghost cur = buf_bytes(*buf);
        let t = match TrackData::from_bytes(buf) {
            Ok(v) => v,
            Err(e) => {
                return Err(e);
            },
        };
        proof {
            let (tv, nxt) = spec_parse_track(cur)->Ok_0;
            assert(tracks_view(acc@.push(t)) =~= tracks_view(acc@).push(tv));
            match spec_parse_tracks(nxt, remaining - 1) {
                Ok((ts3, rest3)) => {
                    assert(tracks_view(acc@).push(tv) + ts3 =~= tracks_view(acc@) + (seq![tv]
                        + ts3));
                },
                Err(_) => {},
            }
        }
        acc.push(t);
        remaining = remaining - 1;
    }
    proof {
        assert(tracks_view(acc@) + Seq::<TrackView>::empty() =~= tracks_view(acc@));
    }
    Ok(acc)
}

/// Appends an album list in its wire form.
fn put_albums(buf: &mut bytes::BytesMut, al: &Vec<AlbumData>)
    ensures
        buf_bytes(*final(buf)) == buf_bytes(*old(buf)) + spec_albums_bytes(albums_view(al@)),
{
    let mut i: usize = 0;
    while i < al.len()
        invariant
            i <= al@.len(),
            buf_bytes(*buf) == buf_bytes(*old(buf)) + spec_albums_bytes(
                albums_view(al@).take(i as int),
            ),
        decreases al@.len() - i,
    {
        let ab = al[i].to_bytes();
        buf_unsplit(buf, ab);
        proof {
            assert(albums_view(al@).take(i + 1) =~= albums_view(al@).take(i as int).push(
                al@[i as int]@,
            ));
            lemma_albums_bytes_snoc(albums_view(al@).take(i as int), al@[i as int]@);
            lemma_concat_assoc(
                buf_bytes(*old(buf)),
                spec_albums_bytes(albums_view(al@).take(i as int)),
                spec_album_bytes(al@[i as int]@),
            );
        }
        i = i + 1;
    }
    proof {
        assert(albums_view(al@).take(al@.len() as int) =~= albums_view(al@));
    }
}

/// Reads `n` albums off the front of the buffer.
#[verifier::rlimit(100)]
#[verifier::spinoff_prover]
fn read_albums(buf: &mut bytes::BytesMut, n: u64) -> (r: Result<Vec<AlbumData>, MessageCodecError>)
    ensures
        match spec_parse_albums(buf_bytes(*old(buf)), n as int) {
            Ok((al, rest)) => (r matches Ok(v) && albums_view(v@) == al) && buf_bytes(*final(buf))
                == rest,
            Err(e) => r == Err::<Vec<AlbumData>, MessageCodecError>(e),
        },
{
    let ghost s0 = buf_bytes(*buf);
    let mut acc: Vec<AlbumData> = Vec::new();
    let mut remaining = n;
    while remaining > 0
        invariant
            s0 == buf_bytes(*old(buf)),
            spec_parse_albums(s0, n as int) == (match spec_parse_albums(
                buf_bytes(*buf),
                remaining as int,
            ) {
                Ok((al2, rest)) => Ok::<(Seq<AlbumView>, Seq<u8>), MessageCodecError>(
                    (albums_view(acc@) + al2, rest),
                ),
                Err(e) => Err(e),
            }),
        decreases remaining,
    {
        let ghost cur = buf_bytes(*buf);
        let a = match AlbumData::from_bytes(buf) {
            Ok(v) => v,
            Err(e) => {
                return Err(e);
            },
        };
        proof {
            let (av, nxt) = spec_parse_album(cur)->Ok_0;
            assert(albums_view(acc@.push(a)) =~= albums_view(acc@).push(av));
            match spec_parse_albums(nxt, remaining - 1) {
                Ok((al3, rest3)) => {
                    assert(albums_view(acc@).push(av) + al3 =~= albums_view(acc@) + (seq![av]
                        + al3));
                },
                Err(_) => {},
            }
        }
        acc.push(a);
        remaining = remaining - 1;
    }
    proof {
        assert(albums_view(acc@) + Seq::<AlbumView>::empty() =~= albums_view(acc@));
    }
    Ok(acc)
}

/// Appends an artist list in its wire form.
pub(crate) fn put_artists(buf: &mut bytes::BytesMut, xs: &Vec<ArtistData>)
    ensures
        buf_bytes(*final(buf)) == buf_bytes(*old(buf)) + spec_artists_bytes(artists_view(xs@)),
{
    let mut i: usize = 0;
    while i < xs.len()
        invariant
            i <= xs@.len(),
            buf_bytes(*buf) == buf_bytes(*old(buf)) + spec_artists_bytes(
                artists_view(xs@).take(i as int),
            ),
        decreases xs@.len() - i,
    {
        let ab = xs[i].to_bytes();
        buf_unsplit(buf, ab);
        proof {
            assert(artists_view(xs@).take(i + 1) =~= artists_view(xs@).take(i as int).push(
                xs@[i as int]@,
            ));
            lemma_artists_bytes_snoc(artists_view(xs@).take(i as int), xs@[i as int]@);
            lemma_concat_assoc(
                buf_bytes(*old(buf)),
                spec_artists_bytes(artists_view(xs@).take(i as int)),
                spec_artist_bytes(xs@[i as int]@),
            );
        }
        i = i + 1;
    }
    proof {
        assert(artists_view(xs@).take(xs@.len() as int) =~= artists_view(xs@));
    }
}

/// Reads `n` artists off the front of the buffer.
#[verifier::rlimit(100)]
#[verifier::spinoff_prover]
pub(crate) fn read_artists(buf: &mut bytes::BytesMut, n: u64) -> (r: Result<
    Vec<ArtistData>,
    MessageCodecError,
>)
    ensures
        match spec_parse_artists(buf_bytes(*old(buf)), n as int) {
            Ok((xs, rest)) => (r matches Ok(v) && artists_view(v@) == xs) && buf_bytes(
                *final(buf),
            ) == rest,
            Err(e) => r == Err::<Vec<ArtistData>, MessageCodecError>(e),
        },
{
    let ghost s0 = buf_bytes(*buf);
    let mut acc: Vec<ArtistData> = Vec::new();
    let mut remaining = n;
    while remaining > 0
        invariant
            s0 == buf_bytes(*old(buf)),
            spec_parse_artists(s0, n as int) == (match spec_parse_artists(
                buf_bytes(*buf),
                remaining as int,
            ) {
                Ok((xs2, rest)) => Ok::<(Seq<ArtistView>, Seq<u8>), MessageCodecError>(
                    (artists_view(acc@) + xs2, rest),
                ),
                Err(e) => Err(e),
            }),
        decreases remaining,
    {
        let ghost cur = buf_bytes(*buf);
        let a = match ArtistData::from_bytes(buf) {
            Ok(v) => v,
            Err(e) => {
                return Err(e);
            },
        };
        proof {
            let (av, nxt) = spec_parse_artist(cur)->Ok_0;
            assert(artists_view(acc@.push(a)) =~= artists_view(acc@).push(av));
            match spec_parse_artists(nxt, remaining - 1) {
                Ok((xs3, rest3)) => {
                    assert(artists_view(acc@).push(av) + xs3 =~= artists_view(acc@) + (seq![av]
                        + xs3));
                },
                Err(_) => {},
            }
        }
        acc.push(a);
        remaining = remaining - 1;
    }
    proof {
        assert(artists_view(acc@) + Seq::<ArtistView>::empty() =~= artists_view(acc@));
    }
    Ok(acc)
}

impl ArtistData {
    /// Writes the artist in its wire form.
    pub fn to_bytes(&self) -> (r: bytes::BytesMut)
        ensures
            buf_bytes(r) == spec_artist_bytes(self@),
    {
        let mut buf = buf_new();
        put_str_u64(&mut buf, &self.artist);
        match &self.albums {
            Some(al) => {
                buf_put_u64(&mut buf, al.len() as u64);
                put_albums(&mut buf, al);
            },
            None => {
                buf_put_u64(&mut buf, 0);
            },
        }
        proof {
            assert(buf_bytes(buf) =~= spec_artist_bytes(self@));
        }
        buf
    }

    /// Reads one artist off the front of the buffer.
    pub fn from_bytes(buf: &mut bytes::BytesMut) -> (r: Result<ArtistData, MessageCodecError>)
        ensures
            match spec_parse_artist(buf_bytes(*old(buf))) {
                Ok((av, rest)) => (r matches Ok(a) && a@ == av) && buf_bytes(*final(buf)) == rest,
                Err(e) => r == Err::<ArtistData, MessageCodecError>(e),
            },
    {
        let artist = match read_str_u64(buf) {
            Ok(v) => v,
            Err(e) => {
                return Err(e);
            },
        };
        let n = match take_u64(buf) {
            Ok(v) => v,
            Err(e) => {
                return Err(e);
            },
        };
        if n == 0 {
            Ok(ArtistData { artist, albums: None })
        } else {
            let albums = match read_albums(buf, n) {
                Ok(v) => v,
                Err(e) => {
                    return Err(e);
                },
            };
            Ok(ArtistData { artist, albums: Some(albums) })
        }
    }
}

/// Wire form of a stored catalog: the artist count, then each artist behind a
/// one-byte length prefix.
pub open spec fn spec_collection_items(s: Seq<ArtistView>) -> Seq<u8>
    decreases s.len(),
{
    if s.len() == 0 {
        Seq::<u8>::empty()
    } else {
        seq![spec_artist_bytes(s[0]).len() as u8] + spec_artist_bytes(s[0])
            + spec_collection_items(s.skip(1))
    }
}

pub open spec fn spec_collection_bytes(s: Seq<ArtistView>) -> Seq<u8> {
    spec_u64_to_be_bytes(s.len() as u64) + spec_collection_items(s)
}

/// Appending one record extends the stored catalog form at its tail.
#[verifier::rlimit(100)]
#[verifier::spinoff_prover]
pub proof fn lemma_collection_items_snoc(s: Seq<ArtistView>, a: ArtistView)
    ensures
        spec_collection_items(s.push(a)) == spec_collection_items(s) + (seq![
            spec_artist_bytes(a).len() as u8,
        ] + spec_artist_bytes(a)),
    decreases s.len(),
{
    if s.len() == 0 {
        let x = seq![spec_artist_bytes(a).len() as u8] + spec_artist_bytes(a);
        assert(s.push(a)[0] == a);
        assert(s.push(a).skip(1) =~= Seq::<ArtistView>::empty());
        assert(spec_collection_items(Seq::<ArtistView>::empty()) == Seq::<u8>::empty());
        assert(spec_collection_items(s.push(a)) == x + Seq::<u8>::empty());
        assert(x + Seq::<u8>::empty() =~= Seq::<u8>::empty() + x);
        assert(spec_collection_items(s) + x == Seq::<u8>::empty() + x);
    } else {
        assert(s.push(a)[0] == s[0]);
        assert(s.push(a).skip(1) =~= s.skip(1).push(a));
        lemma_collection_items_snoc(s.skip(1), a);
        let h = seq![spec_artist_bytes(s[0]).len() as u8] + spec_artist_bytes(s[0]);
        let x = seq![spec_artist_bytes(a).len() as u8] + spec_artist_bytes(a);
        lemma_concat_assoc(h, spec_collection_items(s.skip(1)), x);
    }
}

impl Collection {
    /// Writes the catalog in its stored form: each artist behind a one-byte
    /// length prefix, which every artist record must fit.
    pub fn to_bytes(&self) -> (r: bytes::BytesMut)
        requires
            forall|i: int|
                0 <= i < self@.len() ==> spec_artist_bytes(#[trigger] self@[i]).len() <= 255,
        ensures
            buf_bytes(r) == spec_collection_bytes(self@),
    {
        let mut buf = buf_new();
        buf_put_u64(&mut buf, self.artists.len() as u64);
        let ghost pre = buf_bytes(buf);
        let mut i: usize = 0;
        while i < self.artists.len()
            invariant
                i <= self.artists@.len(),
                pre == spec_u64_to_be_bytes(self.artists@.len() as u64),
                buf_bytes(buf) == pre + spec_collection_items(self@.take(i as int)),
                forall|k: int|
                    0 <= k < self@.len() ==> spec_artist_bytes(#[trigger] self@[k]).len() <= 255,
                self@.len() == self.artists@.len(),
            decreases self.artists@.len() - i,
        {
            let ab = self.artists[i].to_bytes();
            let ghost avi = self@[i as int];
            assert(avi == self.artists@[i as int]@);
            buf_put_u8(&mut buf, buf_len(&ab) as u8);
            buf_unsplit(&mut buf, ab);
            proof {
                assert(self@.take(i + 1) =~= self@.take(i as int).push(avi));
                lemma_collection_items_snoc(self@.take(i as int), avi);
                assert(buf_bytes(buf) =~= pre + spec_collection_items(self@.take(i + 1)));
            }
            i = i + 1;
        }
        proof {
            assert(self@.take(self@.len() as int) =~= self@);
        }
        buf
    }
}

/// Parsing a required string written in its wire form recovers it.
#[verifier::rlimit(100)]
#[verifier::spinoff_prover]
pub proof fn lemma_parse_str_u64_roundtrip(s: Seq<u8>, rest: Seq<u8>)
    requires
        wf_str(s),
    ensures
        spec_parse_str_u64(spec_str_u64(s) + rest) == Ok::<(Seq<u8>, Seq<u8>), MessageCodecError>(
            (s, rest),
        ),
{
    let h = spec_u64_to_be_bytes(s.len() as u64);
    lemma_concat_assoc(h, s, rest);
    lemma_concat_take_skip(h, s + rest);
    lemma_u64_be_roundtrip(s.len() as u64);
    lemma_concat_take_skip(s, rest);
    lemma_trim_zeros_id(s);
}

/// Parsing an optional string written in its wire form recovers it.
#[verifier::rlimit(100)]
#[verifier::spinoff_prover]
pub proof fn lemma_parse_optstr_u64_roundtrip(o: Option<Seq<u8>>, rest: Seq<u8>)
    requires
        wf_opt_str64(o),
    ensures
        spec_parse_optstr_u64(spec_opt_str_u64(o) + rest) == Ok::<
            (Option<Seq<u8>>, Seq<u8>),
            MessageCodecError,
        >((o, rest)),
{
    match o {
        None => {
            let h = spec_u64_to_be_bytes(0);
            lemma_concat_take_skip(h, rest);
            lemma_u64_be_roundtrip(0);
        },
        Some(s) => {
            let h = spec_u64_to_be_bytes(s.len() as u64);
            lemma_concat_assoc(h, s, rest);
            lemma_concat_take_skip(h, s + rest);
            lemma_u64_be_roundtrip(s.len() as u64);
            lemma_concat_take_skip(s, rest);
            lemma_trim_zeros_id(s);
        },
    }
}

/// Parsing a track written in its wire form recovers it.
#[verifier::rlimit(100)]
#[verifier::spinoff_prover]
pub proof fn lemma_parse_track_roundtrip(t: TrackView, rest: Seq<u8>)
    requires
        wf_track(t),
    ensures
        spec_parse_track(spec_track_bytes(t) + rest) == Ok::<
            (TrackView, Seq<u8>),
            MessageCodecError,
        >((t, rest)),
{
    let sb = spec_str_u64(t.title);
    let bb = spec_u16_to_be_bytes(t.bitrate);
    let lb = seq![t.length];
    lemma_concat_assoc(sb + bb, lb, rest);
    lemma_concat_assoc(sb, bb, lb + rest);
    lemma_parse_str_u64_roundtrip(t.title, bb + (lb + rest));
    lemma_concat_take_skip(bb, lb + rest);
    lemma_u16_be_roundtrip(t.bitrate);
    lemma_concat_take_skip(lb, rest);
    assert((lb + rest)[0] == t.length);
    assert(spec_parse_track(spec_track_bytes(t) + rest) matches Ok((tv, r)) && tv =~= t && r
        == rest);
}

/// Parsing a track list written in its wire form recovers it.
#[verifier::rlimit(100)]
#[verifier::spinoff_prover]
pub proof fn lemma_parse_tracks_roundtrip(ts: Seq<TrackView>, rest: Seq<u8>)
    requires
        wf_tracks(ts),
    ensures
        spec_parse_tracks(spec_tracks_bytes(ts) + rest, ts.len() as int) == Ok::<
            (Seq<TrackView>, Seq<u8>),
            MessageCodecError,
        >((ts, rest)),
    decreases ts.len(),
{
    if ts.len() == 0 {
        assert(spec_tracks_bytes(ts) + rest =~= rest);
        assert(ts =~= Seq::<TrackView>::empty());
    } else {
        let b = spec_tracks_bytes(ts) + rest;
        let hd = spec_track_bytes(ts[0]);
        let tl = spec_tracks_bytes(ts.skip(1));
        assert(b == hd + (tl + rest)) by {
            lemma_concat_assoc(hd, tl, rest);
        }
        assert(spec_parse_track(b) == Ok::<(TrackView, Seq<u8>), MessageCodecError>(
            (ts[0], tl + rest),
        )) by {
            lemma_parse_track_roundtrip(ts[0], tl + rest);
        }
        assert(spec_parse_tracks(tl + rest, ts.len() - 1) == Ok::<
            (Seq<TrackView>, Seq<u8>),
            MessageCodecError,
        >((ts.skip(1), rest))) by {
            assert(wf_tracks(ts.skip(1)));
            lemma_parse_tracks_roundtrip(ts.skip(1), rest);
        }
        assert(seq![ts[0]] + ts.skip(1) =~= ts);
    }
}

/// Parsing an album written in its wire form recovers it.
#[verifier::rlimit(100)]
#[verifier::spinoff_prover]
pub proof fn lemma_parse_album_roundtrip(a: AlbumView, rest: Seq<u8>)
    requires
        wf_album(a),
    ensures
        spec_parse_album(spec_album_bytes(a) + rest) == Ok::<
            (AlbumView, Seq<u8>),
            MessageCodecError,
        >((a, rest)),
{
    let b = spec_album_bytes(a) + rest;
    let ab = spec_opt_str_u64(a.artist);
    let tb = spec_str_u64(a.album_title);
    let cb = seq![a.track_count];
    let tp = match a.tracks {
        None => seq![0u8],
        Some(ts) => seq![1u8] + spec_u64_to_be_bytes(ts.len() as u64) + spec_tracks_bytes(ts),
    };
    let r3 = tp + rest;
    let r2 = cb + r3;
    let r1 = tb + r2;
    assert(b == ab + r1) by {
        lemma_concat_assoc(ab + tb + cb, tp, rest);
        lemma_concat_assoc(ab + tb, cb, r3);
        lemma_concat_assoc(ab, tb, r2);
    }
    assert(spec_parse_optstr_u64(b) == Ok::<(Option<Seq<u8>>, Seq<u8>), MessageCodecError>(
        (a.artist, r1),
    )) by {
        lemma_parse_optstr_u64_roundtrip(a.artist, r1);
    }
    assert(spec_parse_str_u64(r1) == Ok::<(Seq<u8>, Seq<u8>), MessageCodecError>(
        (a.album_title, r2),
    )) by {
        lemma_parse_str_u64_roundtrip(a.album_title, r2);
    }
    assert(spec_parse_u8(r2) == Ok::<(u8, Seq<u8>), MessageCodecError>((a.track_count, r3))) by {
        lemma_concat_take_skip(cb, r3);
        assert(r2[0] == a.track_count);
    }
    match a.tracks {
        None => {
            assert(spec_parse_u8(r3) == Ok::<(u8, Seq<u8>), MessageCodecError>((0u8, rest))) by {
                assert(r3[0] == 0);
                lemma_concat_take_skip(tp, rest);
            }
            assert(spec_parse_album(b) == Ok::<(AlbumView, Seq<u8>), MessageCodecError>(
                (AlbumView { artist: a.artist, album_title: a.album_title,
                    track_count: a.track_count, tracks: None }, rest)));
            assert(a =~= (AlbumView { artist: a.artist, album_title: a.album_title,
                track_count: a.track_count, tracks: None }));
        },
        Some(ts) => {
            let nb = spec_u64_to_be_bytes(ts.len() as u64);
            let tsb = spec_tracks_bytes(ts);
            let q2 = tsb + rest;
            let q1 = nb + q2;
            assert(r3 == seq![1u8] + q1) by {
                lemma_concat_assoc(seq![1u8] + nb, tsb, rest);
                lemma_concat_assoc(seq![1u8], nb, q2);
            }
            assert(spec_parse_u8(r3) == Ok::<(u8, Seq<u8>), MessageCodecError>((1u8, q1))) by {
                assert(r3[0] == 1);
                lemma_concat_take_skip(seq![1u8], q1);
            }
            assert(spec_parse_u64(q1) == Ok::<(u64, Seq<u8>), MessageCodecError>(
                (ts.len() as u64, q2),
            )) by {
                lemma_concat_take_skip(nb, q2);
                lemma_u64_be_roundtrip(ts.len() as u64);
            }
            assert(spec_parse_tracks(q2, ts.len() as int) == Ok::<
                (Seq<TrackView>, Seq<u8>),
                MessageCodecError,
            >((ts, rest))) by {
                lemma_parse_tracks_roundtrip(ts, rest);
            }
            assert((ts.len() as u64) as int == ts.len() as int);
            assert(ts.len() as u64 != 0 ==> true);
            assert(spec_parse_album(b) == Ok::<(AlbumView, Seq<u8>), MessageCodecError>(
                (AlbumView { artist: a.artist, album_title: a.album_title,
                    track_count: a.track_count, tracks: Some(ts) }, rest)));
            assert(a =~= (AlbumView { artist: a.artist, album_title: a.album_title,
                track_count: a.track_count, tracks: Some(ts) }));
        },
    }
}

/// Parsing an album list written in its wire form recovers it.
#[verifier::rlimit(100)]
#[verifier::spinoff_prover]
pub proof fn lemma_parse_albums_roundtrip(al: Seq<AlbumView>, rest: Seq<u8>)
    requires
        wf_albums(al),
    ensures
        spec_parse_albums(spec_albums_bytes(al) + rest, al.len() as int) == Ok::<
            (Seq<AlbumView>, Seq<u8>),
            MessageCodecError,
        >((al, rest)),
    decreases al.len(),
{
    if al.len() == 0 {
        assert(spec_albums_bytes(al) + rest =~= rest);
        assert(al =~= Seq::<AlbumView>::empty());
    } else {
        let b = spec_albums_bytes(al) + rest;
        let hd = spec_album_bytes(al[0]);
        let tl = spec_albums_bytes(al.skip(1));
        assert(b == hd + (tl + rest)) by {
            lemma_concat_assoc(hd, tl, rest);
        }
        assert(spec_parse_album(b) == Ok::<(AlbumView, Seq<u8>), MessageCodecError>(
            (al[0], tl + rest),
        )) by {
            lemma_parse_album_roundtrip(al[0], tl + rest);
        }
        assert(spec_parse_albums(tl + rest, al.len() - 1) == Ok::<
            (Seq<AlbumView>, Seq<u8>),
            MessageCodecError,
        >((al.skip(1), rest))) by {
            assert(wf_albums(al.skip(1)));
            lemma_parse_albums_roundtrip(al.skip(1), rest);
        }
        assert(seq![al[0]] + al.skip(1) =~= al);
    }
}

/// Parsing an artist written in its wire form recovers it.
#[verifier::rlimit(100)]
#[verifier::spinoff_prover]
pub proof fn lemma_parse_artist_roundtrip(a: ArtistView, rest: Seq<u8>)
    requires
        wf_artist(a),
    ensures
        spec_parse_artist(spec_artist_bytes(a) + rest) == Ok::<
            (ArtistView, Seq<u8>),
            MessageCodecError,
        >((a, rest)),
{
    let b = spec_artist_bytes(a) + rest;
    let nb = spec_str_u64(a.artist);
    match a.albums {
        None => {
            let cb = spec_u64_to_be_bytes(0);
            let r1 = cb + rest;
            assert(b == nb + r1) by {
                lemma_concat_assoc(nb, cb, rest);
            }
            assert(spec_parse_str_u64(b) == Ok::<(Seq<u8>, Seq<u8>), MessageCodecError>(
                (a.artist, r1),
            )) by {
                lemma_parse_str_u64_roundtrip(a.artist, r1);
            }
            assert(spec_parse_u64(r1) == Ok::<(u64, Seq<u8>), MessageCodecError>((0u64, rest)))
                by {
                lemma_concat_take_skip(cb, rest);
                lemma_u64_be_roundtrip(0);
            }
            assert(spec_parse_artist(b) == Ok::<(ArtistView, Seq<u8>), MessageCodecError>(
                (ArtistView { artist: a.artist, albums: None }, rest)));
            assert(a =~= (ArtistView { artist: a.artist, albums: None }));
        },
        Some(al) => {
            let cb = spec_u64_to_be_bytes(al.len() as u64);
            let alb = spec_albums_bytes(al);
            let q2 = alb + rest;
            let q1 = cb + q2;
            assert(b == nb + q1) by {
                lemma_concat_assoc(nb, cb + alb, rest);
                lemma_concat_assoc(cb, alb, rest);
            }
            assert(spec_parse_str_u64(b) == Ok::<(Seq<u8>, Seq<u8>), MessageCodecError>(
                (a.artist, q1),
            )) by {
                lemma_parse_str_u64_roundtrip(a.artist, q1);
            }
            assert(spec_parse_u64(q1) == Ok::<(u64, Seq<u8>), MessageCodecError>(
                (al.len() as u64, q2),
            )) by {
                lemma_concat_take_skip(cb, q2);
                lemma_u64_be_roundtrip(al.len() as u64);
            }
            assert(spec_parse_albums(q2, al.len() as int) == Ok::<
                (Seq<AlbumView>, Seq<u8>),
                MessageCodecError,
            >((al, rest))) by {
                lemma_parse_albums_roundtrip(al, rest);
            }
            assert((al.len() as u64) as int == al.len() as int);
            assert(al.len() as u64 != 0);
            assert(spec_parse_artist(b) == Ok::<(ArtistView, Seq<u8>), MessageCodecError>(
                (ArtistView { artist: a.artist, albums: Some(al) }, rest)));
            assert(a =~= (ArtistView { artist: a.artist, albums: Some(al) }));
        },
    }
}

/// Parsing an artist list written in its wire form recovers it.
#[verifier::rlimit(100)]
#[verifier::spinoff_prover]
pub proof fn lemma_parse_artists_roundtrip(s: Seq<ArtistView>, rest: Seq<u8>)
    requires
        wf_artists(s),
    ensures
        spec_parse_artists(spec_artists_bytes(s) + rest, s.len() as int) == Ok::<
            (Seq<ArtistView>, Seq<u8>),
            MessageCodecError,
        >((s, rest)),
    decreases s.len(),
{
    if s.len() == 0 {
        assert(spec_artists_bytes(s) + rest =~= rest);
        assert(s =~= Seq::<ArtistView>::empty());
    } else {
        let b = spec_artists_bytes(s) + rest;
        let hd = spec_artist_bytes(s[0]);
        let tl = spec_artists_bytes(s.skip(1));
        assert(b == hd + (tl + rest)) by {
            lemma_concat_assoc(hd, tl, rest);
        }
        assert(spec_parse_artist(b) == Ok::<(ArtistView, Seq<u8>), MessageCodecError>(
            (s[0], tl + rest),
        )) by {
            lemma_parse_artist_roundtrip(s[0], tl + rest);
        }
        assert(spec_parse_artists(tl + rest, s.len() - 1) == Ok::<
            (Seq<ArtistView>, Seq<u8>),
            MessageCodecError,
        >((s.skip(1), rest))) by {
            assert(wf_artists(s.skip(1)));
            lemma_parse_artists_roundtrip(s.skip(1), rest);
        }
        assert(seq![s[0]] + s.skip(1) =~= s);
    }
}

} // verus!
