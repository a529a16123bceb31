use vstd::prelude::*;

use crate::consts::{
    ALBUM_REQUEST, ALBUM_RESPONSE, ARTISTS_REQUEST, ARTISTS_RESPONSE, DOWNLOAD_REQUEST, OK,
    PAYLOAD, PEERS_REQUEST, PEERS_RESPONSE, PING, PONG, REQUEST_FILE,
};
use crate::data::{
    AlbumData, AlbumView, ArtistData, ArtistView, artists_view, clone_artists,
    put_artists, read_artists, read_str_u64, spec_album_bytes,
    spec_artist_bytes, spec_artists_bytes, spec_parse_album, spec_parse_artist,
    spec_parse_artists, spec_parse_str_u64, spec_parse_u64, spec_str_u64, put_str_u64,
    lemma_parse_album_roundtrip, lemma_parse_artist_roundtrip, lemma_parse_artists_roundtrip,
    lemma_parse_str_u64_roundtrip, wf_album, wf_artist, wf_artists, wf_str,
};
use crate::peer::{
    Peer, PeerView, copy_bytes, lemma_parse_peer_roundtrip, lemma_peer_bytes_len,
    peer_encodable, spec_parse_peer, spec_peer_bytes, wf_peer,
};
use crate::utils::{
    buf_byte_at, buf_bytes, buf_len, buf_new, buf_put_u64, buf_put_u8, buf_split_to, buf_unsplit,
    lemma_concat_assoc, lemma_concat_take_skip, lemma_u64_be_roundtrip, spec_u64_from_be_bytes,
    spec_u64_to_be_bytes, take_u64,
};

verus! {

/// The events that travel on the wire between two nodes, already decoded.
#[derive(Debug, PartialEq)]
pub enum MessageEvent {
    Ping(Peer),
    Pong(Peer),
    Payload(Vec<u8>),
    RequestFile(ArtistData),
    ArtistsRequest,
    ArtistsResponse(Vec<ArtistData>),
    AlbumRequest(AlbumData),
    AlbumResponse(AlbumData),
    PeersRequest,
    PeersResponse(Vec<Peer>),
    DownloadRequest(AlbumData),
    Okay,
}

/// The mathematical value of a `MessageEvent`.
#[verifier::ext_equal]
pub ghost enum MessageView {
    Ping(PeerView),
    Pong(PeerView),
    Payload(Seq<u8>),
    RequestFile(ArtistView),
    ArtistsRequest,
    ArtistsResponse(Seq<ArtistView>),
    AlbumRequest(AlbumView),
    AlbumResponse(AlbumView),
    PeersRequest,
    PeersResponse(Seq<PeerView>),
    DownloadRequest(AlbumView),
    Okay,
}

pub open spec fn peers_view(s: Seq<Peer>) -> Seq<PeerView> {
    s.map_values(|p: Peer| p@)
}

impl View for MessageEvent {
    type V = MessageView;

    open spec fn view(&self) -> MessageView {
        match self {
            MessageEvent::Ping(p) => MessageView::Ping(p@),
            MessageEvent::Pong(p) => MessageView::Pong(p@),
            MessageEvent::Payload(s) => MessageView::Payload(s@),
            MessageEvent::RequestFile(a) => MessageView::RequestFile(a@),
            MessageEvent::ArtistsRequest => MessageView::ArtistsRequest,
            MessageEvent::ArtistsResponse(xs) => MessageView::ArtistsResponse(artists_view(xs@)),
            MessageEvent::AlbumRequest(a) => MessageView::AlbumRequest(a@),
            MessageEvent::AlbumResponse(a) => MessageView::AlbumResponse(a@),
            MessageEvent::PeersRequest => MessageView::PeersRequest,
            MessageEvent::PeersResponse(ps) => MessageView::PeersResponse(peers_view(ps@)),
            MessageEvent::DownloadRequest(a) => MessageView::DownloadRequest(a@),
            MessageEvent::Okay => MessageView::Okay,
        }
    }
}

/// Element-wise copy of a peer list.
pub fn clone_peers(v: &Vec<Peer>) -> (r: Vec<Peer>)
    ensures
        peers_view(r@) == peers_view(v@),
{
    let mut r: Vec<Peer> = Vec::new();
    let mut i: usize = 0;
    while i < v.len()
        invariant
            i <= v@.len(),
            r@.len() == i,
            forall|j: int| 0 <= j < i ==> (#[trigger] r@[j])@ == v@[j]@,
        decreases v@.len() - i,
    {
        r.push(v[i].clone());
        i = i + 1;
    }
    assert(peers_view(r@) =~= peers_view(v@));
    r
}

impl Clone for MessageEvent {
    fn clone(&self) -> (r: MessageEvent)
        ensures
            r@ == self@,
    {
        match self {
            MessageEvent::Ping(p) => MessageEvent::Ping(p.clone()),
            MessageEvent::Pong(p) => MessageEvent::Pong(p.clone()),
            MessageEvent::Payload(s) => MessageEvent::Payload(copy_bytes(s)),
            MessageEvent::RequestFile(a) => MessageEvent::RequestFile(a.clone()),
            MessageEvent::ArtistsRequest => MessageEvent::ArtistsRequest,
            MessageEvent::ArtistsResponse(xs) => MessageEvent::ArtistsResponse(clone_artists(xs)),
            MessageEvent::AlbumRequest(a) => MessageEvent::AlbumRequest(a.clone()),
            MessageEvent::AlbumResponse(a) => MessageEvent::AlbumResponse(a.clone()),
            MessageEvent::PeersRequest => MessageEvent::PeersRequest,
            MessageEvent::PeersResponse(ps) => MessageEvent::PeersResponse(clone_peers(ps)),
            MessageEvent::DownloadRequest(a) => MessageEvent::DownloadRequest(a.clone()),
            MessageEvent::Okay => MessageEvent::Okay,
        }
    }
}

/// Errors of the wire codec: a frame whose inner fields stop short of what
/// its length promised, a length claim that disagrees with the frame, or a
/// transport failure.
#[derive(Clone, Copy, Debug, PartialEq, Eq, Structural)]
pub enum MessageCodecError {
    SerializationError,
    DataLengthMismatch,
    IO,
}

/// The codec error that a byte-reader error surfaces as.
pub open spec fn spec_lift_err(e: crate::utils::MessageCodecError) -> MessageCodecError {
    match e {
        crate::utils::MessageCodecError::SerializationError => MessageCodecError::SerializationError,
        crate::utils::MessageCodecError::DataLengthMismatch => MessageCodecError::DataLengthMismatch,
        crate::utils::MessageCodecError::IO => MessageCodecError::IO,
    }
}

fn lift_err(e: crate::utils::MessageCodecError) -> (r: MessageCodecError)
    ensures
        r == spec_lift_err(e),
{
    match e {
        crate::utils::MessageCodecError::SerializationError => MessageCodecError::SerializationError,
        crate::utils::MessageCodecError::DataLengthMismatch => MessageCodecError::DataLengthMismatch,
        crate::utils::MessageCodecError::IO => MessageCodecError::IO,
    }
}

/// Wire form of a peer list: each peer behind an eight-byte length prefix.
pub open spec fn spec_peers_list_bytes(ps: Seq<PeerView>) -> Seq<u8>
    decreases ps.len(),
{
    if ps.len() == 0 {
        Seq::<u8>::empty()
    } else {
        spec_u64_to_be_bytes(spec_peer_bytes(ps[0]).len() as u64) + spec_peer_bytes(ps[0])
            + spec_peers_list_bytes(ps.skip(1))
    }
}

pub open spec fn spec_parse_peers(s: Seq<u8>, n: int) -> Result<
    (Seq<PeerView>, Seq<u8>),
    crate::utils::MessageCodecError,
>
    decreases n,
{
    if n <= 0 {
        Ok((Seq::<PeerView>::empty(), s))
    } else {
        match spec_parse_u64(s) {
            Err(e) => Err(e),
            Ok((_len, s1)) => match spec_parse_peer(s1) {
                Err(e) => Err(e),
                Ok((p, s2)) => match spec_parse_peers(s2, n - 1) {
                    Err(e) => Err(e),
                    Ok((ps, s3)) => Ok((seq![p] + ps, s3)),
                },
            },
        }
    }
}

/// Every peer in the list can be written.
pub open spec fn peers_encodable(ps: Seq<PeerView>) -> bool {
    forall|i: int| 0 <= i < ps.len() ==> peer_encodable(#[trigger] ps[i])
}

pub open spec fn wf_peers(ps: Seq<PeerView>) -> bool {
    ps.len() <= u64::MAX && forall|i: int| 0 <= i < ps.len() ==> wf_peer(#[trigger] ps[i])
}

/// The message survives the round trip through its wire form.
pub open spec fn wf_message(m: MessageView) -> bool {
    match m {
        MessageView::Ping(p) => wf_peer(p),
        MessageView::Pong(p) => wf_peer(p),
        MessageView::Payload(s) => wf_str(s),
        MessageView::RequestFile(a) => wf_artist(a),
        MessageView::ArtistsRequest => true,
        MessageView::ArtistsResponse(xs) => wf_artists(xs),
        MessageView::AlbumRequest(a) => wf_album(a),
        MessageView::AlbumResponse(a) => wf_album(a),
        MessageView::PeersRequest => true,
        MessageView::PeersResponse(ps) => wf_peers(ps),
        MessageView::DownloadRequest(a) => wf_album(a),
        MessageView::Okay => true,
    }
}

/// The message can be written: every peer's strings fit their one-byte
/// length prefixes.
pub open spec fn msg_encodable(m: MessageView) -> bool {
    match m {
        MessageView::Ping(p) => peer_encodable(p),
        MessageView::Pong(p) => peer_encodable(p),
        MessageView::PeersResponse(ps) => peers_encodable(ps),
        _ => true,
    }
}

/// The payload of a message: its tag byte followed by its body.
pub open spec fn spec_payload_bytes(m: MessageView) -> Seq<u8> {
    match m {
        MessageView::Ping(p) => seq![PING] + spec_peer_bytes(p),
        MessageView::Pong(p) => seq![PONG] + spec_peer_bytes(p),
        MessageView::Payload(s) => seq![PAYLOAD] + spec_str_u64(s),
        MessageView::RequestFile(a) => seq![REQUEST_FILE] + spec_artist_bytes(a),
        MessageView::ArtistsRequest => seq![ARTISTS_REQUEST],
        MessageView::ArtistsResponse(xs) => seq![ARTISTS_RESPONSE] + spec_u64_to_be_bytes(
            xs.len() as u64,
        ) + spec_artists_bytes(xs),
        MessageView::AlbumRequest(a) => seq![ALBUM_REQUEST] + spec_album_bytes(a),
        MessageView::AlbumResponse(a) => seq![ALBUM_RESPONSE] + spec_album_bytes(a),
        MessageView::PeersRequest => seq![PEERS_REQUEST],
        MessageView::PeersResponse(ps) => seq![PEERS_RESPONSE] + spec_u64_to_be_bytes(
            ps.len() as u64,
        ) + spec_peers_list_bytes(ps),
        MessageView::DownloadRequest(a) => seq![DOWNLOAD_REQUEST] + spec_album_bytes(a),
        MessageView::Okay => seq![OK],
    }
}

/// A whole frame: the eight-byte big-endian payload length, then the payload.
pub open spec fn spec_frame(m: MessageView) -> Seq<u8> {
    spec_u64_to_be_bytes(spec_payload_bytes(m).len() as u64) + spec_payload_bytes(m)
}

/// The buffer holds at least one whole frame.
pub open spec fn spec_frame_complete(b: Seq<u8>) -> bool {
    b.len() >= 8 && b.len() - 8 >= spec_u64_from_be_bytes(b.take(8))
}

/// The payload of the buffer's first frame.
pub open spec fn spec_frame_payload(b: Seq<u8>) -> Seq<u8> {
    b.skip(8).take(spec_u64_from_be_bytes(b.take(8)) as int)
}

/// What is left of the buffer once its first frame is consumed.
pub open spec fn spec_frame_rest(b: Seq<u8>) -> Seq<u8> {
    b.skip(8).skip(spec_u64_from_be_bytes(b.take(8)) as int)
}

/// Reading a payload: an empty payload and an unknown tag both yield nothing;
/// a known tag yields its message or the error its body raises.
pub open spec fn spec_parse_message(payload: Seq<u8>) -> Result<
    Option<MessageView>,
    crate::utils::MessageCodecError,
> {
    if payload.len() == 0 {
        Ok(None)
    } else {
        spec_parse_body(payload[0], payload.skip(1))
    }
}

/// Reading the body of a message whose tag was already read.
#[verifier::opaque]
pub open spec fn spec_parse_body(tag: u8, body: Seq<u8>) -> Result<
    Option<MessageView>,
    crate::utils::MessageCodecError,
> {
    {
        if tag == PING {
            match spec_parse_peer(body) {
                Ok((p, _)) => Ok(Some(MessageView::Ping(p))),
                Err(e) => Err(e),
            }
        } else if tag == PONG {
            match spec_parse_peer(body) {
                Ok((p, _)) => Ok(Some(MessageView::Pong(p))),
                Err(e) => Err(e),
            }
        } else if tag == PAYLOAD {
            match spec_parse_str_u64(body) {
                Ok((s, _)) => Ok(Some(MessageView::Payload(s))),
                Err(e) => Err(e),
            }
        } else if tag == REQUEST_FILE {
            match spec_parse_artist(body) {
                Ok((a, _)) => Ok(Some(MessageView::RequestFile(a))),
                Err(e) => Err(e),
            }
        } else if tag == ARTISTS_REQUEST {
            Ok(Some(MessageView::ArtistsRequest))
        } else if tag == ARTISTS_RESPONSE {
            match spec_parse_u64(body) {
                Err(e) => Err(e),
                Ok((n, b1)) => match spec_parse_artists(b1, n as int) {
                    Ok((xs, _)) => Ok(Some(MessageView::ArtistsResponse(xs))),
                    Err(e) => Err(e),
                },
            }
        } else if tag == ALBUM_REQUEST {
            match spec_parse_album(body) {
                Ok((a, _)) => Ok(Some(MessageView::AlbumRequest(a))),
                Err(e) => Err(e),
            }
        } else if tag == ALBUM_RESPONSE {
            match spec_parse_album(body) {
                Ok((a, _)) => Ok(Some(MessageView::AlbumResponse(a))),
                Err(e) => Err(e),
            }
        } else if tag == PEERS_REQUEST {
            Ok(Some(MessageView::PeersRequest))
        } else if tag == PEERS_RESPONSE {
            match spec_parse_u64(body) {
                Err(e) => Err(e),
                Ok((n, b1)) => match spec_parse_peers(b1, n as int) {
                    Ok((ps, _)) => Ok(Some(MessageView::PeersResponse(ps))),
                    Err(e) => Err(e),
                },
            }
        } else if tag == DOWNLOAD_REQUEST {
            match spec_parse_album(body) {
                Ok((a, _)) => Ok(Some(MessageView::DownloadRequest(a))),
                Err(e) => Err(e),
            }
        } else if tag == OK {
            Ok(Some(MessageView::Okay))
        } else {
            Ok(None)
        }
    }
}

/// How `spec_parse_body` reads a body under this tag.
pub proof fn lemma_parse_body_ping(tag: u8, body: Seq<u8>)
    requires
        tag == PING,
    ensures
        spec_parse_body(tag, body) == (match spec_parse_peer(body) {
            Ok((p, _)) => Ok::<Option<MessageView>, crate::utils::MessageCodecError>(
                Some(MessageView::Ping(p)),
            ),
            Err(e) => Err(e),
        }),
{
    reveal(spec_parse_body);
}

/// How `spec_parse_body` reads a body under this tag.
pub proof fn lemma_parse_body_pong(tag: u8, body: Seq<u8>)
    requires
        tag == PONG,
    ensures
        spec_parse_body(tag, body) == (match spec_parse_peer(body) {
            Ok((p, _)) => Ok::<Option<MessageView>, crate::utils::MessageCodecError>(
                Some(MessageView::Pong(p)),
            ),
            Err(e) => Err(e),
        }),
{
    reveal(spec_parse_body);
}

/// How `spec_parse_body` reads a body under this tag.
pub proof fn lemma_parse_body_payload(tag: u8, body: Seq<u8>)
    requires
        tag == PAYLOAD,
    ensures
        spec_parse_body(tag, body) == (match spec_parse_str_u64(body) {
            Ok((s, _)) => Ok::<Option<MessageView>, crate::utils::MessageCodecError>(
                Some(MessageView::Payload(s)),
            ),
            Err(e) => Err(e),
        }),
{
    reveal(spec_parse_body);
}

/// How `spec_parse_body` reads a body under this tag.
pub proof fn lemma_parse_body_request_file(tag: u8, body: Seq<u8>)
    requires
        tag == REQUEST_FILE,
    ensures
        spec_parse_body(tag, body) == (match spec_parse_artist(body) {
            Ok((a, _)) => Ok::<Option<MessageView>, crate::utils::MessageCodecError>(
                Some(MessageView::RequestFile(a)),
            ),
            Err(e) => Err(e),
        }),
{
    reveal(spec_parse_body);
}

/// How `spec_parse_body` reads a body under this tag.
pub proof fn lemma_parse_body_artists_request(tag: u8, body: Seq<u8>)
    requires
        tag == ARTISTS_REQUEST,
    ensures
        spec_parse_body(tag, body) == Ok::<Option<MessageView>, crate::utils::MessageCodecError>(
            Some(MessageView::ArtistsRequest),
        ),
{
    reveal(spec_parse_body);
}

/// How `spec_parse_body` reads a body under this tag.
pub proof fn lemma_parse_body_artists_response(tag: u8, body: Seq<u8>)
    requires
        tag == ARTISTS_RESPONSE,
    ensures
        spec_parse_body(tag, body) == (match spec_parse_u64(body) {
            Err(e) => Err::<Option<MessageView>, crate::utils::MessageCodecError>(e),
            Ok((n, b1)) => match spec_parse_artists(b1, n as int) {
                Ok((xs, _)) => Ok(Some(MessageView::ArtistsResponse(xs))),
                Err(e) => Err(e),
            },
        }),
{
    reveal(spec_parse_body);
}

/// How `spec_parse_body` reads a body under this tag.
pub proof fn lemma_parse_body_album_request(tag: u8, body: Seq<u8>)
    requires
        tag == ALBUM_REQUEST,
    ensures
        spec_parse_body(tag, body) == (match spec_parse_album(body) {
            Ok((a, _)) => Ok::<Option<MessageView>, crate::utils::MessageCodecError>(
                Some(MessageView::AlbumRequest(a)),
            ),
            Err(e) => Err(e),
        }),
{
    reveal(spec_parse_body);
}

/// How `spec_parse_body` reads a body under this tag.
pub proof fn lemma_parse_body_album_response(tag: u8, body: Seq<u8>)
    requires
        tag == ALBUM_RESPONSE,
    ensures
        spec_parse_body(tag, body) == (match spec_parse_album(body) {
            Ok((a, _)) => Ok::<Option<MessageView>, crate::utils::MessageCodecError>(
                Some(MessageView::AlbumResponse(a)),
            ),
            Err(e) => Err(e),
        }),
{
    reveal(spec_parse_body);
}

/// How `spec_parse_body` reads a body under this tag.
pub proof fn lemma_parse_body_peers_request(tag: u8, body: Seq<u8>)
    requires
        tag == PEERS_REQUEST,
    ensures
        spec_parse_body(tag, body) == Ok::<Option<MessageView>, crate::utils::MessageCodecError>(
            Some(MessageView::PeersRequest),
        ),
{
    reveal(spec_parse_body);
}

/// How `spec_parse_body` reads a body under this tag.
pub proof fn lemma_parse_body_peers_response(tag: u8, body: Seq<u8>)
    requires
        tag == PEERS_RESPONSE,
    ensures
        spec_parse_body(tag, body) == (match spec_parse_u64(body) {
            Err(e) => Err::<Option<MessageView>, crate::utils::MessageCodecError>(e),
            Ok((n, b1)) => match spec_parse_peers(b1, n as int) {
                Ok((ps, _)) => Ok(Some(MessageView::PeersResponse(ps))),
                Err(e) => Err(e),
            },
        }),
{
    reveal(spec_parse_body);
}

/// How `spec_parse_body` reads a body under this tag.
pub proof fn lemma_parse_body_download_request(tag: u8, body: Seq<u8>)
    requires
        tag == DOWNLOAD_REQUEST,
    ensures
        spec_parse_body(tag, body) == (match spec_parse_album(body) {
            Ok((a, _)) => Ok::<Option<MessageView>, crate::utils::MessageCodecError>(
                Some(MessageView::DownloadRequest(a)),
            ),
            Err(e) => Err(e),
        }),
{
    reveal(spec_parse_body);
}

/// How `spec_parse_body` reads a body under this tag.
pub proof fn lemma_parse_body_ok(tag: u8, body: Seq<u8>)
    requires
        tag == OK,
    ensures
        spec_parse_body(tag, body) == Ok::<Option<MessageView>, crate::utils::MessageCodecError>(
            Some(MessageView::Okay),
        ),
{
    reveal(spec_parse_body);
}

/// An unknown tag reads as nothing.
pub proof fn lemma_parse_body_unknown(tag: u8, body: Seq<u8>)
    requires
        tag != PING,
        tag != PONG,
        tag != PAYLOAD,
        tag != REQUEST_FILE,
        tag != ARTISTS_REQUEST,
        tag != ARTISTS_RESPONSE,
        tag != ALBUM_REQUEST,
        tag != ALBUM_RESPONSE,
        tag != PEERS_REQUEST,
        tag != PEERS_RESPONSE,
        tag != DOWNLOAD_REQUEST,
        tag != OK,
    ensures
        spec_parse_body(tag, body) == Ok::<Option<MessageView>, crate::utils::MessageCodecError>(
            None,
        ),
{
    reveal(spec_parse_body);
}

/// Parsing a peer list written in its wire form recovers it.
#[verifier::rlimit(100)]
#[verifier::spinoff_prover]
pub proof fn lemma_parse_peers_roundtrip(ps: Seq<PeerView>, rest: Seq<u8>)
    requires
        wf_peers(ps),
    ensures
        spec_parse_peers(spec_peers_list_bytes(ps) + rest, ps.len() as int) == Ok::<
            (Seq<PeerView>, Seq<u8>),
            crate::utils::MessageCodecError,
        >((ps, rest)),
    decreases ps.len(),
{
    if ps.len() == 0 {
        assert(spec_peers_list_bytes(ps) + rest =~= rest);
        assert(ps =~= Seq::<PeerView>::empty());
    } else {
        let b = spec_peers_list_bytes(ps) + rest;
        let pb = spec_peer_bytes(ps[0]);
        let lb = spec_u64_to_be_bytes(pb.len() as u64);
        let tl = spec_peers_list_bytes(ps.skip(1));
        assert(b == lb + (pb + (tl + rest))) by {
            lemma_concat_assoc(lb + pb, tl, rest);
            lemma_concat_assoc(lb, pb, tl + rest);
        }
        assert(spec_parse_u64(b) == Ok::<(u64, Seq<u8>), crate::utils::MessageCodecError>(
            (pb.len() as u64, pb + (tl + rest)),
        )) by {
            lemma_peer_bytes_len(ps[0]);
            lemma_concat_take_skip(lb, pb + (tl + rest));
            lemma_u64_be_roundtrip(pb.len() as u64);
        }
        assert(spec_parse_peer(pb + (tl + rest)) == Ok::<
            (PeerView, Seq<u8>),
            crate::utils::MessageCodecError,
        >((ps[0], tl + rest))) by {
            lemma_parse_peer_roundtrip(ps[0], tl + rest);
        }
        assert(spec_parse_peers(tl + rest, ps.len() - 1) == Ok::<
            (Seq<PeerView>, Seq<u8>),
            crate::utils::MessageCodecError,
        >((ps.skip(1), rest))) by {
            assert(wf_peers(ps.skip(1)));
            lemma_parse_peers_roundtrip(ps.skip(1), rest);
        }
        assert(seq![ps[0]] + ps.skip(1) =~= ps);
    }
}

/// Reading back the payload of a message recovers the message: the round
/// trip of the codec below the framing layer.
#[verifier::rlimit(100)]
#[verifier::spinoff_prover]
pub proof fn lemma_parse_payload_roundtrip(m: MessageView)
    requires
        wf_message(m),
    ensures
        spec_parse_message(spec_payload_bytes(m)) == Ok::<
            Option<MessageView>,
            crate::utils::MessageCodecError,
        >(Some(m)),
{
    let p = spec_payload_bytes(m);
    match m {
        MessageView::Ping(pv) => {
            assert(p[0] == PING);
            lemma_concat_take_skip(seq![PING], spec_peer_bytes(pv));
            lemma_parse_body_ping(PING, p.skip(1));
            assert(p.skip(1) + Seq::<u8>::empty() =~= p.skip(1));
            lemma_parse_peer_roundtrip(pv, Seq::<u8>::empty());
        },
        MessageView::Pong(pv) => {
            assert(p[0] == PONG);
            lemma_concat_take_skip(seq![PONG], spec_peer_bytes(pv));
            lemma_parse_body_pong(PONG, p.skip(1));
            assert(p.skip(1) + Seq::<u8>::empty() =~= p.skip(1));
            lemma_parse_peer_roundtrip(pv, Seq::<u8>::empty());
        },
        MessageView::Payload(s) => {
            assert(p[0] == PAYLOAD);
            lemma_concat_take_skip(seq![PAYLOAD], spec_str_u64(s));
            lemma_parse_body_payload(PAYLOAD, p.skip(1));
            assert(p.skip(1) + Seq::<u8>::empty() =~= p.skip(1));
            lemma_parse_str_u64_roundtrip(s, Seq::<u8>::empty());
        },
        MessageView::RequestFile(a) => {
            assert(p[0] == REQUEST_FILE);
            lemma_concat_take_skip(seq![REQUEST_FILE], spec_artist_bytes(a));
            lemma_parse_body_request_file(REQUEST_FILE, p.skip(1));
            assert(p.skip(1) + Seq::<u8>::empty() =~= p.skip(1));
            lemma_parse_artist_roundtrip(a, Seq::<u8>::empty());
        },
        MessageView::ArtistsRequest => {
            assert(p[0] == ARTISTS_REQUEST);
            lemma_parse_body_artists_request(ARTISTS_REQUEST, p.skip(1));
        },
        MessageView::ArtistsResponse(xs) => {
            assert(p[0] == ARTISTS_RESPONSE);
            let nb = spec_u64_to_be_bytes(xs.len() as u64);
            let xb = spec_artists_bytes(xs);
            assert(p.skip(1) =~= nb + xb) by {
                lemma_concat_assoc(seq![ARTISTS_RESPONSE], nb, xb);
                lemma_concat_take_skip(seq![ARTISTS_RESPONSE], nb + xb);
            }
            lemma_parse_body_artists_response(ARTISTS_RESPONSE, p.skip(1));
            assert(spec_parse_u64(nb + xb) == Ok::<(u64, Seq<u8>), crate::utils::MessageCodecError>(
                (xs.len() as u64, xb),
            )) by {
                lemma_concat_take_skip(nb, xb);
                lemma_u64_be_roundtrip(xs.len() as u64);
            }
            assert(xb + Seq::<u8>::empty() =~= xb);
            lemma_parse_artists_roundtrip(xs, Seq::<u8>::empty());
        },
        MessageView::AlbumRequest(a) => {
            assert(p[0] == ALBUM_REQUEST);
            lemma_concat_take_skip(seq![ALBUM_REQUEST], spec_album_bytes(a));
            lemma_parse_body_album_request(ALBUM_REQUEST, p.skip(1));
            assert(p.skip(1) + Seq::<u8>::empty() =~= p.skip(1));
            lemma_parse_album_roundtrip(a, Seq::<u8>::empty());
        },
        MessageView::AlbumResponse(a) => {
            assert(p[0] == ALBUM_RESPONSE);
            lemma_concat_take_skip(seq![ALBUM_RESPONSE], spec_album_bytes(a));
            lemma_parse_body_album_response(ALBUM_RESPONSE, p.skip(1));
            assert(p.skip(1) + Seq::<u8>::empty() =~= p.skip(1));
            lemma_parse_album_roundtrip(a, Seq::<u8>::empty());
        },
        MessageView::PeersRequest => {
            assert(p[0] == PEERS_REQUEST);
            lemma_parse_body_peers_request(PEERS_REQUEST, p.skip(1));
        },
        MessageView::PeersResponse(ps) => {
            assert(p[0] == PEERS_RESPONSE);
            let nb = spec_u64_to_be_bytes(ps.len() as u64);
            let pb = spec_peers_list_bytes(ps);
            assert(p.skip(1) =~= nb + pb) by {
                lemma_concat_assoc(seq![PEERS_RESPONSE], nb, pb);
                lemma_concat_take_skip(seq![PEERS_RESPONSE], nb + pb);
            }
            lemma_parse_body_peers_response(PEERS_RESPONSE, p.skip(1));
            assert(spec_parse_u64(nb + pb) == Ok::<(u64, Seq<u8>), crate::utils::MessageCodecError>(
                (ps.len() as u64, pb),
            )) by {
                lemma_concat_take_skip(nb, pb);
                lemma_u64_be_roundtrip(ps.len() as u64);
            }
            assert(pb + Seq::<u8>::empty() =~= pb);
            lemma_parse_peers_roundtrip(ps, Seq::<u8>::empty());
        },
        MessageView::DownloadRequest(a) => {
            assert(p[0] == DOWNLOAD_REQUEST);
            lemma_concat_take_skip(seq![DOWNLOAD_REQUEST], spec_album_bytes(a));
            lemma_parse_body_download_request(DOWNLOAD_REQUEST, p.skip(1));
            assert(p.skip(1) + Seq::<u8>::empty() =~= p.skip(1));
            lemma_parse_album_roundtrip(a, Seq::<u8>::empty());
        },
        MessageView::Okay => {
            assert(p[0] == OK);
            lemma_parse_body_ok(OK, p.skip(1));
        },
    }
}

/// A written frame, followed by anything, decodes back to its message, and
/// consuming it leaves exactly what followed: the codec's round trip.
#[verifier::rlimit(100)]
#[verifier::spinoff_prover]
pub proof fn lemma_frame_roundtrip(m: MessageView, rest: Seq<u8>)
    requires
        wf_message(m),
        spec_payload_bytes(m).len() <= u64::MAX,
    ensures
        spec_frame_complete(spec_frame(m) + rest),
        spec_frame_payload(spec_frame(m) + rest) == spec_payload_bytes(m),
        spec_frame_rest(spec_frame(m) + rest) == rest,
        spec_parse_message(spec_payload_bytes(m)) == Ok::<
            Option<MessageView>,
            crate::utils::MessageCodecError,
        >(Some(m)),
{
    let p = spec_payload_bytes(m);
    let lb = spec_u64_to_be_bytes(p.len() as u64);
    let b = spec_frame(m) + rest;
    assert(b == lb + (p + rest)) by {
        lemma_concat_assoc(lb, p, rest);
    }
    lemma_concat_take_skip(lb, p + rest);
    lemma_u64_be_roundtrip(p.len() as u64);
    lemma_concat_take_skip(p, rest);
    lemma_parse_payload_roundtrip(m);
}

/// No strict prefix of a frame is a complete frame: on a partial buffer the
/// decoder waits rather than failing.
pub proof fn lemma_partial_frame_incomplete(m: MessageView, i: int)
    requires
        spec_payload_bytes(m).len() <= u64::MAX,
        0 <= i < spec_frame(m).len(),
    ensures
        !spec_frame_complete(spec_frame(m).take(i)),
{
    let p = spec_payload_bytes(m);
    let lb = spec_u64_to_be_bytes(p.len() as u64);
    let f = spec_frame(m);
    if i >= 8 {
        assert(f.take(i).take(8) =~= lb);
        lemma_u64_be_roundtrip(p.len() as u64);
        assert(f.take(i).len() - 8 == i - 8);
        assert(i - 8 < p.len());
    }
}

/// Two frames written back to back decode to their two messages in order,
/// whatever the frame sizes: frames do not bleed into one another.
pub proof fn lemma_frame_isolation(m1: MessageView, m2: MessageView)
    requires
        wf_message(m1),
        wf_message(m2),
        spec_payload_bytes(m1).len() <= u64::MAX,
        spec_payload_bytes(m2).len() <= u64::MAX,
    ensures
        spec_frame_complete(spec_frame(m1) + spec_frame(m2)),
        spec_parse_message(spec_frame_payload(spec_frame(m1) + spec_frame(m2))) == Ok::<
            Option<MessageView>,
            crate::utils::MessageCodecError,
        >(Some(m1)),
        spec_frame_rest(spec_frame(m1) + spec_frame(m2)) == spec_frame(m2),
        spec_frame_complete(spec_frame(m2)),
        spec_parse_message(spec_frame_payload(spec_frame(m2))) == Ok::<
            Option<MessageView>,
            crate::utils::MessageCodecError,
        >(Some(m2)),
        spec_frame_rest(spec_frame(m2)) == Seq::<u8>::empty(),
{
    lemma_frame_roundtrip(m1, spec_frame(m2));
    assert(spec_frame(m2) + Seq::<u8>::empty() =~= spec_frame(m2));
    lemma_frame_roundtrip(m2, Seq::<u8>::empty());
}

/// The stateless frame codec.
pub struct MessageCodec {}

impl MessageCodec {
    pub fn new() -> (r: MessageCodec)
        ensures
            r == (MessageCodec {  }),
    {
        MessageCodec {  }
    }

    /// Appends exactly one whole frame holding the event; never a partial one.
    pub fn encode(&mut self, event: MessageEvent, dst: &mut bytes::BytesMut) -> (r: Result<
        (),
        MessageCodecError,
    >)
        requires
            msg_encodable(event@),
        ensures
            r == Ok::<(), MessageCodecError>(()),
            buf_bytes(*final(dst)) == buf_bytes(*old(dst)) + spec_frame(event@),
    {
        let buf = encode_payload(&event);
        let n = buf_len(&buf);
        buf_put_u64(dst, n as u64);
        buf_unsplit(dst, buf);
        proof {
            lemma_concat_assoc(
                buf_bytes(*old(dst)),
                spec_u64_to_be_bytes(spec_payload_bytes(event@).len() as u64),
                spec_payload_bytes(event@),
            );
        }
        Ok(())
    }

    /// Reads one whole frame off the front of the buffer, if one is there,
    /// and decodes its payload. A buffer without a whole frame is left
    /// untouched and yields nothing; an unknown tag consumes the frame and
    /// yields nothing.
    pub fn decode(&mut self, src: &mut bytes::BytesMut) -> (r: Result<
        Option<MessageEvent>,
        MessageCodecError,
    >)
        ensures
            !spec_frame_complete(buf_bytes(*old(src))) ==> r == Ok::<
                Option<MessageEvent>,
                MessageCodecError,
            >(None) && buf_bytes(*final(src)) == buf_bytes(*old(src)),
            spec_frame_complete(buf_bytes(*old(src))) ==> buf_bytes(*final(src))
                == spec_frame_rest(buf_bytes(*old(src))) && (match spec_parse_message(
                spec_frame_payload(buf_bytes(*old(src))),
            ) {
                Ok(Some(mv)) => r matches Ok(Some(m)) && m@ == mv,
                Ok(None) => r == Ok::<Option<MessageEvent>, MessageCodecError>(None),
                Err(e) => r == Err::<Option<MessageEvent>, MessageCodecError>(spec_lift_err(e)),
            }),
    {
        let len = buf_len(src);
        if len < 8 {
            return Ok(None);
        }
        let b0 = buf_byte_at(src, 0);
        let b1 = buf_byte_at(src, 1);
        let b2 = buf_byte_at(src, 2);
        let b3 = buf_byte_at(src, 3);
        let b4 = buf_byte_at(src, 4);
        let b5 = buf_byte_at(src, 5);
        let b6 = buf_byte_at(src, 6);
        let b7 = buf_byte_at(src, 7);
        let bytes_len: u64 = ((b0 as u64) << 56) | ((b1 as u64) << 48) | ((b2 as u64) << 40) | ((
        b3 as u64) << 32) | ((b4 as u64) << 24) | ((b5 as u64) << 16) | ((b6 as u64) << 8) | (
        b7 as u64);
        proof {
            assert(buf_bytes(*src).take(8)[0] == b0);
            assert(bytes_len == spec_u64_from_be_bytes(buf_bytes(*src).take(8)));
        }
        if ((len - 8) as u64) < bytes_len {
            return Ok(None);
        }
        let _ = buf_split_to(src, 8);
        let mut data = buf_split_to(src, bytes_len as usize);
        decode_payload(&mut data)
    }
}

/// Writes the tag byte and body of one message into a fresh buffer.
#[verifier::rlimit(100)]
#[verifier::spinoff_prover]
fn encode_payload(event: &MessageEvent) -> (buf: bytes::BytesMut)
    requires
        msg_encodable(event@),
    ensures
        buf_bytes(buf) == spec_payload_bytes(event@),
{
    let mut buf = buf_new();
    match event {
        MessageEvent::Ping(peer) => {
            buf_put_u8(&mut buf, PING);
            let pb = peer.to_bytes();
            buf_unsplit(&mut buf, pb);
            assert(buf_bytes(buf) =~= spec_payload_bytes(event@));
        },
        MessageEvent::Pong(peer) => {
            buf_put_u8(&mut buf, PONG);
            let pb = peer.to_bytes();
            buf_unsplit(&mut buf, pb);
            assert(buf_bytes(buf) =~= spec_payload_bytes(event@));
        },
        MessageEvent::Payload(message) => {
            buf_put_u8(&mut buf, PAYLOAD);
            put_str_u64(&mut buf, message);
            assert(buf_bytes(buf) =~= spec_payload_bytes(event@));
        },
        MessageEvent::RequestFile(artist_data) => {
            buf_put_u8(&mut buf, REQUEST_FILE);
            let ab = artist_data.to_bytes();
            buf_unsplit(&mut buf, ab);
            assert(buf_bytes(buf) =~= spec_payload_bytes(event@));
        },
        MessageEvent::ArtistsRequest => {
            buf_put_u8(&mut buf, ARTISTS_REQUEST);
            assert(buf_bytes(buf) =~= spec_payload_bytes(event@));
        },
        MessageEvent::ArtistsResponse(artists) => {
            buf_put_u8(&mut buf, ARTISTS_RESPONSE);
            buf_put_u64(&mut buf, artists.len() as u64);
            put_artists(&mut buf, artists);
            assert(buf_bytes(buf) =~= spec_payload_bytes(event@));
        },
        MessageEvent::AlbumRequest(album) => {
            buf_put_u8(&mut buf, ALBUM_REQUEST);
            let ab = album.to_bytes();
            buf_unsplit(&mut buf, ab);
            assert(buf_bytes(buf) =~= spec_payload_bytes(event@));
        },
        MessageEvent::AlbumResponse(album) => {
            buf_put_u8(&mut buf, ALBUM_RESPONSE);
            let ab = album.to_bytes();
            buf_unsplit(&mut buf, ab);
            assert(buf_bytes(buf) =~= spec_payload_bytes(event@));
        },
        MessageEvent::PeersRequest => {
            buf_put_u8(&mut buf, PEERS_REQUEST);
            assert(buf_bytes(buf) =~= spec_payload_bytes(event@));
        },
        MessageEvent::PeersResponse(peers) => {
            buf_put_u8(&mut buf, PEERS_RESPONSE);
            buf_put_u64(&mut buf, peers.len() as u64);
            put_peers_list(&mut buf, peers);
            assert(buf_bytes(buf) =~= spec_payload_bytes(event@));
        },
        MessageEvent::DownloadRequest(album) => {
            buf_put_u8(&mut buf, DOWNLOAD_REQUEST);
            let ab = album.to_bytes();
            buf_unsplit(&mut buf, ab);
            assert(buf_bytes(buf) =~= spec_payload_bytes(event@));
        },
        MessageEvent::Okay => {
            buf_put_u8(&mut buf, OK);
            assert(buf_bytes(buf) =~= spec_payload_bytes(event@));
        },
    }
    buf
}

/// Appending one record extends the wire form of a peer list at its tail.
pub proof fn lemma_peers_list_bytes_snoc(ps: Seq<PeerView>, p: PeerView)
    ensures
        spec_peers_list_bytes(ps.push(p)) == spec_peers_list_bytes(ps) + (spec_u64_to_be_bytes(
            spec_peer_bytes(p).len() as u64,
        ) + spec_peer_bytes(p)),
    decreases ps.len(),
{
    let x = spec_u64_to_be_bytes(spec_peer_bytes(p).len() as u64) + spec_peer_bytes(p);
    if ps.len() == 0 {
        assert(ps.push(p)[0] == p);
        assert(ps.push(p).skip(1) =~= Seq::<PeerView>::empty());
        assert(spec_peers_list_bytes(Seq::<PeerView>::empty()) == Seq::<u8>::empty());
        assert(spec_peers_list_bytes(ps.push(p)) == x + Seq::<u8>::empty());
        assert(x + Seq::<u8>::empty() =~= Seq::<u8>::empty() + x);
        assert(spec_peers_list_bytes(ps) + x == Seq::<u8>::empty() + x);
    } else {
        assert(ps.push(p)[0] == ps[0]);
        assert(ps.push(p).skip(1) =~= ps.skip(1).push(p));
        lemma_peers_list_bytes_snoc(ps.skip(1), p);
        let h = spec_u64_to_be_bytes(spec_peer_bytes(ps[0]).len() as u64) + spec_peer_bytes(ps[0]);
        lemma_concat_assoc(h, spec_peers_list_bytes(ps.skip(1)), x);
    }
}

/// Appends a peer list in its wire form.
fn put_peers_list(buf: &mut bytes::BytesMut, ps: &Vec<Peer>)
    requires
        peers_encodable(peers_view(ps@)),
    ensures
        buf_bytes(*final(buf)) == buf_bytes(*old(buf)) + spec_peers_list_bytes(peers_view(ps@)),
{
    let mut i: usize = 0;
    while i < ps.len()
        invariant
            i <= ps@.len(),
            peers_encodable(peers_view(ps@)),
            buf_bytes(*buf) == buf_bytes(*old(buf)) + spec_peers_list_bytes(
                peers_view(ps@).take(i as int),
            ),
        decreases ps@.len() - i,
    {
        proof {
            assert(peers_view(ps@)[i as int] == ps@[i as int]@);
        }
        let pb = ps[i].to_bytes();
        buf_put_u64(buf, buf_len(&pb) as u64);
        buf_unsplit(buf, pb);
        proof {
            assert(peers_view(ps@).take(i + 1) =~= peers_view(ps@).take(i as int).push(
                ps@[i as int]@,
            ));
            lemma_peers_list_bytes_snoc(peers_view(ps@).take(i as int), ps@[i as int]@);
            let h = spec_peers_list_bytes(peers_view(ps@).take(i as int));
            let x = spec_u64_to_be_bytes(spec_peer_bytes(ps@[i as int]@).len() as u64)
                + spec_peer_bytes(ps@[i as int]@);
            lemma_concat_assoc(buf_bytes(*old(buf)), h, x);
            assert(buf_bytes(*buf) =~= buf_bytes(*old(buf)) + spec_peers_list_bytes(
                peers_view(ps@).take(i + 1),
            ));
        }
        i = i + 1;
    }
    proof {
        assert(peers_view(ps@).take(ps@.len() as int) =~= peers_view(ps@));
    }
}

/// Reads `n` length-prefixed peers off the front of the buffer.
#[verifier::rlimit(100)]
#[verifier::spinoff_prover]
fn read_peers(buf: &mut bytes::BytesMut, n: u64) -> (r: Result<
    Vec<Peer>,
    crate::utils::MessageCodecError,
>)
    ensures
        match spec_parse_peers(buf_bytes(*old(buf)), n as int) {
            Ok((ps, rest)) => (r matches Ok(v) && peers_view(v@) == ps) && buf_bytes(*final(buf))
                == rest,
            Err(e) => r == Err::<Vec<Peer>, crate::utils::MessageCodecError>(e),
        },
{
    let ghost s0 = buf_bytes(*buf);
    let mut acc: Vec<Peer> = Vec::new();
    let mut remaining = n;
    while remaining > 0
        invariant
            s0 == buf_bytes(*old(buf)),
            spec_parse_peers(s0, n as int) == (match spec_parse_peers(
                buf_bytes(*buf),
                remaining as int,
            ) {
                Ok((ps2, rest)) => Ok::<(Seq<PeerView>, Seq<u8>), crate::utils::MessageCodecError>(
                    (peers_view(acc@) + ps2, rest),
                ),
                Err(e) => Err(e),
            }),
        decreases remaining,
    {
        let ghost cur = buf_bytes(*buf);
        let _len = match take_u64(buf) {
            Ok(v) => v,
            Err(e) => {
                return Err(e);
            },
        };
        let ghost cur1 = buf_bytes(*buf);
        let p = match Peer::from_bytes(buf) {
            Ok(v) => v,
            Err(e) => {
                return Err(e);
            },
        };
        proof {
            let (pv, nxt) = spec_parse_peer(cur1)->Ok_0;
            assert(peers_view(acc@.push(p)) =~= peers_view(acc@).push(pv));
            match spec_parse_peers(nxt, remaining - 1) {
                Ok((ps3, rest3)) => {
                    assert(peers_view(acc@).push(pv) + ps3 =~= peers_view(acc@) + (seq![pv] + ps3));
                },
                Err(_) => {},
            }
        }
        acc.push(p);
        remaining = remaining - 1;
    }
    proof {
        assert(peers_view(acc@) + Seq::<PeerView>::empty() =~= peers_view(acc@));
    }
    Ok(acc)
}

/// Decodes the body of a message whose tag was already read.
#[verifier::rlimit(100)]
#[verifier::spinoff_prover]
fn decode_body(tag: u8, data: &mut bytes::BytesMut) -> (r: Result<
    Option<MessageEvent>,
    MessageCodecError,
>)
    ensures
        match spec_parse_body(tag, buf_bytes(*old(data))) {
            Ok(Some(mv)) => r matches Ok(Some(m)) && m@ == mv,
            Ok(None) => r == Ok::<Option<MessageEvent>, MessageCodecError>(None),
            Err(e) => r == Err::<Option<MessageEvent>, MessageCodecError>(spec_lift_err(e)),
        },
{
    if tag == PING {
        proof {
            lemma_parse_body_ping(tag, buf_bytes(*data));
        }
        match Peer::from_bytes(data) {
            Ok(p) => Ok(Some(MessageEvent::Ping(p))),
            Err(e) => Err(lift_err(e)),
        }
    } else if tag == PONG {
        proof {
            lemma_parse_body_pong(tag, buf_bytes(*data));
        }
        match Peer::from_bytes(data) {
            Ok(p) => Ok(Some(MessageEvent::Pong(p))),
            Err(e) => Err(lift_err(e)),
        }
    } else if tag == PAYLOAD {
        proof {
            lemma_parse_body_payload(tag, buf_bytes(*data));
        }
        match read_str_u64(data) {
            Ok(s) => Ok(Some(MessageEvent::Payload(s))),
            Err(e) => Err(lift_err(e)),
        }
    } else {
        decode_body_mid(tag, data)
    }
}

/// Decodes the body of a message of the artist exchanges.
#[verifier::rlimit(100)]
#[verifier::spinoff_prover]
fn decode_body_mid(tag: u8, data: &mut bytes::BytesMut) -> (r: Result<
    Option<MessageEvent>,
    MessageCodecError,
>)
    requires
        tag != PING,
        tag != PONG,
        tag != PAYLOAD,
    ensures
        match spec_parse_body(tag, buf_bytes(*old(data))) {
            Ok(Some(mv)) => r matches Ok(Some(m)) && m@ == mv,
            Ok(None) => r == Ok::<Option<MessageEvent>, MessageCodecError>(None),
            Err(e) => r == Err::<Option<MessageEvent>, MessageCodecError>(spec_lift_err(e)),
        },
{
    if tag == REQUEST_FILE {
        proof {
            lemma_parse_body_request_file(tag, buf_bytes(*data));
        }
        match ArtistData::from_bytes(data) {
            Ok(a) => Ok(Some(MessageEvent::RequestFile(a))),
            Err(e) => Err(lift_err(e)),
        }
    } else if tag == ARTISTS_REQUEST {
        proof {
            lemma_parse_body_artists_request(tag, buf_bytes(*data));
        }
        Ok(Some(MessageEvent::ArtistsRequest))
    } else if tag == ARTISTS_RESPONSE {
        proof {
            lemma_parse_body_artists_response(tag, buf_bytes(*data));
        }
        let n = match take_u64(data) {
            Ok(v) => v,
            Err(e) => {
                return Err(lift_err(e));
            },
        };
        match read_artists(data, n) {
            Ok(xs) => Ok(Some(MessageEvent::ArtistsResponse(xs))),
            Err(e) => Err(lift_err(e)),
        }
    } else {
        decode_body_rest(tag, data)
    }
}

/// Decodes the body of a message whose tag lies past the artist exchanges.
#[verifier::rlimit(100)]
#[verifier::spinoff_prover]
fn decode_body_rest(tag: u8, data: &mut bytes::BytesMut) -> (r: Result<
    Option<MessageEvent>,
    MessageCodecError,
>)
    requires
        tag != PING,
        tag != PONG,
        tag != PAYLOAD,
        tag != REQUEST_FILE,
        tag != ARTISTS_REQUEST,
        tag != ARTISTS_RESPONSE,
    ensures
        match spec_parse_body(tag, buf_bytes(*old(data))) {
            Ok(Some(mv)) => r matches Ok(Some(m)) && m@ == mv,
            Ok(None) => r == Ok::<Option<MessageEvent>, MessageCodecError>(None),
            Err(e) => r == Err::<Option<MessageEvent>, MessageCodecError>(spec_lift_err(e)),
        },
{
    if tag == ALBUM_REQUEST {
        proof {
            lemma_parse_body_album_request(tag, buf_bytes(*data));
        }
        match AlbumData::from_bytes(data) {
            Ok(a) => Ok(Some(MessageEvent::AlbumRequest(a))),
            Err(e) => Err(lift_err(e)),
        }
    } else if tag == ALBUM_RESPONSE {
        proof {
            lemma_parse_body_album_response(tag, buf_bytes(*data));
        }
        match AlbumData::from_bytes(data) {
            Ok(a) => Ok(Some(MessageEvent::AlbumResponse(a))),
            Err(e) => Err(lift_err(e)),
        }
    } else if tag == PEERS_REQUEST {
        proof {
            lemma_parse_body_peers_request(tag, buf_bytes(*data));
        }
        Ok(Some(MessageEvent::PeersRequest))
    } else if tag == PEERS_RESPONSE {
        proof {
            lemma_parse_body_peers_response(tag, buf_bytes(*data));
        }
        let n = match take_u64(data) {
            Ok(v) => v,
            Err(e) => {
                return Err(lift_err(e));
            },
        };
        match read_peers(data, n) {
            Ok(ps) => Ok(Some(MessageEvent::PeersResponse(ps))),
            Err(e) => Err(lift_err(e)),
        }
    } else if tag == DOWNLOAD_REQUEST {
        proof {
            lemma_parse_body_download_request(tag, buf_bytes(*data));
        }
        match AlbumData::from_bytes(data) {
            Ok(a) => Ok(Some(MessageEvent::DownloadRequest(a))),
            Err(e) => Err(lift_err(e)),
        }
    } else if tag == OK {
        proof {
            lemma_parse_body_ok(tag, buf_bytes(*data));
        }
        Ok(Some(MessageEvent::Okay))
    } else {
        proof {
            lemma_parse_body_unknown(tag, buf_bytes(*data));
        }
        Ok(None)
    }
}

/// Decodes the payload of one frame: the tag byte, then the body.
fn decode_payload(data: &mut bytes::BytesMut) -> (r: Result<
    Option<MessageEvent>,
    MessageCodecError,
>)
    ensures
        match spec_parse_message(buf_bytes(*old(data))) {
            Ok(Some(mv)) => r matches Ok(Some(m)) && m@ == mv,
            Ok(None) => r == Ok::<Option<MessageEvent>, MessageCodecError>(None),
            Err(e) => r == Err::<Option<MessageEvent>, MessageCodecError>(spec_lift_err(e)),
        },
{
    if buf_len(data) == 0 {
        return Ok(None);
    }
    let tag = buf_byte_at(data, 0);
    let _ = buf_split_to(data, 1);
    decode_body(tag, data)
}

} // verus!
