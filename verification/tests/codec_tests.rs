use bytes::{BufMut, BytesMut};

use music_snobster::codec::{MessageCodec, MessageCodecError, MessageEvent};
use music_snobster::data::{AlbumData, ArtistData, TrackData};
use music_snobster::peer::Peer;
use music_snobster::utils::Address;

fn addr_v6_1(port: u16) -> Address {
    Address::new(0, 1, port)
}

#[test]
fn test_artists_request() {
    let make_album = |artist: &str, title: &str| {
        AlbumData::new(
            Some(artist.as_bytes().to_vec()),
            title.as_bytes().to_vec(),
            1,
            Some(vec![TrackData::new(b"test".to_vec(), 12_000, 250)]),
        )
    };
    let ad = ArtistData {
        artist: b"my_artist".to_vec(),
        albums: Some(vec![make_album("test1", "test1-1"), make_album("test4", "test4-4")]),
    };
    let mut res = BytesMut::new();
    let ad_vec = vec![ad.clone(), ad.clone()];
    let artist_request = MessageEvent::ArtistsResponse(ad_vec);
    MessageCodec::new().encode(artist_request.clone(), &mut res).unwrap();
    assert_eq!(MessageCodec::new().decode(&mut res).unwrap(), Some(artist_request));
}

#[test]
fn test_serialize_album_request() {
    let mut res = BytesMut::new();
    let album_request = MessageEvent::AlbumRequest(AlbumData::new(
        Some(b"test2".to_vec()),
        b"test3".to_vec(),
        0,
        Some(vec![TrackData::new(b"test".to_vec(), 12_000, 250)]),
    ));
    MessageCodec::new().encode(album_request.clone(), &mut res).unwrap();
    let left = MessageCodec::new().decode(&mut res).unwrap().unwrap();
    assert_eq!(left, album_request);
}

#[test]
fn test_encode_ping() {
    let localhost_v6 = addr_v6_1(8000);
    let mut b = BytesMut::new();
    b.put_u64(31);
    b.put_u8(0xF0);
    b.put_u64(16);
    b.put_slice(&[0, 0, 0, 0, 0, 0, 0, 0, 0, 0, 0, 0, 0, 0, 0, 1]);
    b.put_u16(8000);
    b.put_u8(0);
    b.put_u8(0);
    b.put_u8(0);
    b.put_u8(0);
    assert_eq!(
        MessageCodec::new().decode(&mut b).unwrap(),
        Some(MessageEvent::Ping(Peer::new(localhost_v6, false, None, None, None)))
    );
}

#[test]
fn test_encode_pong() {
    let localhost_v6 = addr_v6_1(8000);
    let mut b = BytesMut::new();
    b.put_u64(31);
    b.put_u8(0xF1);
    b.put_u64(16);
    b.put_slice(&[0, 0, 0, 0, 0, 0, 0, 0, 0, 0, 0, 0, 0, 0, 0, 1]);
    b.put_u16(8000);
    b.put_u8(0);
    b.put_u8(0);
    b.put_u8(0);
    b.put_u8(0);
    assert_eq!(
        MessageCodec::new().decode(&mut b).unwrap(),
        Some(MessageEvent::Pong(Peer::new(localhost_v6, false, None, None, None)))
    );
}

#[test]
fn test_encode_payload() {
    let mut b = BytesMut::new();
    b.put_u64(21);
    b.put_u8(0xF2);
    b.put_u64(12);
    b.put(&b"hello world\0"[..]);
    assert_eq!(
        MessageCodec::new().decode(&mut b).unwrap(),
        Some(MessageEvent::Payload(b"hello world".to_vec()))
    );

    let mut res = BytesMut::new();
    MessageCodec::new()
        .encode(MessageEvent::Payload(b"hello world\0".to_vec()), &mut res)
        .unwrap();

    let mut b = BytesMut::new();
    b.put_u64(21);
    b.put_u8(0xF2);
    b.put_u64(12);
    b.put(&b"hello world\0"[..]);
    assert_eq!(res[..], b[..]);
}

fn sample_ping() -> MessageEvent {
    MessageEvent::Ping(Peer::new(
        addr_v6_1(9001),
        true,
        Some(b"alice".to_vec()),
        None,
        None,
    ))
}

#[test]
fn test_roundtrip_every_variant() {
    let album = AlbumData::new(
        Some(b"x".to_vec()),
        b"y".to_vec(),
        2,
        Some(vec![TrackData::new(b"t1".to_vec(), 320, 200)]),
    );
    let artist = ArtistData::new(b"x".to_vec(), Some(vec![album.clone()]));
    let peer = Peer::new(addr_v6_1(9001), true, Some(b"alice".to_vec()), Some(b"pk".to_vec()), Some(b"sig".to_vec()));
    let msgs = vec![
        MessageEvent::Ping(peer.clone()),
        MessageEvent::Pong(peer.clone()),
        MessageEvent::Payload(b"hi".to_vec()),
        MessageEvent::RequestFile(artist.clone()),
        MessageEvent::ArtistsRequest,
        MessageEvent::ArtistsResponse(vec![artist.clone()]),
        MessageEvent::AlbumRequest(album.clone()),
        MessageEvent::AlbumResponse(album.clone()),
        MessageEvent::PeersRequest,
        MessageEvent::PeersResponse(vec![peer.clone()]),
        MessageEvent::DownloadRequest(album.clone()),
        MessageEvent::Okay,
    ];
    for m in msgs {
        let mut buf = BytesMut::new();
        MessageCodec::new().encode(m.clone(), &mut buf).unwrap();
        assert_eq!(MessageCodec::new().decode(&mut buf).unwrap(), Some(m));
        assert_eq!(buf.len(), 0);
    }
}

#[test]
fn test_partial_buffers_yield_none() {
    let mut full = BytesMut::new();
    MessageCodec::new().encode(sample_ping(), &mut full).unwrap();
    for cut in 0..full.len() {
        let mut prefix = BytesMut::new();
        prefix.extend_from_slice(&full[..cut]);
        let got = MessageCodec::new().decode(&mut prefix).unwrap();
        assert_eq!(got, None);
        assert_eq!(prefix.len(), cut);
    }
}

#[test]
fn test_frame_isolation() {
    let m1 = sample_ping();
    let m2 = MessageEvent::PeersRequest;
    let mut buf = BytesMut::new();
    MessageCodec::new().encode(m1.clone(), &mut buf).unwrap();
    MessageCodec::new().encode(m2.clone(), &mut buf).unwrap();
    assert_eq!(MessageCodec::new().decode(&mut buf).unwrap(), Some(m1));
    assert_eq!(MessageCodec::new().decode(&mut buf).unwrap(), Some(m2));
    assert_eq!(buf.len(), 0);
}

#[test]
fn test_unknown_tag_consumes_frame() {
    let mut buf = BytesMut::new();
    buf.put_u64(3);
    buf.put_u8(0x01);
    buf.put_u8(0xAA);
    buf.put_u8(0xBB);
    let trailing = MessageEvent::PeersRequest;
    MessageCodec::new().encode(trailing.clone(), &mut buf).unwrap();
    assert_eq!(MessageCodec::new().decode(&mut buf).unwrap(), None);
    assert_eq!(MessageCodec::new().decode(&mut buf).unwrap(), Some(trailing));
}

#[test]
fn test_short_field_is_serialization_error() {
    // A payload frame whose inner length field is cut off by the outer frame.
    let mut buf = BytesMut::new();
    buf.put_u64(4);
    buf.put_u8(0xF2);
    buf.put_u8(0);
    buf.put_u8(0);
    buf.put_u8(0);
    assert_eq!(
        MessageCodec::new().decode(&mut buf),
        Err(MessageCodecError::SerializationError)
    );
}

#[test]
fn test_overlong_claim_is_length_mismatch() {
    // A payload frame whose string claims more bytes than the frame holds.
    let mut buf = BytesMut::new();
    buf.put_u64(11);
    buf.put_u8(0xF2);
    buf.put_u64(100);
    buf.put_u8(1);
    buf.put_u8(2);
    assert_eq!(
        MessageCodec::new().decode(&mut buf),
        Err(MessageCodecError::DataLengthMismatch)
    );
}

#[test]
fn test_peer_roundtrip_all_fields() {
    let p = Peer::new(
        Address::new(7, 9, 4242),
        true,
        Some(b"name".to_vec()),
        Some(b"key".to_vec()),
        Some(b"sig".to_vec()),
    );
    let mut b = p.to_bytes();
    let q = Peer::from_bytes(&mut b).unwrap();
    assert_eq!(p, q);
    assert_eq!(b.len(), 0);
}

#[test]
fn test_bytes() {
    let mut buf = BytesMut::with_capacity(64);
    buf.put_u8(0);
    buf.put_u16(0);
    buf.put_u32(0);
    buf.put_u8(1);
    assert_eq!(music_snobster::utils::take_u32(&mut buf).unwrap(), 0);
    assert_eq!(music_snobster::utils::take_u32(&mut buf).unwrap(), 1);
}
