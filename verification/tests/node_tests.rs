use music_snobster::chunk::{DownloadChunk, SongData};
use music_snobster::codec::MessageEvent;
use music_snobster::data::Collection;
use music_snobster::download_memory::{DownloadMemory, assemble_bytes};
use music_snobster::handlers::process_event;
use music_snobster::peer::Peer;
use music_snobster::peer_connection::{InboundOutboundMessage, PeerConnection};
use music_snobster::scheduler::run_scheduled_tasks;
use music_snobster::service::Service;
use music_snobster::storage::Db;
use music_snobster::utils::Address;

fn addr(last: u64, port: u16) -> Address {
    Address::new(0, last, port)
}

fn make_node(name: &str, port: u16) -> Service {
    let me = Peer::new(addr(1, port), true, Some(name.as_bytes().to_vec()), None, None);
    let db = Db::new(me.clone());
    Service::new(me, db, Collection::new(vec![]), port)
}

#[test]
fn test_handshake() {
    // Node A dials node B; A pings, B pongs, catalogs are exchanged.
    let mut a = make_node("alice", 9001);
    let mut b = make_node("bob", 9002);
    let a_conn_on_b = addr(1, 9001);
    let b_conn_on_a = addr(1, 9002);

    let ping = MessageEvent::Ping(a.my_contact.clone());
    let b_replies = process_event(&mut b, a_conn_on_b, ping);
    assert_eq!(b_replies.len(), 2);
    assert!(matches!(b_replies[0], MessageEvent::Pong(_)));
    assert!(matches!(b_replies[1], MessageEvent::ArtistsRequest));

    for reply in b_replies {
        let a_replies = process_event(&mut a, b_conn_on_a, reply);
        for r2 in a_replies {
            let _ = process_event(&mut b, a_conn_on_b, r2);
        }
    }

    assert_eq!(a.database.all_peers().len(), 1);
    assert_eq!(a.database.all_peers()[0].name, Some(b"bob".to_vec()));
    assert_eq!(b.database.all_peers().len(), 1);
    assert_eq!(b.database.all_peers()[0].name, Some(b"alice".to_vec()));
}

#[test]
fn test_rekey() {
    // B accepts A on an ephemeral connection address; A's ping advertises its
    // service address; both keys must answer with the same entity.
    let mut b = make_node("bob", 9002);
    let conn = addr(1, 55000);
    let service = addr(1, 9001);
    let alice = Peer::new(service, true, Some(b"alice".to_vec()), None, None);
    let _ = process_event(&mut b, conn, MessageEvent::Ping(alice));
    assert!(b.database.get_entity(&service).is_some());
    assert_eq!(b.database.get_entity(&service), b.database.get_entity(&conn));
}

#[test]
fn test_peer_gossip() {
    // A knows B and C; D asks for peers; the reply carries A itself first and
    // then B and C; D takes them all and will dial B and C next tick.
    let mut a = make_node("alice", 9001);
    let peer_b = Peer::new(addr(2, 9002), true, Some(b"bob".to_vec()), None, None);
    let peer_c = Peer::new(addr(3, 9003), true, Some(b"carol".to_vec()), None, None);
    a.database.add_peer(peer_b.clone(), Collection::new(vec![]));
    a.database.add_peer(peer_c.clone(), Collection::new(vec![]));

    let replies = process_event(&mut a, addr(4, 50000), MessageEvent::PeersRequest);
    assert_eq!(replies.len(), 1);
    let list = match &replies[0] {
        MessageEvent::PeersResponse(ps) => ps.clone(),
        _ => panic!("expected a peer list"),
    };
    assert_eq!(list.len(), 3);
    assert_eq!(list[0].name, Some(b"alice".to_vec()));
    assert_eq!(list[1].name, Some(b"bob".to_vec()));
    assert_eq!(list[2].name, Some(b"carol".to_vec()));

    let mut d = make_node("dave", 9004);
    let _ = process_event(&mut d, addr(1, 50001), MessageEvent::PeersResponse(list));
    assert_eq!(d.database.all_peers().len(), 3);

    let dial = run_scheduled_tasks(&mut d);
    assert!(dial.contains(&peer_b.address));
    assert!(dial.contains(&peer_c.address));
}

#[test]
fn test_session_death() {
    // A session dies; within one scheduler tick its registry entity is gone.
    let mut b = make_node("bob", 9002);
    let conn = addr(1, 55000);
    let alice = Peer::new(addr(1, 9001), true, Some(b"alice".to_vec()), None, None);
    let _ = process_event(&mut b, conn, MessageEvent::Ping(alice));
    assert_eq!(b.database.all_peers().len(), 1);

    let mut session = PeerConnection::new(conn);
    session.close();
    b.peers.push(session);

    let _ = run_scheduled_tasks(&mut b);
    assert!(b.database.get_entity(&conn).is_none());
    assert!(b.database.get_entity(&addr(1, 9001)).is_none());
    assert_eq!(b.database.all_peers().len(), 0);
}

#[test]
fn test_session_ordering() {
    // Two queued outbound messages and one decoded inbound message come out
    // in exactly that order.
    let mut c = PeerConnection::new(addr(1, 50000));
    let x = MessageEvent::PeersRequest;
    let y = MessageEvent::ArtistsRequest;
    let z = MessageEvent::Okay;
    c.send_message(x.clone());
    c.send_message(y.clone());
    c.push_inbound(z.clone());
    assert!(matches!(c.poll_message(), Some(InboundOutboundMessage::Outbound(m)) if m == x));
    assert!(matches!(c.poll_message(), Some(InboundOutboundMessage::Outbound(m)) if m == y));
    assert!(matches!(c.poll_message(), Some(InboundOutboundMessage::Inbound(m)) if m == z));
    assert!(c.poll_message().is_none());
}

#[test]
fn test_scheduler_enqueues_ping_then_peers_request() {
    let mut node = make_node("alice", 9001);
    node.peers.push(PeerConnection::new(addr(2, 50001)));
    node.peers.push(PeerConnection::new(addr(3, 50002)));

    let _ = run_scheduled_tasks(&mut node);

    let mut ping_count = 0;
    let mut req_count = 0;
    for session in node.peers.iter_mut() {
        assert_eq!(session.outbound.len(), 2);
        assert!(matches!(session.outbound[0], MessageEvent::Ping(_)));
        assert!(matches!(session.outbound[1], MessageEvent::PeersRequest));
        ping_count += 1;
        req_count += 1;
    }
    assert_eq!(ping_count, 2);
    assert_eq!(req_count, 2);
}

#[test]
fn test_artists_request_reply_carries_catalog() {
    let me = Peer::new(addr(1, 9001), true, Some(b"alice".to_vec()), None, None);
    let db = Db::new(me.clone());
    let catalog = Collection::new(vec![music_snobster::data::ArtistData::new(
        b"X".to_vec(),
        None,
    )]);
    let mut node = Service::new(me, db, catalog, 9001);
    let replies = process_event(&mut node, addr(2, 50000), MessageEvent::ArtistsRequest);
    assert_eq!(replies.len(), 1);
    match &replies[0] {
        MessageEvent::ArtistsResponse(xs) => {
            assert_eq!(xs.len(), 1);
            assert_eq!(xs[0].artist, b"X".to_vec());
        },
        _ => panic!("expected a catalog reply"),
    }
}

#[test]
fn test_assemble_song() {
    let mut dm = DownloadMemory::new("static".to_string());
    let sd = SongData::new(1, 4, "artist".to_string(), "album".to_string(), "filename".to_string());
    dm.add_song(sd);

    let mut full = false;
    for i in 0..4 {
        let dc = DownloadChunk::new(1, [7u8; 2048], i);
        full = dm.add_chunk(dc);
    }
    assert!(full);
    let bytes = assemble_bytes(dm.get_song(1));
    assert_eq!(bytes.len(), 4 * 2048);
    dm.remove_song(1);
}

#[test]
fn test_assemble_trims_last_chunk() {
    let mut song = SongData::new(9, 2, "a".to_string(), "b".to_string(), "c".to_string());
    let full_chunk = [5u8; 2048];
    let mut last_chunk = [0u8; 2048];
    last_chunk[0] = 1;
    last_chunk[1] = 2;
    assert!(!song.add_chunk(DownloadChunk::new(9, full_chunk, 0)));
    assert!(song.add_chunk(DownloadChunk::new(9, last_chunk, 1)));
    let bytes = assemble_bytes(&song);
    assert_eq!(bytes.len(), 2048 + 2);
    assert_eq!(bytes[2048], 1);
    assert_eq!(bytes[2049], 2);
}
