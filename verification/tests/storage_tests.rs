use music_snobster::data::{AlbumData, ArtistData, Collection, TrackData};
use music_snobster::ecs::NodeEvent;
use music_snobster::peer::Peer;
use music_snobster::storage::{Db, dump};
use music_snobster::utils::Address;

fn addr(last: u64, port: u16) -> Address {
    Address::new(0, last, port)
}

fn local_peer() -> Peer {
    Peer::get_self(addr(99, 8081))
}

fn empty() -> Collection {
    Collection::new(vec![])
}

#[test]
fn test_dump_and_load() {
    let ip1 = addr(1, 8000);
    let ip2 = addr(2, 8000);

    let p1 = Peer::new(ip1, false, Some(b"TEST".to_vec()), None, Some(b"ZYX987".to_vec()));
    let p2 = Peer::new(ip2, true, None, Some(b"ABC123".to_vec()), None);

    let mut bytes = dump(&vec![p1.clone(), p2.clone()]);
    let db = Db::new_from_snapshot(local_peer(), &mut bytes).unwrap();
    let peers = db.all_peers();
    assert_eq!(peers, vec![p1, p2]);
}

#[test]
fn test_update_collection() {
    let ip1 = addr(1, 8000);
    let ip2 = addr(2, 8000);

    let p1 = Peer::new(ip1, false, Some(b"TEST".to_vec()), None, Some(b"ZYX987".to_vec()));
    let p2 = Peer::new(ip2, true, None, Some(b"ABC123".to_vec()), None);

    let mut bytes = dump(&vec![p1.clone(), p2.clone()]);
    let mut db = Db::new_from_snapshot(local_peer(), &mut bytes).unwrap();
    assert_eq!(db.get_collection(&ip1), Collection::new(vec![]));

    let artist_data = ArtistData::new(
        b"test1".to_vec(),
        Some(vec![
            AlbumData::new(
                Some(b"test2".to_vec()),
                b"test3".to_vec(),
                0,
                Some(vec![TrackData::new(b"test".to_vec(), 12_000, 250)]),
            ),
            AlbumData::new(Some(b"test2".to_vec()), b"test3".to_vec(), 0, None),
        ]),
    );
    let artists_vec = vec![artist_data.clone()];
    let collection = Collection::new(artists_vec);
    db.update_collection(&ip1, collection.clone());
    assert_eq!(db.all_peers().len(), 2);
    assert_eq!(db.get_collection(&ip1), collection);
}

#[test]
fn test_add_tracks() {
    let ip1 = addr(1, 8000);
    let p1 = Peer::new(ip1, false, Some(b"TEST".to_vec()), None, Some(b"ZYX987".to_vec()));

    let mut bytes = dump(&vec![p1.clone()]);
    let mut db = Db::new_from_snapshot(local_peer(), &mut bytes).unwrap();
    let artist_data = ArtistData::new(
        b"first artist".to_vec(),
        Some(vec![
            AlbumData::new(Some(b"first artist".to_vec()), b"first album".to_vec(), 0, None),
            AlbumData::new(Some(b"first artist".to_vec()), b"second album".to_vec(), 0, None),
        ]),
    );
    let collection = Collection::new(vec![artist_data]);
    db.update_collection(&ip1, collection.clone());
    assert_eq!(None, db.get_collection(&ip1).artists[0].albums.as_ref().unwrap()[0].tracks);

    let album_data = AlbumData::new(
        Some(b"first artist".to_vec()),
        b"first album".to_vec(),
        1,
        Some(vec![TrackData::new(b"test".to_vec(), 12_000, 250)]),
    );
    db.add_tracks(&ip1, album_data);
    assert_eq!(
        1,
        db.get_collection(&ip1).artists[0].albums.as_ref().unwrap()[0]
            .tracks
            .as_ref()
            .unwrap()
            .len()
    );
}

#[test]
fn test_add_peers() {
    let ip1 = addr(1, 8000);
    let p1 = Peer::new(ip1, false, Some(b"TEST".to_vec()), None, Some(b"ZYX987".to_vec()));

    let mut db = Db::new(local_peer());
    db.add_peers(vec![p1.clone()]);
    let album_data = AlbumData::new(
        Some(b"first artist".to_vec()),
        b"first album".to_vec(),
        1,
        Some(vec![TrackData::new(b"test".to_vec(), 12_000, 250)]),
    );
    db.add_tracks(&ip1, album_data);
    db.add_peers(vec![p1]);
    assert_eq!(
        1,
        db.get_collection(&ip1).artists[0].albums.as_ref().unwrap()[0]
            .tracks
            .as_ref()
            .unwrap()
            .len()
    );
    let album_data = AlbumData::new(
        Some(b"first artist".to_vec()),
        b"second album".to_vec(),
        1,
        Some(vec![TrackData::new(b"test".to_vec(), 12_000, 250)]),
    );
    db.add_tracks(&ip1, album_data);
    assert_eq!(
        1,
        db.get_collection(&ip1).artists[0].albums.as_ref().unwrap()[1]
            .tracks
            .as_ref()
            .unwrap()
            .len()
    );
}

#[test]
fn test_make_world() {
    let ip1 = addr(1, 80);
    let ip2 = addr(2, 80);
    let ip3 = addr(3, 80);
    let ip4 = addr(4, 80);

    let mut db = Db::new(local_peer());
    db.insert_entity(Peer::new(ip1, true, Some(b"first".to_vec()), None, None), empty());
    db.insert_entity(Peer::new(ip2, true, Some(b"second".to_vec()), None, None), empty());
    db.insert_entity(Peer::new(ip3, true, Some(b"third".to_vec()), None, None), empty());
    db.insert_entity(Peer::new(ip4, true, Some(b"fourth".to_vec()), None, None), empty());
    db.maintain();
    assert!(db.get_entity(&ip1).is_some());
    assert!(db.get_entity(&ip2).is_some());

    db.delete_entity(&ip1);
    db.maintain();
    assert!(db.get_entity(&ip1).is_none());
    assert!(db.get_entity(&ip2).is_some());

    db.delete_entity(&ip3);
    db.maintain();
    assert!(db.get_entity(&ip3).is_none());
    assert!(db.get_entity(&ip4).is_some());

    let ip5 = addr(5, 80);
    db.insert_entity(Peer::new(ip5, true, Some(b"fifth".to_vec()), None, None), empty());
    db.maintain();

    assert_eq!(3, db.all_peers().len());
    assert_eq!(db.all_peers()[2].address, ip5);
}

#[test]
fn test_duplicate_insert() {
    let ip1 = addr(1, 80);
    let mut db = Db::new(local_peer());
    db.insert_entity(Peer::new(ip1, true, Some(b"first".to_vec()), None, None), empty());
    db.insert_entity(Peer::new(ip1, true, Some(b"second".to_vec()), None, None), empty());
    db.maintain();
    assert_eq!(1, db.all_peers().len());
    assert_eq!(db.all_peers()[0].name, Some(b"second".to_vec()));
}

#[test]
fn test_replacement() {
    let ip1 = addr(1, 80);
    let mut db = Db::new(local_peer());
    db.insert_entity(Peer::new(ip1, true, Some(b"first".to_vec()), None, None), empty());
    db.maintain();
    let e1 = db.get_entity(&ip1).unwrap();

    db.insert_entity(Peer::new(ip1, true, Some(b"second".to_vec()), None, None), empty());
    db.maintain();
    assert_eq!(1, db.all_peers().len());

    let e2 = db.get_entity(&ip1).unwrap();
    assert_ne!(e1, e2);
    assert_eq!(db.all_peers()[0].name, Some(b"second".to_vec()));
}

#[test]
fn test_duplicate_dedup_events() {
    let ip1 = addr(1, 9001);
    let mut db = Db::new(local_peer());
    let reader = db.track();
    db.insert_entity(Peer::new(ip1, true, Some(b"alice".to_vec()), None, None), empty());
    let first = db.get_entity(&ip1).unwrap();
    let seen = db.read_events(reader);
    assert_eq!(seen, vec![NodeEvent::Modified(first)]);

    db.insert_entity(Peer::new(ip1, true, Some(b"alice2".to_vec()), None, None), empty());
    db.maintain();
    let second = db.get_entity(&ip1).unwrap();
    let seen = db.read_events(reader);
    assert_eq!(seen, vec![NodeEvent::Removed(first), NodeEvent::Modified(second)]);
    assert_eq!(1, db.all_peers().len());
    assert_eq!(db.all_peers()[0].name, Some(b"alice2".to_vec()));
}

#[test]
fn test_add_peer_local_is_noop() {
    let me = local_peer();
    let my_addr = me.address;
    let mut db = Db::new(me);
    db.add_peer(Peer::new(my_addr, true, Some(b"imposter".to_vec()), None, None), empty());
    assert_eq!(0, db.all_peers().len());
    assert!(db.get_entity(&my_addr).is_none());
}

#[test]
fn test_insert_address_binds_both_keys() {
    let service_addr = addr(1, 9001);
    let conn_addr = addr(7, 55000);
    let p = Peer::new(service_addr, true, Some(b"alice".to_vec()), None, None);
    let mut db = Db::new(local_peer());
    db.add_peer(p.clone(), empty());
    db.insert_address(&conn_addr, p);
    assert_eq!(db.get_entity(&conn_addr), db.get_entity(&service_addr));
    assert!(db.get_entity(&conn_addr).is_some());
}

#[test]
fn test_delete_entity_removes_both_bindings() {
    let service_addr = addr(1, 9001);
    let conn_addr = addr(7, 55000);
    let p = Peer::new(service_addr, true, Some(b"alice".to_vec()), None, None);
    let mut db = Db::new(local_peer());
    db.add_peer(p.clone(), empty());
    db.insert_address(&conn_addr, p);
    db.delete_entity(&service_addr);
    assert!(db.get_entity(&service_addr).is_none());
    assert!(db.get_entity(&conn_addr).is_none());
    assert_eq!(0, db.all_peers().len());
}

#[test]
fn test_track_merge_replaces_album() {
    let ip1 = addr(1, 8000);
    let p1 = Peer::new(ip1, true, Some(b"owner".to_vec()), None, None);
    let mut db = Db::new(local_peer());
    db.add_peer(p1, empty());
    let base = Collection::new(vec![ArtistData::new(
        b"X".to_vec(),
        Some(vec![AlbumData::new(Some(b"X".to_vec()), b"Y".to_vec(), 0, None)]),
    )]);
    db.update_collection(&ip1, base);

    let t1 = TrackData::new(b"T1".to_vec(), 320, 100);
    db.add_tracks(
        &ip1,
        AlbumData::new(Some(b"X".to_vec()), b"Y".to_vec(), 1, Some(vec![t1.clone()])),
    );
    let c = db.get_collection(&ip1);
    assert_eq!(c.artists.len(), 1);
    let albums = c.artists[0].albums.as_ref().unwrap();
    assert_eq!(albums.len(), 1);
    assert_eq!(albums[0].tracks.as_ref().unwrap(), &vec![t1]);

    let t2 = TrackData::new(b"T2".to_vec(), 320, 100);
    db.add_tracks(
        &ip1,
        AlbumData::new(Some(b"X".to_vec()), b"Y".to_vec(), 1, Some(vec![t2.clone()])),
    );
    let c = db.get_collection(&ip1);
    let albums = c.artists[0].albums.as_ref().unwrap();
    assert_eq!(albums.len(), 1);
    assert_eq!(albums[0].tracks.as_ref().unwrap(), &vec![t2]);
}
