use vstd::prelude::*;

use crate::codec::MessageEvent;
use crate::data::{AlbumView, ArtistData, ArtistView, Collection, artists_view};
use crate::peer::{Peer, opt_bytes_view};
use crate::peer_connection::{ConnView, PeerConnection, messages_view};
use crate::storage::{Db, DbState, wf_db};
use crate::utils::bytes_eq;

verus! {

/// The node's shared state: the live sessions, the local identity, the peer
/// registry, the local catalog, and the listening port.
pub struct Service {
    pub peers: Vec<PeerConnection>,
    pub my_contact: Peer,
    pub database: Db,
    pub local_collection: Collection,
    pub counter: u8,
    pub port: u16,
}

pub open spec fn conns_view(s: Seq<PeerConnection>) -> Seq<ConnView> {
    s.map_values(|c: PeerConnection| c@)
}

/// The service is sound: its registry is well formed and carries the same
/// local identity that the service advertises.
pub open spec fn wf_service(s: &Service) -> bool {
    wf_db(s.database@) && s.database@.local == s.my_contact@
}

/// An album as the catalog reply carries it: with or without its tracks.
pub open spec fn spec_strip_album(a: AlbumView, track_data: bool) -> AlbumView {
    if track_data {
        a
    } else {
        AlbumView { tracks: None, ..a }
    }
}

/// The albums that pass the title filter, with tracks kept or dropped.
pub open spec fn spec_filter_albums(
    al: Seq<AlbumView>,
    bf: Option<Seq<u8>>,
    track_data: bool,
) -> Seq<AlbumView>
    decreases al.len(),
{
    if al.len() == 0 {
        Seq::<AlbumView>::empty()
    } else {
        let keep = match bf {
            None => true,
            Some(t) => al[0].album_title == t,
        };
        (if keep {
            seq![spec_strip_album(al[0], track_data)]
        } else {
            Seq::<AlbumView>::empty()
        }) + spec_filter_albums(al.skip(1), bf, track_data)
    }
}

pub open spec fn spec_filter_artist(a: ArtistView, bf: Option<Seq<u8>>, track_data: bool) -> ArtistView {
    ArtistView {
        artist: a.artist,
        albums: match a.albums {
            None => None,
            Some(al) => Some(spec_filter_albums(al, bf, track_data)),
        },
    }
}

/// The catalog filtered to one artist and one album title, each filter
/// optional, with tracks kept or dropped.
pub open spec fn spec_filter_collection(
    c: Seq<ArtistView>,
    af: Option<Seq<u8>>,
    bf: Option<Seq<u8>>,
    track_data: bool,
) -> Seq<ArtistView>
    decreases c.len(),
{
    if c.len() == 0 {
        Seq::<ArtistView>::empty()
    } else {
        let keep = match af {
            None => true,
            Some(n) => c[0].artist == n,
        };
        (if keep {
            seq![spec_filter_artist(c[0], bf, track_data)]
        } else {
            Seq::<ArtistView>::empty()
        }) + spec_filter_collection(c.skip(1), af, bf, track_data)
    }
}

/// Filtering one more artist extends the filtered catalog at its tail.
pub proof fn lemma_filter_collection_snoc(
    c: Seq<ArtistView>,
    a: ArtistView,
    af: Option<Seq<u8>>,
    bf: Option<Seq<u8>>,
    track_data: bool,
)
    ensures
        spec_filter_collection(c.push(a), af, bf, track_data) == spec_filter_collection(
            c,
            af,
            bf,
            track_data,
        ) + (if (match af {
            None => true,
            Some(n) => a.artist == n,
        }) {
            seq![spec_filter_artist(a, bf, track_data)]
        } else {
            Seq::<ArtistView>::empty()
        }),
    decreases c.len(),
{
    let x = if (match af {
        None => true,
        Some(n) => a.artist == n,
    }) {
        seq![spec_filter_artist(a, bf, track_data)]
    } else {
        Seq::<ArtistView>::empty()
    };
    if c.len() == 0 {
        assert(c.push(a)[0] == a);
        assert(c.push(a).skip(1) =~= Seq::<ArtistView>::empty());
        assert(spec_filter_collection(Seq::<ArtistView>::empty(), af, bf, track_data)
            == Seq::<ArtistView>::empty());
        assert(spec_filter_collection(c.push(a), af, bf, track_data) == x
            + Seq::<ArtistView>::empty());
        assert(x + Seq::<ArtistView>::empty() =~= Seq::<ArtistView>::empty() + x);
    } else {
        assert(c.push(a)[0] == c[0]);
        assert(c.push(a).skip(1) =~= c.skip(1).push(a));
        lemma_filter_collection_snoc(c.skip(1), a, af, bf, track_data);
        let h = if (match af {
            None => true,
            Some(n) => c[0].artist == n,
        }) {
            seq![spec_filter_artist(c[0], bf, track_data)]
        } else {
            Seq::<ArtistView>::empty()
        };
        assert(h + (spec_filter_collection(c.skip(1), af, bf, track_data) + x) =~= (h
            + spec_filter_collection(c.skip(1), af, bf, track_data)) + x);
    }
}

/// Filtering one more album extends the filtered list at its tail.
pub proof fn lemma_filter_albums_snoc(
    al: Seq<AlbumView>,
    a: AlbumView,
    bf: Option<Seq<u8>>,
    track_data: bool,
)
    ensures
        spec_filter_albums(al.push(a), bf, track_data) == spec_filter_albums(al, bf, track_data)
            + (if (match bf {
            None => true,
            Some(t) => a.album_title == t,
        }) {
            seq![spec_strip_album(a, track_data)]
        } else {
            Seq::<AlbumView>::empty()
        }),
    decreases al.len(),
{
    let x = if (match bf {
        None => true,
        Some(t) => a.album_title == t,
    }) {
        seq![spec_strip_album(a, track_data)]
    } else {
        Seq::<AlbumView>::empty()
    };
    if al.len() == 0 {
        assert(al.push(a)[0] == a);
        assert(al.push(a).skip(1) =~= Seq::<AlbumView>::empty());
        assert(spec_filter_albums(Seq::<AlbumView>::empty(), bf, track_data)
            == Seq::<AlbumView>::empty());
        assert(spec_filter_albums(al.push(a), bf, track_data) == x + Seq::<AlbumView>::empty());
        assert(x + Seq::<AlbumView>::empty() =~= Seq::<AlbumView>::empty() + x);
    } else {
        assert(al.push(a)[0] == al[0]);
        assert(al.push(a).skip(1) =~= al.skip(1).push(a));
        lemma_filter_albums_snoc(al.skip(1), a, bf, track_data);
        let h = if (match bf {
            None => true,
            Some(t) => al[0].album_title == t,
        }) {
            seq![spec_strip_album(al[0], track_data)]
        } else {
            Seq::<AlbumView>::empty()
        };
        assert(h + (spec_filter_albums(al.skip(1), bf, track_data) + x) =~= (h
            + spec_filter_albums(al.skip(1), bf, track_data)) + x);
    }
}

/// Filters one album list, keeping or dropping tracks.
fn filter_albums_exec(al: &Vec<crate::data::AlbumData>, bf: Option<&Vec<u8>>, track_data: bool) -> (r: Vec<
    crate::data::AlbumData,
>)
    ensures
        crate::data::albums_view(r@) == spec_filter_albums(
            crate::data::albums_view(al@),
            match bf {
                Some(v) => Some(v@),
                None => None,
            },
            track_data,
        ),
{
    let ghost av = crate::data::albums_view(al@);
    let ghost bfv: Option<Seq<u8>> = match bf {
        Some(v) => Some(v@),
        None => None,
    };
    let mut r: Vec<crate::data::AlbumData> = Vec::new();
    proof {
        assert(av.take(0) =~= Seq::<AlbumView>::empty());
        assert(crate::data::albums_view(r@) =~= spec_filter_albums(av.take(0), bfv, track_data));
    }
    let mut i: usize = 0;
    while i < al.len()
        invariant
            av == crate::data::albums_view(al@),
            av.len() == al@.len(),
            bfv == (match bf {
                Some(v) => Some(v@),
                None => None,
            }),
            i <= av.len(),
            crate::data::albums_view(r@) == spec_filter_albums(av.take(i as int), bfv, track_data),
        decreases av.len() - i,
    {
        proof {
            assert(av[i as int] == al@[i as int]@);
            assert(av.take(i + 1) =~= av.take(i as int).push(av[i as int]));
            lemma_filter_albums_snoc(av.take(i as int), av[i as int], bfv, track_data);
        }
        let keep = match bf {
            None => true,
            Some(t) => bytes_eq(&al[i].album_title, t),
        };
        if keep {
            let a0 = al[i].clone();
            if track_data {
                r.push(a0);
            } else {
                r.push(
                    crate::data::AlbumData {
                        artist: a0.artist,
                        album_title: a0.album_title,
                        track_count: a0.track_count,
                        tracks: None,
                    },
                );
            }
            proof {
                assert(crate::data::albums_view(r@) =~= spec_filter_albums(
                    av.take(i + 1),
                    bfv,
                    track_data,
                ));
            }
        } else {
            proof {
                assert(crate::data::albums_view(r@) =~= spec_filter_albums(
                    av.take(i + 1),
                    bfv,
                    track_data,
                ));
            }
        }
        i = i + 1;
    }
    proof {
        assert(av.take(av.len() as int) =~= av);
    }
    r
}

impl Service {
    /// A service over the given identity, registry, catalog and port.
    pub fn new(my_contact: Peer, database: Db, local_collection: Collection, port: u16) -> (r:
        Service)
        requires
            wf_db(database@),
            database@.local == my_contact@,
        ensures
            r.peers@.len() == 0,
            r.my_contact@ == my_contact@,
            r.database@ == database@,
            r.local_collection@ == local_collection@,
            r.counter == 0,
            r.port == port,
            wf_service(&r),
    {
        Service { peers: Vec::new(), my_contact, database, local_collection, counter: 0, port }
    }

    /// The local catalog, filtered to an artist and an album title when the
    /// filters are given, with tracks kept or dropped.
    pub fn get_collection(
        &self,
        track_data: bool,
        artist_filter: Option<&Vec<u8>>,
        album_filter: Option<&Vec<u8>>,
    ) -> (r: Vec<ArtistData>)
        ensures
            artists_view(r@) == spec_filter_collection(
                self.local_collection@,
                match artist_filter {
                    Some(v) => Some(v@),
                    None => None,
                },
                match album_filter {
                    Some(v) => Some(v@),
                    None => None,
                },
                track_data,
            ),
    {
        let ghost cv = self.local_collection@;
        let ghost afv: Option<Seq<u8>> = match artist_filter {
            Some(v) => Some(v@),
            None => None,
        };
        let ghost bfv: Option<Seq<u8>> = match album_filter {
            Some(v) => Some(v@),
            None => None,
        };
        let mut r: Vec<ArtistData> = Vec::new();
        proof {
            assert(cv.take(0) =~= Seq::<ArtistView>::empty());
            assert(artists_view(r@) =~= spec_filter_collection(cv.take(0), afv, bfv, track_data));
        }
        let c = &self.local_collection.artists;
        let mut i: usize = 0;
        while i < c.len()
            invariant
                cv == artists_view(c@),
                cv == self.local_collection@,
                cv.len() == c@.len(),
                afv == (match artist_filter {
                    Some(v) => Some(v@),
                    None => None,
                }),
                bfv == (match album_filter {
                    Some(v) => Some(v@),
                    None => None,
                }),
                i <= cv.len(),
                artists_view(r@) == spec_filter_collection(cv.take(i as int), afv, bfv, track_data),
            decreases cv.len() - i,
        {
            proof {
                assert(cv[i as int] == c@[i as int]@);
                assert(cv.take(i + 1) =~= cv.take(i as int).push(cv[i as int]));
                lemma_filter_collection_snoc(cv.take(i as int), cv[i as int], afv, bfv, track_data);
            }
            let keep = match artist_filter {
                None => true,
                Some(n) => bytes_eq(&c[i].artist, n),
            };
            if keep {
                let name = crate::peer::copy_bytes(&c[i].artist);
                let albums = match &c[i].albums {
                    None => None,
                    Some(al) => Some(filter_albums_exec(al, album_filter, track_data)),
                };
                r.push(ArtistData { artist: name, albums });
                proof {
                    assert(artists_view(r@) =~= spec_filter_collection(
                        cv.take(i + 1),
                        afv,
                        bfv,
                        track_data,
                    ));
                }
            } else {
                proof {
                    assert(artists_view(r@) =~= spec_filter_collection(
                        cv.take(i + 1),
                        afv,
                        bfv,
                        track_data,
                    ));
                }
            }
            i = i + 1;
        }
        proof {
            assert(cv.take(cv.len() as int) =~= cv);
        }
        r
    }

    /// A snapshot of the peers the registry holds.
    pub fn get_peers(&self) -> (r: Vec<Peer>)
        ensures
            crate::codec::peers_view(r@) == crate::storage::spec_peers_of(self.database@),
    {
        self.database.all_peers()
    }

    /// Bumps the service's tick counter.
    pub fn incr(&mut self)
        requires
            old(self).counter < 255,
        ensures
            final(self).counter == old(self).counter + 1,
            final(self).peers == old(self).peers,
            final(self).my_contact == old(self).my_contact,
            final(self).database == old(self).database,
            final(self).local_collection == old(self).local_collection,
            final(self).port == old(self).port,
    {
        self.counter = self.counter + 1;
    }

    /// Queues a copy of the message on every open session.
    pub fn broadcast(&mut self, message: &MessageEvent)
        ensures
            final(self).peers@.len() == old(self).peers@.len(),
            forall|i: int|
                0 <= i < old(self).peers@.len() ==> (#[trigger] final(self).peers@[i])@ == (
                if old(self).peers@[i]@.open {
                    ConnView {
                        outbound: old(self).peers@[i]@.outbound.push(message@),
                        ..old(self).peers@[i]@
                    }
                } else {
                    old(self).peers@[i]@
                }),
            final(self).my_contact == old(self).my_contact,
            final(self).database == old(self).database,
            final(self).local_collection == old(self).local_collection,
            final(self).counter == old(self).counter,
            final(self).port == old(self).port,
    {
        let n = self.peers.len();
        let mut i: usize = 0;
        while i < n
            invariant
                n == self.peers@.len(),
                n == old(self).peers@.len(),
                i <= n,
                forall|k: int|
                    i <= k < n ==> (#[trigger] self.peers@[k]) == old(self).peers@[k],
                forall|k: int|
                    0 <= k < i ==> (#[trigger] self.peers@[k])@ == (if old(self).peers@[k]@.open {
                        ConnView {
                            outbound: old(self).peers@[k]@.outbound.push(message@),
                            ..old(self).peers@[k]@
                        }
                    } else {
                        old(self).peers@[k]@
                    }),
                self.my_contact == old(self).my_contact,
                self.database == old(self).database,
                self.local_collection == old(self).local_collection,
                self.counter == old(self).counter,
                self.port == old(self).port,
            decreases n - i,
        {
            let mut c = self.peers.remove(i);
            if c.open {
                c.send_message(message.clone());
            }
            self.peers.insert(i, c);
            i = i + 1;
        }
    }
}

} // verus!
