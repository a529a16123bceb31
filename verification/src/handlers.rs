use vstd::prelude::*;

use crate::codec::{MessageEvent, MessageView, peers_view};
use crate::data::{ArtistView, Collection};
use crate::peer::PeerView;
use crate::service::{Service, spec_filter_collection, wf_service};
use crate::storage::{
    DbState, spec_add_peer, spec_add_peers, spec_add_tracks, spec_insert_address, spec_lookup,
    spec_peers_of, spec_update_collection, wf_db,
};
use crate::storage::lemma_add_peers_local;
use crate::peer_connection::messages_view;
use crate::utils::Address;

verus! {

/// How one inbound message moves the registry: a ping or pong first admits
/// the peer and then binds the session's connection address to it; a catalog
/// reply replaces or merges into the sender's catalog; a peer list is added
/// wholesale; everything else leaves the registry alone.
pub open spec fn spec_handle_db(st: DbState, addr: Address, m: MessageView) -> DbState {
    match m {
        MessageView::Ping(p) => {
            let st1 = spec_add_peer(st, p, Seq::<ArtistView>::empty());
            if spec_lookup(st1.indexes, p.address) is Some {
                spec_insert_address(st1, addr, p)
            } else {
                st1
            }
        },
        MessageView::Pong(p) => {
            let st1 = spec_add_peer(st, p, Seq::<ArtistView>::empty());
            if spec_lookup(st1.indexes, p.address) is Some {
                spec_insert_address(st1, addr, p)
            } else {
                st1
            }
        },
        MessageView::ArtistsResponse(xs) => spec_update_collection(st, addr, xs),
        MessageView::AlbumResponse(a) => spec_add_tracks(st, addr, a),
        MessageView::PeersResponse(ps) => spec_add_peers(st, ps),
        _ => st,
    }
}

/// What one inbound message is answered with: a ping earns a pong and a
/// catalog request, a pong a catalog request, catalog and peer requests
/// their answers; everything else earns silence.
pub open spec fn spec_replies(
    st: DbState,
    my: PeerView,
    local: Seq<ArtistView>,
    m: MessageView,
) -> Seq<MessageView> {
    match m {
        MessageView::Ping(_) => seq![MessageView::Pong(my), MessageView::ArtistsRequest],
        MessageView::Pong(_) => seq![MessageView::ArtistsRequest],
        MessageView::ArtistsRequest => seq![
            MessageView::ArtistsResponse(spec_filter_collection(local, None, None, true)),
        ],
        MessageView::AlbumRequest(a) => seq![
            MessageView::ArtistsResponse(
                spec_filter_collection(local, a.artist, Some(a.album_title), true),
            ),
        ],
        MessageView::PeersRequest => seq![
            MessageView::PeersResponse(seq![my] + spec_peers_of(st)),
        ],
        _ => Seq::<MessageView>::empty(),
    }
}

/// What an inbound message asks of the registry before it can be handled:
/// room for a fresh entity, an entity to hang a catalog on, or a peer whose
/// record can be written back out.
pub open spec fn event_ok(st: DbState, addr: Address, m: MessageView) -> bool {
    match m {
        MessageView::Ping(p) => crate::peer::peer_encodable(p) && st.next_id < u64::MAX,
        MessageView::Pong(p) => crate::peer::peer_encodable(p) && st.next_id < u64::MAX,
        MessageView::ArtistsResponse(_) => spec_lookup(st.indexes, addr) is Some,
        MessageView::AlbumResponse(a) => spec_lookup(st.indexes, addr) is Some && a.artist is Some,
        MessageView::PeersResponse(ps) => (forall|i: int|
            0 <= i < ps.len() ==> crate::peer::peer_encodable(#[trigger] ps[i])) && st.next_id
            as int + ps.len() <= u64::MAX as int,
        _ => true,
    }
}

/// Handles one decoded inbound message for the session on `addr`: moves the
/// registry as the message demands and hands back the replies to write out,
/// in order.
pub fn process_event(state: &mut Service, addr: Address, msg: MessageEvent) -> (r: Vec<
    MessageEvent,
>)
    requires
        wf_service(old(state)),
        event_ok(old(state).database@, addr, msg@),
    ensures
        final(state).database@ == spec_handle_db(old(state).database@, addr, msg@),
        messages_view(r@) == spec_replies(
            old(state).database@,
            old(state).my_contact@,
            old(state).local_collection@,
            msg@,
        ),
        wf_service(final(state)),
        final(state).peers == old(state).peers,
        final(state).my_contact == old(state).my_contact,
        final(state).local_collection == old(state).local_collection,
        final(state).counter == old(state).counter,
        final(state).port == old(state).port,
{
    let mut replies: Vec<MessageEvent> = Vec::new();
    proof {
        assert(messages_view(Seq::<MessageEvent>::empty()) =~= Seq::<MessageView>::empty());
    }
    match msg {
        MessageEvent::Ping(p) => {
            let p2 = p.clone();
            let empty = Collection { artists: Vec::new() };
            proof {
                assert(empty@ =~= Seq::<ArtistView>::empty());
            }
            state.database.add_peer(p, empty);
            match state.database.get_entity(&p2.address) {
                Some(_) => {
                    state.database.insert_address(&addr, p2);
                },
                None => {},
            }
            replies.push(MessageEvent::Pong(state.my_contact.clone()));
            replies.push(MessageEvent::ArtistsRequest);
            proof {
                assert(messages_view(replies@) =~= spec_replies(
                    old(state).database@,
                    old(state).my_contact@,
                    old(state).local_collection@,
                    msg@,
                ));
            }
        },
        MessageEvent::Pong(p) => {
            let p2 = p.clone();
            let empty = Collection { artists: Vec::new() };
            proof {
                assert(empty@ =~= Seq::<ArtistView>::empty());
            }
            state.database.add_peer(p, empty);
            match state.database.get_entity(&p2.address) {
                Some(_) => {
                    state.database.insert_address(&addr, p2);
                },
                None => {},
            }
            replies.push(MessageEvent::ArtistsRequest);
            proof {
                assert(messages_view(replies@) =~= spec_replies(
                    old(state).database@,
                    old(state).my_contact@,
                    old(state).local_collection@,
                    msg@,
                ));
            }
        },
        MessageEvent::ArtistsRequest => {
            let xs = state.get_collection(true, None, None);
            replies.push(MessageEvent::ArtistsResponse(xs));
            proof {
                assert(messages_view(replies@) =~= spec_replies(
                    old(state).database@,
                    old(state).my_contact@,
                    old(state).local_collection@,
                    msg@,
                ));
            }
        },
        MessageEvent::ArtistsResponse(artist_data) => {
            state.database.update_collection(&addr, Collection { artists: artist_data });
        },
        MessageEvent::AlbumRequest(album) => {
            let xs = state.get_collection(true, album.artist.as_ref(), Some(&album.album_title));
            replies.push(MessageEvent::ArtistsResponse(xs));
            proof {
                assert(messages_view(replies@) =~= spec_replies(
                    old(state).database@,
                    old(state).my_contact@,
                    old(state).local_collection@,
                    msg@,
                ));
            }
        },
        MessageEvent::AlbumResponse(album_data) => {
            state.database.add_tracks(&addr, album_data);
        },
        MessageEvent::PeersRequest => {
            let mut ps: Vec<crate::peer::Peer> = Vec::new();
            ps.push(state.my_contact.clone());
            let mut all = state.database.all_peers();
            let ghost allv = peers_view(all@);
            proof {
                assert(peers_view(ps@) =~= seq![old(state).my_contact@]);
            }
            let mut i: usize = 0;
            while all.len() > 0
                invariant
                    peers_view(ps@) == seq![old(state).my_contact@] + allv.take(
                        allv.len() - all@.len(),
                    ),
                    allv.skip(allv.len() - all@.len()) == peers_view(all@),
                    all@.len() <= allv.len(),
                decreases all@.len(),
            {
                let ghost pre = peers_view(all@);
                let p = all.remove(0);
                proof {
                    assert(peers_view(all@) =~= pre.skip(1));
                    assert(p@ == pre[0]);
                    let k = allv.len() - all@.len();
                    assert(allv.skip(k - 1).skip(1) =~= allv.skip(k));
                    assert(allv[k - 1] == pre[0]);
                    assert((seq![old(state).my_contact@] + allv.take(k - 1)).push(allv[k - 1])
                        =~= seq![old(state).my_contact@] + allv.take(k));
                }
                ps.push(p);
                proof {
                    assert(peers_view(ps@) =~= (seq![old(state).my_contact@] + allv.take(
                        allv.len() - all@.len() - 1,
                    )).push(allv[allv.len() - all@.len() - 1]));
                }
            }
            proof {
                assert(allv.take(allv.len() as int) =~= allv);
                assert(peers_view(ps@) =~= seq![old(state).my_contact@] + spec_peers_of(
                    old(state).database@,
                ));
            }
            replies.push(MessageEvent::PeersResponse(ps));
            proof {
                assert(messages_view(replies@) =~= spec_replies(
                    old(state).database@,
                    old(state).my_contact@,
                    old(state).local_collection@,
                    msg@,
                ));
            }
        },
        MessageEvent::PeersResponse(peers_list) => {
            proof {
                let psv = peers_view(peers_list@);
                assert forall|i: int| 0 <= i < peers_list@.len() implies crate::peer::peer_encodable(
                    (#[trigger] peers_list@[i])@,
                ) by {
                    assert(psv[i] == peers_list@[i]@);
                }
                crate::storage::lemma_add_peers_local(old(state).database@, psv);
            }
            state.database.add_peers(peers_list);
        },
        MessageEvent::RequestFile(_) => {},
        MessageEvent::Payload(_) => {},
        MessageEvent::DownloadRequest(_) => {},
        MessageEvent::Okay => {},
    }
    replies
}

} // verus!
