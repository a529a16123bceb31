use vstd::prelude::*;

use crate::codec::{MessageEvent, MessageView};
use crate::peer_connection::{ConnView, PeerConnection};
use crate::service::{Service, conns_view, wf_service};
use crate::storage::{
    DbState, lemma_delete_entity_unbinds, lemma_lookup_remove_addr, lemma_lookup_remove_id,
    spec_delete_entity, spec_lookup, spec_peers_of, wf_db,
};
use crate::utils::Address;

verus! {

/// Queues a copy of the message on every open session, leaving closed ones
/// untouched.
pub open spec fn spec_enqueue_all(conns: Seq<ConnView>, m: MessageView) -> Seq<ConnView> {
    conns.map_values(
        |c: ConnView|
            if c.open {
                ConnView { outbound: c.outbound.push(m), ..c }
            } else {
                c
            },
    )
}

/// Deletes the registry entity of every closed session, in session order.
pub open spec fn spec_delete_closed(st: DbState, conns: Seq<ConnView>) -> DbState
    decreases conns.len(),
{
    if conns.len() == 0 {
        st
    } else {
        spec_delete_closed(
            if conns[0].open {
                st
            } else {
                spec_delete_entity(st, conns[0].addr)
            },
            conns.skip(1),
        )
    }
}

/// Whether some session is on the given connection address.
pub open spec fn spec_has_conn(conns: Seq<ConnView>, a: Address) -> bool {
    exists|i: int| 0 <= i < conns.len() && (#[trigger] conns[i]).addr == a
}

/// The service addresses in the registry that no live session reaches yet:
/// the ones the scheduler should dial.
pub open spec fn spec_dial_list(ps: Seq<crate::peer::PeerView>, conns: Seq<ConnView>) -> Seq<
    Address,
>
    decreases ps.len(),
{
    if ps.len() == 0 {
        Seq::<Address>::empty()
    } else {
        (if spec_has_conn(conns, ps[0].address) {
            Seq::<Address>::empty()
        } else {
            seq![ps[0].address]
        }) + spec_dial_list(ps.skip(1), conns)
    }
}

/// One more peer extends the dial list at its tail.
pub proof fn lemma_dial_list_snoc(
    ps: Seq<crate::peer::PeerView>,
    p: crate::peer::PeerView,
    conns: Seq<ConnView>,
)
    ensures
        spec_dial_list(ps.push(p), conns) == spec_dial_list(ps, conns) + (if spec_has_conn(
            conns,
            p.address,
        ) {
            Seq::<Address>::empty()
        } else {
            seq![p.address]
        }),
    decreases ps.len(),
{
    let x = if spec_has_conn(conns, p.address) {
        Seq::<Address>::empty()
    } else {
        seq![p.address]
    };
    if ps.len() == 0 {
        assert(ps.push(p)[0] == p);
        assert(ps.push(p).skip(1) =~= Seq::<crate::peer::PeerView>::empty());
        assert(spec_dial_list(Seq::<crate::peer::PeerView>::empty(), conns)
            == Seq::<Address>::empty());
        assert(spec_dial_list(ps.push(p), conns) == x + Seq::<Address>::empty());
        assert(x + Seq::<Address>::empty() =~= Seq::<Address>::empty() + x);
    } else {
        assert(ps.push(p)[0] == ps[0]);
        assert(ps.push(p).skip(1) =~= ps.skip(1).push(p));
        lemma_dial_list_snoc(ps.skip(1), p, conns);
        let h = if spec_has_conn(conns, ps[0].address) {
            Seq::<Address>::empty()
        } else {
            seq![ps[0].address]
        };
        assert(h + (spec_dial_list(ps.skip(1), conns) + x) =~= (h + spec_dial_list(
            ps.skip(1),
            conns,
        )) + x);
    }
}

/// Deleting entities never invents a binding: an unbound address stays
/// unbound, and a closed session's own address ends unbound.
pub proof fn lemma_delete_closed_unbinds(st: DbState, conns: Seq<ConnView>, a: Address)
    requires
        wf_db(st),
    ensures
        wf_db(spec_delete_closed(st, conns)),
        spec_lookup(st.indexes, a) is None ==> spec_lookup(
            spec_delete_closed(st, conns).indexes,
            a,
        ) is None,
    decreases conns.len(),
{
    if conns.len() > 0 {
        if conns[0].open {
            lemma_delete_closed_unbinds(st, conns.skip(1), a);
        } else {
            let st1 = spec_delete_entity(st, conns[0].addr);
            lemma_wf_delete(st, conns[0].addr);
            match spec_lookup(st.indexes, conns[0].addr) {
                Some(id) => {
                    lemma_lookup_remove_id(st.indexes, id, a);
                },
                None => {
                    lemma_lookup_remove_addr(st.indexes, conns[0].addr, a);
                },
            }
            lemma_delete_closed_unbinds(st1, conns.skip(1), a);
        }
    }
}

/// Deleting by address keeps the registry well formed.
pub proof fn lemma_wf_delete(st: DbState, a: Address)
    requires
        wf_db(st),
    ensures
        wf_db(spec_delete_entity(st, a)),
        spec_delete_entity(st, a).local == st.local,
        spec_lookup(spec_delete_entity(st, a).indexes, a) is None,
{
    lemma_delete_entity_unbinds(st, a);
    match spec_lookup(st.indexes, a) {
        Some(id) => {
            crate::storage::lemma_wf_evict(st, id);
        },
        None => {
            crate::storage::lemma_remove_addr_distinct(st.indexes, a);
            let st2 = spec_delete_entity(st, a);
            assert forall|k: int| 0 <= k < st2.indexes.len() implies crate::storage::spec_find_id(
                st2.entities,
                (#[trigger] st2.indexes[k]).1,
            ) >= 0 by {
                let k2 = choose|k2: int|
                    0 <= k2 < st.indexes.len() && st.indexes[k2] == st2.indexes[k];
            }
        },
    }
}

/// A closed session's entity does not survive the tick: within one pass its
/// address answers to nothing.
pub proof fn lemma_closed_deleted(st: DbState, conns: Seq<ConnView>, i: int)
    requires
        wf_db(st),
        0 <= i < conns.len(),
        !conns[i].open,
    ensures
        spec_lookup(spec_delete_closed(st, conns).indexes, conns[i].addr) is None,
    decreases conns.len(),
{
    assert(forall|k: int|
        0 <= k < conns.skip(1).len() ==> (#[trigger] conns.skip(1)[k]) == conns[k + 1]);
    if conns[0].open {
        if i == 0 {
        } else {
            lemma_closed_deleted(st, conns.skip(1), i - 1);
        }
    } else {
        let st1 = spec_delete_entity(st, conns[0].addr);
        lemma_wf_delete(st, conns[0].addr);
        if i == 0 {
            lemma_delete_closed_unbinds(st1, conns.skip(1), conns[0].addr);
        } else {
            lemma_closed_deleted(st1, conns.skip(1), i - 1);
        }
    }
}

/// One pass over the sessions: enqueues the message on every open session
/// and deletes the registry entity of every closed one.
fn sweep_sessions(state: &mut Service, message: &MessageEvent)
    requires
        wf_service(old(state)),
    ensures
        conns_view(final(state).peers@) == spec_enqueue_all(
            conns_view(old(state).peers@),
            message@,
        ),
        final(state).database@ == spec_delete_closed(
            old(state).database@,
            conns_view(old(state).peers@),
        ),
        wf_service(final(state)),
        final(state).my_contact == old(state).my_contact,
        final(state).local_collection == old(state).local_collection,
        final(state).counter == old(state).counter,
        final(state).port == old(state).port,
{
    let ghost cv0 = conns_view(old(state).peers@);
    let n = state.peers.len();
    let mut i: usize = 0;
    proof {
        assert(cv0.skip(0) =~= cv0);
    }
    while i < n
        invariant
            cv0 == conns_view(old(state).peers@),
            n == state.peers@.len(),
            n == cv0.len(),
            i <= n,
            forall|k: int| i <= k < n ==> (#[trigger] state.peers@[k])@ == cv0[k],
            forall|k: int|
                0 <= k < i ==> (#[trigger] state.peers@[k])@ == (if cv0[k].open {
                    ConnView { outbound: cv0[k].outbound.push(message@), ..cv0[k] }
                } else {
                    cv0[k]
                }),
            wf_service(state),
            cv0.skip(i as int) =~= conns_view(state.peers@).skip(i as int),
            spec_delete_closed(old(state).database@, cv0) == spec_delete_closed(
                state.database@,
                cv0.skip(i as int),
            ),
            state.my_contact == old(state).my_contact,
            state.local_collection == old(state).local_collection,
            state.counter == old(state).counter,
            state.port == old(state).port,
        decreases n - i,
    {
        proof {
            assert(cv0.skip(i as int)[0] == cv0[i as int]);
            assert(cv0.skip(i as int).skip(1) =~= cv0.skip(i + 1));
            assert(state.peers@[i as int]@ == cv0[i as int]);
        }
        let mut c = state.peers.remove(i);
        if c.open {
            c.send_message(message.clone());
        } else {
            proof {
                lemma_wf_delete(state.database@, c.addr);
            }
            state.database.delete_entity(&c.addr);
        }
        state.peers.insert(i, c);
        proof {
            assert(cv0.skip(i + 1) =~= conns_view(state.peers@).skip(i + 1));
        }
        i = i + 1;
    }
    proof {
        assert(cv0.skip(n as int) =~= Seq::<ConnView>::empty());
        assert(conns_view(state.peers@) =~= spec_enqueue_all(cv0, message@));
    }
}

/// Whether some session is on the given connection address.
fn has_conn(peers: &Vec<PeerConnection>, a: Address) -> (r: bool)
    ensures
        r == spec_has_conn(conns_view(peers@), a),
{
    let ghost cv = conns_view(peers@);
    let mut j: usize = 0;
    while j < peers.len()
        invariant
            cv == conns_view(peers@),
            cv.len() == peers@.len(),
            j <= cv.len(),
            forall|k: int| 0 <= k < j ==> (#[trigger] cv[k]).addr != a,
        decreases cv.len() - j,
    {
        proof {
            assert(cv[j as int] == peers@[j as int]@);
        }
        if peers[j].addr == a {
            return true;
        }
        j = j + 1;
    }
    false
}

/// Queues a liveness probe on every open session, deletes the entity of
/// every session whose transport has died, and names the registry addresses
/// that no session reaches, for the caller to dial.
pub fn ping_all_peers(state: &mut Service) -> (dial: Vec<Address>)
    requires
        wf_service(old(state)),
    ensures
        conns_view(final(state).peers@) == spec_enqueue_all(
            conns_view(old(state).peers@),
            MessageView::Ping(old(state).my_contact@),
        ),
        final(state).database@ == spec_delete_closed(
            old(state).database@,
            conns_view(old(state).peers@),
        ),
        dial@ == spec_dial_list(spec_peers_of(final(state).database@), conns_view(
            final(state).peers@,
        )),
        wf_service(final(state)),
        final(state).my_contact == old(state).my_contact,
        final(state).local_collection == old(state).local_collection,
        final(state).counter == old(state).counter,
        final(state).port == old(state).port,
{
    let ping = MessageEvent::Ping(state.my_contact.clone());
    sweep_sessions(state, &ping);
    let mut dial: Vec<Address> = Vec::new();
    let peers = state.database.all_peers();
    let ghost pv = crate::codec::peers_view(peers@);
    let ghost cv = conns_view(state.peers@);
    proof {
        assert(pv.take(0) =~= Seq::<crate::peer::PeerView>::empty());
        assert(dial@ =~= spec_dial_list(pv.take(0), cv));
    }
    let mut i: usize = 0;
    while i < peers.len()
        invariant
            pv == crate::codec::peers_view(peers@),
            pv.len() == peers@.len(),
            cv == conns_view(state.peers@),
            cv.len() == state.peers@.len(),
            i <= pv.len(),
            dial@ == spec_dial_list(pv.take(i as int), cv),
        decreases pv.len() - i,
    {
        proof {
            assert(pv[i as int] == peers@[i as int]@);
            assert(pv.take(i + 1) =~= pv.take(i as int).push(pv[i as int]));
            lemma_dial_list_snoc(pv.take(i as int), pv[i as int], cv);
        }
        let a = peers[i].address;
        let found = has_conn(&state.peers, a);
        if found {
            proof {
                assert(dial@ =~= spec_dial_list(pv.take(i + 1), cv));
            }
        } else {
            proof {
                assert(dial@.push(a) =~= spec_dial_list(pv.take(i + 1), cv));
            }
            dial.push(a);
        }
        i = i + 1;
    }
    proof {
        assert(pv.take(pv.len() as int) =~= pv);
    }
    dial
}

/// Queues a peer-list request on every open session and deletes the entity
/// of every session whose transport has died.
pub fn peers_request(state: &mut Service)
    requires
        wf_service(old(state)),
    ensures
        conns_view(final(state).peers@) == spec_enqueue_all(
            conns_view(old(state).peers@),
            MessageView::PeersRequest,
        ),
        final(state).database@ == spec_delete_closed(
            old(state).database@,
            conns_view(old(state).peers@),
        ),
        wf_service(final(state)),
        final(state).my_contact == old(state).my_contact,
        final(state).local_collection == old(state).local_collection,
        final(state).counter == old(state).counter,
        final(state).port == old(state).port,
{
    let req = MessageEvent::PeersRequest;
    sweep_sessions(state, &req);
}

/// One scheduler tick: every open session is asked to carry a liveness probe
/// and then a peer-list request — in that order on every queue — every dead
/// session loses its registry entity, and the addresses the registry knows
/// but no session reaches are handed back to be dialed.
pub fn run_scheduled_tasks(state: &mut Service) -> (dial: Vec<Address>)
    requires
        wf_service(old(state)),
    ensures
        conns_view(final(state).peers@) == spec_enqueue_all(
            spec_enqueue_all(
                conns_view(old(state).peers@),
                MessageView::Ping(old(state).my_contact@),
            ),
            MessageView::PeersRequest,
        ),
        forall|i: int|
            0 <= i < old(state).peers@.len() && (#[trigger] conns_view(
                old(state).peers@,
            )[i]).open ==> conns_view(final(state).peers@)[i].outbound == conns_view(
                old(state).peers@,
            )[i].outbound + seq![
                MessageView::Ping(old(state).my_contact@),
                MessageView::PeersRequest,
            ],
        wf_service(final(state)),
        final(state).my_contact == old(state).my_contact,
        final(state).local_collection == old(state).local_collection,
        final(state).counter == old(state).counter,
        final(state).port == old(state).port,
{
    let dial = ping_all_peers(state);
    peers_request(state);
    proof {
        let cv0 = conns_view(old(state).peers@);
        let m1 = MessageView::Ping(old(state).my_contact@);
        let cv1 = spec_enqueue_all(cv0, m1);
        assert forall|i: int| 0 <= i < cv0.len() && (#[trigger] cv0[i]).open implies
            spec_enqueue_all(cv1, MessageView::PeersRequest)[i].outbound == cv0[i].outbound
            + seq![m1, MessageView::PeersRequest] by {
            assert(cv1[i].outbound == cv0[i].outbound.push(m1));
            assert(cv0[i].outbound.push(m1).push(MessageView::PeersRequest) =~= cv0[i].outbound
                + seq![m1, MessageView::PeersRequest]);
        }
    }
    dial
}

} // verus!
