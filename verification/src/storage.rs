use vstd::prelude::*;

use crate::codec::peers_view;
use crate::data::{AlbumView, ArtistData, ArtistView, Collection, artists_view};
use crate::ecs::{Node, NodeEvent};
use crate::peer::{Peer, PeerView, peer_encodable, spec_parse_peer, spec_peer_bytes};
use crate::utils::{buf_byte_at, buf_bytes, buf_len, buf_new, buf_put_u8, buf_split_to, buf_unsplit};
use crate::utils::Address;

verus! {

impl Node<Address> for Peer {
    fn index(&self) -> (r: Address)
        ensures
            r == self.address,
    {
        self.address
    }
}

/// One registry record: a peer and its catalog, under a stable identifier.
pub struct Entry {
    pub id: u64,
    pub peer: Peer,
    pub collection: Collection,
}

/// The mathematical value of a registry record.
#[verifier::ext_equal]
pub ghost struct EntityView {
    pub id: u64,
    pub peer: PeerView,
    pub collection: Seq<ArtistView>,
}

impl View for Entry {
    type V = EntityView;

    open spec fn view(&self) -> EntityView {
        EntityView { id: self.id, peer: self.peer@, collection: self.collection@ }
    }
}

/// The mathematical value of the whole registry: the live entities in their
/// stable order, the address bindings, the event log with its readers'
/// cursors, the local identity, and the next fresh identifier.
#[verifier::ext_equal]
pub ghost struct DbState {
    pub local: PeerView,
    pub entities: Seq<EntityView>,
    pub indexes: Seq<(Address, u64)>,
    pub events: Seq<NodeEvent>,
    pub cursors: Seq<usize>,
    pub next_id: u64,
}

pub open spec fn entities_view(s: Seq<Entry>) -> Seq<EntityView> {
    s.map_values(|e: Entry| e@)
}

/// The identifier bound to an address: the first binding wins, though a
/// well-formed registry never binds an address twice.
pub open spec fn spec_lookup(s: Seq<(Address, u64)>, a: Address) -> Option<u64>
    decreases s.len(),
{
    if s.len() == 0 {
        None
    } else if s[0].0 == a {
        Some(s[0].1)
    } else {
        spec_lookup(s.skip(1), a)
    }
}

/// Binds an address, replacing its first binding or appending a new one.
pub open spec fn spec_index_set(s: Seq<(Address, u64)>, a: Address, id: u64) -> Seq<(Address, u64)>
    decreases s.len(),
{
    if s.len() == 0 {
        seq![(a, id)]
    } else if s[0].0 == a {
        seq![(a, id)] + s.skip(1)
    } else {
        seq![s[0]] + spec_index_set(s.skip(1), a, id)
    }
}

/// Detaches the first binding of an address.
pub open spec fn spec_remove_addr(s: Seq<(Address, u64)>, a: Address) -> Seq<(Address, u64)>
    decreases s.len(),
{
    if s.len() == 0 {
        s
    } else if s[0].0 == a {
        s.skip(1)
    } else {
        seq![s[0]] + spec_remove_addr(s.skip(1), a)
    }
}

/// Detaches every binding that points at the given entity.
pub open spec fn spec_remove_id(s: Seq<(Address, u64)>, id: u64) -> Seq<(Address, u64)>
    decreases s.len(),
{
    if s.len() == 0 {
        s
    } else if s[0].1 == id {
        spec_remove_id(s.skip(1), id)
    } else {
        seq![s[0]] + spec_remove_id(s.skip(1), id)
    }
}

/// Position of the entity with the given identifier, or -1.
pub open spec fn spec_find_id(s: Seq<EntityView>, id: u64) -> int
    decreases s.len(),
{
    if s.len() == 0 {
        -1
    } else if s[0].id == id {
        0
    } else {
        let r = spec_find_id(s.skip(1), id);
        if r < 0 {
            -1
        } else {
            r + 1
        }
    }
}

/// Position of the first entity whose service address is `a`, or -1.
pub open spec fn spec_find_addr(s: Seq<EntityView>, a: Address) -> int
    decreases s.len(),
{
    if s.len() == 0 {
        -1
    } else if s[0].peer.address == a {
        0
    } else {
        let r = spec_find_addr(s.skip(1), a);
        if r < 0 {
            -1
        } else {
            r + 1
        }
    }
}

/// No two bindings name the same address.
pub open spec fn distinct_addrs(s: Seq<(Address, u64)>) -> bool {
    forall|k1: int, k2: int|
        0 <= k1 < k2 < s.len() ==> (#[trigger] s[k1]).0 != (#[trigger] s[k2]).0
}

/// The registry's invariant: bindings name distinct addresses, entities carry
/// distinct identifiers below the next fresh one, every entity answers to its
/// own service address, every binding points at a live entity, every cursor
/// lies within the event log, and every stored peer can be written out.
pub open spec fn wf_db(st: DbState) -> bool {
    &&& distinct_addrs(st.indexes)
    &&& (forall|j1: int, j2: int|
        0 <= j1 < j2 < st.entities.len() ==> (#[trigger] st.entities[j1]).id != (
        #[trigger] st.entities[j2]).id)
    &&& (forall|j: int| 0 <= j < st.entities.len() ==> (#[trigger] st.entities[j]).id < st.next_id)
    &&& (forall|j1: int, j2: int|
        0 <= j1 < j2 < st.entities.len() ==> (#[trigger] st.entities[j1]).peer.address != (
        #[trigger] st.entities[j2]).peer.address)
    &&& (forall|k: int|
        0 <= k < st.indexes.len() ==> spec_find_id(st.entities, (#[trigger] st.indexes[k]).1) >= 0)
    &&& (forall|c: int| 0 <= c < st.cursors.len() ==> (#[trigger] st.cursors[c]) <= st.events.len())
    &&& (forall|j: int|
        0 <= j < st.entities.len() ==> peer_encodable((#[trigger] st.entities[j]).peer))
    &&& peer_encodable(st.local)
}

/// Looking up an address after binding one: the bound address answers with
/// the new identifier, every other address as before.
pub proof fn lemma_lookup_index_set(s: Seq<(Address, u64)>, a: Address, id: u64, b: Address)
    ensures
        spec_lookup(spec_index_set(s, a, id), b) == (if b == a {
            Some(id)
        } else {
            spec_lookup(s, b)
        }),
    decreases s.len(),
{
    if s.len() == 0 {
        let t = seq![(a, id)];
        assert(t[0] == (a, id));
        assert(t.skip(1) =~= Seq::<(Address, u64)>::empty());
        assert(spec_lookup(Seq::<(Address, u64)>::empty(), b) is None);
    } else if s[0].0 == a {
        let t = seq![(a, id)] + s.skip(1);
        assert(t[0] == (a, id));
        assert(t.skip(1) =~= s.skip(1));
    } else {
        let t = seq![s[0]] + spec_index_set(s.skip(1), a, id);
        assert(t[0] == s[0]);
        assert(t.skip(1) =~= spec_index_set(s.skip(1), a, id));
        lemma_lookup_index_set(s.skip(1), a, id, b);
    }
}

/// Looking up an address after detaching one.
pub proof fn lemma_lookup_remove_addr(s: Seq<(Address, u64)>, a: Address, b: Address)
    requires
        distinct_addrs(s),
    ensures
        spec_lookup(spec_remove_addr(s, a), b) == (if b == a {
            None::<u64>
        } else {
            spec_lookup(s, b)
        }),
    decreases s.len(),
{
    if s.len() == 0 {
    } else if s[0].0 == a {
        if b == a {
            assert(forall|k: int| 0 <= k < s.skip(1).len() ==> (#[trigger] s.skip(1)[k]) == s[k
                + 1]);
            lemma_lookup_none(s.skip(1), a);
        }
    } else {
        let t = seq![s[0]] + spec_remove_addr(s.skip(1), a);
        assert(t[0] == s[0]);
        assert(t.skip(1) =~= spec_remove_addr(s.skip(1), a));
        assert(distinct_addrs(s.skip(1)));
        lemma_lookup_remove_addr(s.skip(1), a, b);
    }
}

/// An address that no binding names answers with nothing.
pub proof fn lemma_lookup_none(s: Seq<(Address, u64)>, a: Address)
    requires
        forall|k: int| 0 <= k < s.len() ==> (#[trigger] s[k]).0 != a,
    ensures
        spec_lookup(s, a) is None,
    decreases s.len(),
{
    if s.len() > 0 {
        assert(forall|k: int| 0 <= k < s.skip(1).len() ==> (#[trigger] s.skip(1)[k]) == s[k + 1]);
        lemma_lookup_none(s.skip(1), a);
    }
}

/// Looking up an address after detaching an entity's bindings: whatever
/// pointed at the entity is gone, all else as before.
pub proof fn lemma_lookup_remove_id(s: Seq<(Address, u64)>, id: u64, b: Address)
    requires
        distinct_addrs(s),
    ensures
        spec_lookup(spec_remove_id(s, id), b) == (if spec_lookup(s, b) == Some(id) {
            None::<u64>
        } else {
            spec_lookup(s, b)
        }),
    decreases s.len(),
{
    if s.len() == 0 {
    } else {
        assert(distinct_addrs(s.skip(1)));
        if s[0].1 == id {
            lemma_lookup_remove_id(s.skip(1), id, b);
            if s[0].0 == b {
                assert(forall|k: int|
                    0 <= k < s.skip(1).len() ==> (#[trigger] s.skip(1)[k]) == s[k + 1]);
                lemma_lookup_none(s.skip(1), b);
                lemma_remove_id_sub(s.skip(1), id);
                lemma_lookup_none(spec_remove_id(s.skip(1), id), b);
            }
        } else {
            let t = seq![s[0]] + spec_remove_id(s.skip(1), id);
            assert(t[0] == s[0]);
            assert(t.skip(1) =~= spec_remove_id(s.skip(1), id));
            lemma_lookup_remove_id(s.skip(1), id, b);
        }
    }
}

/// Every binding that survives the detachment stood in the original list.
pub proof fn lemma_remove_id_sub(s: Seq<(Address, u64)>, id: u64)
    ensures
        forall|k: int|
            0 <= k < spec_remove_id(s, id).len() ==> (exists|k2: int|
                0 <= k2 < s.len() && s[k2] == #[trigger] spec_remove_id(s, id)[k]),
        forall|k: int| 0 <= k < spec_remove_id(s, id).len() ==> (#[trigger] spec_remove_id(s, id)[k]).1 != id,
    decreases s.len(),
{
    if s.len() == 0 {
    } else {
        lemma_remove_id_sub(s.skip(1), id);
        assert(forall|k: int| 0 <= k < s.skip(1).len() ==> (#[trigger] s.skip(1)[k]) == s[k + 1]);
        let r = spec_remove_id(s, id);
        let r1 = spec_remove_id(s.skip(1), id);
        if s[0].1 == id {
            assert(r == r1);
            assert forall|k: int| 0 <= k < r.len() implies (exists|k2: int|
                0 <= k2 < s.len() && s[k2] == #[trigger] r[k]) && r[k].1 != id by {
                let k2 = choose|k2: int| 0 <= k2 < s.skip(1).len() && s.skip(1)[k2] == r1[k];
                assert(s[k2 + 1] == r[k]);
            }
        } else {
            let t = seq![s[0]] + r1;
            assert(r == t);
            assert(t[0] == s[0]);
            assert(forall|k: int| 1 <= k < t.len() ==> (#[trigger] t[k]) == r1[k - 1]);
            assert forall|k: int| 0 <= k < r.len() implies (exists|k2: int|
                0 <= k2 < s.len() && s[k2] == #[trigger] r[k]) && r[k].1 != id by {
                if k == 0 {
                    assert(s[0] == r[0]);
                } else {
                    let k2 = choose|k2: int|
                        0 <= k2 < s.skip(1).len() && s.skip(1)[k2] == r1[k - 1];
                    assert(s[k2 + 1] == r[k]);
                }
            }
        }
    }
}

/// Every binding after a rebind is the new pair or stood in the original.
pub proof fn lemma_index_set_sub(s: Seq<(Address, u64)>, a: Address, id: u64)
    ensures
        forall|k: int|
            0 <= k < spec_index_set(s, a, id).len() ==> (#[trigger] spec_index_set(s, a, id)[k])
                == (a, id) || (exists|k2: int|
                0 <= k2 < s.len() && s[k2] == spec_index_set(s, a, id)[k]),
    decreases s.len(),
{
    if s.len() == 0 {
        assert(seq![(a, id)][0] == (a, id));
    } else if s[0].0 == a {
        let t = seq![(a, id)] + s.skip(1);
        assert(t[0] == (a, id));
        assert(forall|k: int| 1 <= k < t.len() ==> (#[trigger] t[k]) == s[k]);
    } else {
        lemma_index_set_sub(s.skip(1), a, id);
        let t = seq![s[0]] + spec_index_set(s.skip(1), a, id);
        assert(t[0] == s[0]);
        assert(forall|k: int| 1 <= k < t.len() ==> (#[trigger] t[k]) == spec_index_set(
            s.skip(1),
            a,
            id,
        )[k - 1]);
        assert(forall|k: int| 0 <= k < s.skip(1).len() ==> (#[trigger] s.skip(1)[k]) == s[k + 1]);
    }
}

/// Rebinding keeps addresses distinct.
pub proof fn lemma_index_set_distinct(s: Seq<(Address, u64)>, a: Address, id: u64)
    requires
        distinct_addrs(s),
    ensures
        distinct_addrs(spec_index_set(s, a, id)),
    decreases s.len(),
{
    if s.len() == 0 {
    } else if s[0].0 == a {
        let t = seq![(a, id)] + s.skip(1);
        assert(t[0] == (a, id));
        assert(forall|k: int| 1 <= k < t.len() ==> (#[trigger] t[k]) == s[k]);
    } else {
        assert(distinct_addrs(s.skip(1)));
        lemma_index_set_distinct(s.skip(1), a, id);
        lemma_index_set_sub(s.skip(1), a, id);
        let t = seq![s[0]] + spec_index_set(s.skip(1), a, id);
        assert(t[0] == s[0]);
        assert(forall|k: int| 1 <= k < t.len() ==> (#[trigger] t[k]) == spec_index_set(
            s.skip(1),
            a,
            id,
        )[k - 1]);
        assert(forall|k: int| 0 <= k < s.skip(1).len() ==> (#[trigger] s.skip(1)[k]) == s[k + 1]);
        assert forall|k1: int, k2: int| 0 <= k1 < k2 < t.len() implies (#[trigger] t[k1]).0 != (
        #[trigger] t[k2]).0 by {
            if k1 == 0 {
                if t[k2] == (a, id) {
                } else {
                    let k3 = choose|k3: int|
                        0 <= k3 < s.skip(1).len() && s.skip(1)[k3] == t[k2];
                }
            }
        }
    }
}

/// Detaching bindings keeps addresses distinct.
pub proof fn lemma_remove_id_distinct(s: Seq<(Address, u64)>, id: u64)
    requires
        distinct_addrs(s),
    ensures
        distinct_addrs(spec_remove_id(s, id)),
    decreases s.len(),
{
    if s.len() == 0 {
    } else {
        assert(distinct_addrs(s.skip(1)));
        assert(forall|k: int| 0 <= k < s.skip(1).len() ==> (#[trigger] s.skip(1)[k]) == s[k + 1]);
        lemma_remove_id_distinct(s.skip(1), id);
        if s[0].1 == id {
        } else {
            lemma_remove_id_sub(s.skip(1), id);
            let t = seq![s[0]] + spec_remove_id(s.skip(1), id);
            assert(t[0] == s[0]);
            assert(forall|k: int| 1 <= k < t.len() ==> (#[trigger] t[k]) == spec_remove_id(
                s.skip(1),
                id,
            )[k - 1]);
            assert forall|k1: int, k2: int| 0 <= k1 < k2 < t.len() implies (#[trigger] t[k1]).0
                != (#[trigger] t[k2]).0 by {
                if k1 == 0 {
                    let k3 = choose|k3: int|
                        0 <= k3 < s.skip(1).len() && s.skip(1)[k3] == t[k2];
                }
            }
        }
    }
}

/// Detaching one address keeps the rest distinct.
pub proof fn lemma_remove_addr_distinct(s: Seq<(Address, u64)>, a: Address)
    requires
        distinct_addrs(s),
    ensures
        distinct_addrs(spec_remove_addr(s, a)),
        forall|k: int|
            0 <= k < spec_remove_addr(s, a).len() ==> (exists|k2: int|
                0 <= k2 < s.len() && s[k2] == #[trigger] spec_remove_addr(s, a)[k]),
    decreases s.len(),
{
    if s.len() == 0 {
    } else {
        assert(distinct_addrs(s.skip(1)));
        assert(forall|k: int| 0 <= k < s.skip(1).len() ==> (#[trigger] s.skip(1)[k]) == s[k + 1]);
        if s[0].0 == a {
        } else {
            lemma_remove_addr_distinct(s.skip(1), a);
            let t = seq![s[0]] + spec_remove_addr(s.skip(1), a);
            assert(t[0] == s[0]);
            assert(forall|k: int| 1 <= k < t.len() ==> (#[trigger] t[k]) == spec_remove_addr(
                s.skip(1),
                a,
            )[k - 1]);
            assert forall|k1: int, k2: int| 0 <= k1 < k2 < t.len() implies (#[trigger] t[k1]).0
                != (#[trigger] t[k2]).0 by {
                if k1 == 0 {
                    let k3 = choose|k3: int|
                        0 <= k3 < s.skip(1).len() && s.skip(1)[k3] == t[k2];
                }
            }
        }
    }
}

/// Where an entity stands after another is appended.
pub proof fn lemma_find_id_push(s: Seq<EntityView>, e: EntityView, id: u64)
    ensures
        e.id == id ==> spec_find_id(s.push(e), id) >= 0,
        e.id != id ==> ((spec_find_id(s.push(e), id) >= 0) <==> (spec_find_id(s, id) >= 0)),
    decreases s.len(),
{
    if s.len() == 0 {
        assert(s.push(e)[0] == e);
        assert(s.push(e).skip(1) =~= Seq::<EntityView>::empty());
        assert(spec_find_id(Seq::<EntityView>::empty(), id) == -1);
    } else {
        assert(s.push(e)[0] == s[0]);
        assert(s.push(e).skip(1) =~= s.skip(1).push(e));
        lemma_find_id_push(s.skip(1), e, id);
    }
}

/// Where the entities stand after one is removed: the remaining identifiers
/// are still found, the removed one no longer is.
pub proof fn lemma_find_id_remove(s: Seq<EntityView>, id: u64, other: u64)
    requires
        forall|j1: int, j2: int|
            0 <= j1 < j2 < s.len() ==> (#[trigger] s[j1]).id != (#[trigger] s[j2]).id,
        0 <= spec_find_id(s, id) < s.len(),
    ensures
        other != id ==> ((spec_find_id(s.remove(spec_find_id(s, id)), other) >= 0) <==> (
        spec_find_id(s, other) >= 0)),
        spec_find_id(s.remove(spec_find_id(s, id)), id) < 0,
    decreases s.len(),
{
    let i = spec_find_id(s, id);
    if s[0].id == id {
        assert(s.remove(0) =~= s.skip(1));
        assert(forall|k: int| 0 <= k < s.skip(1).len() ==> (#[trigger] s.skip(1)[k]) == s[k + 1]);
        lemma_find_id_not_present(s.skip(1), id);
    } else {
        assert(forall|k: int| 0 <= k < s.skip(1).len() ==> (#[trigger] s.skip(1)[k]) == s[k + 1]);
        assert(s.remove(i)[0] == s[0]);
        assert(s.remove(i).skip(1) =~= s.skip(1).remove(i - 1));
        lemma_find_id_remove(s.skip(1), id, other);
    }
}

/// An identifier that no entity carries is not found.
pub proof fn lemma_find_id_not_present(s: Seq<EntityView>, id: u64)
    requires
        forall|j: int| 0 <= j < s.len() ==> (#[trigger] s[j]).id != id,
    ensures
        spec_find_id(s, id) < 0,
    decreases s.len(),
{
    if s.len() > 0 {
        assert(forall|k: int| 0 <= k < s.skip(1).len() ==> (#[trigger] s.skip(1)[k]) == s[k + 1]);
        lemma_find_id_not_present(s.skip(1), id);
    }
}

/// What a successful find means: the position holds the identifier.
pub proof fn lemma_find_id_valid(s: Seq<EntityView>, id: u64)
    ensures
        spec_find_id(s, id) >= 0 ==> spec_find_id(s, id) < s.len() && s[spec_find_id(s, id)].id
            == id,
    decreases s.len(),
{
    if s.len() > 0 && s[0].id != id {
        assert(forall|k: int| 0 <= k < s.skip(1).len() ==> (#[trigger] s.skip(1)[k]) == s[k + 1]);
        lemma_find_id_valid(s.skip(1), id);
    }
}


/// A registered binding names a pair that stands in the list.
pub proof fn lemma_lookup_exists(s: Seq<(Address, u64)>, a: Address)
    ensures
        spec_lookup(s, a) matches Some(id) ==> exists|k: int| 0 <= k < s.len() && s[k] == (a, id),
    decreases s.len(),
{
    if s.len() > 0 {
        if s[0].0 == a {
            assert(s[0] == (a, s[0].1));
        } else {
            lemma_lookup_exists(s.skip(1), a);
            assert(forall|k: int|
                0 <= k < s.skip(1).len() ==> (#[trigger] s.skip(1)[k]) == s[k + 1]);
            match spec_lookup(s, a) {
                Some(id) => {
                    let k = choose|k: int| 0 <= k < s.skip(1).len() && s.skip(1)[k] == (a, id);
                    assert(s[k + 1] == (a, id));
                },
                None => {},
            }
        }
    }
}

/// A scan that finds its key at `i` after missing everywhere before agrees
/// with the first-match position.
pub proof fn lemma_find_id_at(s: Seq<EntityView>, id: u64, i: int)
    requires
        0 <= i < s.len(),
        s[i].id == id,
        forall|k: int| 0 <= k < i ==> (#[trigger] s[k]).id != id,
    ensures
        spec_find_id(s, id) == i,
    decreases i,
{
    if i > 0 {
        assert(forall|k: int| 0 <= k < s.skip(1).len() ==> (#[trigger] s.skip(1)[k]) == s[k + 1]);
        lemma_find_id_at(s.skip(1), id, i - 1);
    }
}

/// The same, for the scan by service address.
pub proof fn lemma_find_addr_at(s: Seq<EntityView>, a: Address, i: int)
    requires
        0 <= i < s.len(),
        s[i].peer.address == a,
        forall|k: int| 0 <= k < i ==> (#[trigger] s[k]).peer.address != a,
    ensures
        spec_find_addr(s, a) == i,
    decreases i,
{
    if i > 0 {
        assert(forall|k: int| 0 <= k < s.skip(1).len() ==> (#[trigger] s.skip(1)[k]) == s[k + 1]);
        lemma_find_addr_at(s.skip(1), a, i - 1);
    }
}

/// An address that no entity carries is not found.
pub proof fn lemma_find_addr_not_present(s: Seq<EntityView>, a: Address)
    requires
        forall|j: int| 0 <= j < s.len() ==> (#[trigger] s[j]).peer.address != a,
    ensures
        spec_find_addr(s, a) < 0,
    decreases s.len(),
{
    if s.len() > 0 {
        assert(forall|k: int| 0 <= k < s.skip(1).len() ==> (#[trigger] s.skip(1)[k]) == s[k + 1]);
        lemma_find_addr_not_present(s.skip(1), a);
    }
}

/// What a successful address scan means: the position carries the address.
pub proof fn lemma_find_addr_valid(s: Seq<EntityView>, a: Address)
    ensures
        spec_find_addr(s, a) >= 0 ==> spec_find_addr(s, a) < s.len() && s[spec_find_addr(
            s,
            a,
        )].peer.address == a,
    decreases s.len(),
{
    if s.len() > 0 && s[0].peer.address != a {
        assert(forall|k: int| 0 <= k < s.skip(1).len() ==> (#[trigger] s.skip(1)[k]) == s[k + 1]);
        lemma_find_addr_valid(s.skip(1), a);
    }
}

/// Registers a fresh entity at the tail of the stable order, binds its
/// service address, and reports it modified.
pub open spec fn spec_register(st: DbState, p: PeerView, c: Seq<ArtistView>) -> DbState {
    DbState {
        entities: st.entities.push(EntityView { id: st.next_id, peer: p, collection: c }),
        indexes: spec_index_set(st.indexes, p.address, st.next_id),
        events: st.events.push(NodeEvent::Modified(st.next_id)),
        next_id: (st.next_id + 1) as u64,
        ..st
    }
}

/// Evicts the entity with the given identifier: it leaves the stable order,
/// every address binding that pointed at it is detached, and it is reported
/// removed exactly once.
pub open spec fn spec_evict(st: DbState, id: u64) -> DbState {
    if spec_find_id(st.entities, id) >= 0 {
        DbState {
            entities: st.entities.remove(spec_find_id(st.entities, id)),
            indexes: spec_remove_id(st.indexes, id),
            events: st.events.push(NodeEvent::Removed(id)),
            ..st
        }
    } else {
        st
    }
}

/// Inserts an entity; a colliding service address first evicts its older
/// holder, so the registry keeps at most one entity per service address.
pub open spec fn spec_insert_entity(st: DbState, p: PeerView, c: Seq<ArtistView>) -> DbState {
    let i = spec_find_addr(st.entities, p.address);
    if i >= 0 {
        spec_register(spec_evict(st, st.entities[i].id), p, c)
    } else {
        spec_register(st, p, c)
    }
}

/// Adds a peer unless it is the local node or its service address already
/// answers to something.
pub open spec fn spec_add_peer(st: DbState, p: PeerView, c: Seq<ArtistView>) -> DbState {
    if p.address == st.local.address || spec_lookup(st.indexes, p.address) is Some
        || spec_find_addr(st.entities, p.address) >= 0 {
        st
    } else {
        spec_register(st, p, c)
    }
}

/// Adds peers one after the other, each with an empty catalog; known peers
/// keep the catalog they have.
pub open spec fn spec_add_peers(st: DbState, ps: Seq<PeerView>) -> DbState
    decreases ps.len(),
{
    if ps.len() == 0 {
        st
    } else {
        spec_add_peers(spec_add_peer(st, ps[0], Seq::<ArtistView>::empty()), ps.skip(1))
    }
}

/// Binds a second address to the entity that the peer's service address
/// names.
pub open spec fn spec_insert_address(st: DbState, conn: Address, p: PeerView) -> DbState {
    match spec_lookup(st.indexes, p.address) {
        Some(id) => DbState { indexes: spec_index_set(st.indexes, conn, id), ..st },
        None => st,
    }
}

/// Detaches one address binding and nothing else.
pub open spec fn spec_remove_address(st: DbState, a: Address) -> DbState {
    DbState { indexes: spec_remove_addr(st.indexes, a), ..st }
}

/// Deletes the entity an address resolves to, with both of its bindings;
/// an unbound address merely loses its binding.
pub open spec fn spec_delete_entity(st: DbState, a: Address) -> DbState {
    match spec_lookup(st.indexes, a) {
        Some(id) => spec_evict(st, id),
        None => spec_remove_address(st, a),
    }
}

/// The catalog of the entity an address resolves to, or an empty one.
pub open spec fn spec_collection_of(st: DbState, a: Address) -> Seq<ArtistView> {
    match spec_lookup(st.indexes, a) {
        Some(id) => if spec_find_id(st.entities, id) >= 0 {
            st.entities[spec_find_id(st.entities, id)].collection
        } else {
            Seq::<ArtistView>::empty()
        },
        None => Seq::<ArtistView>::empty(),
    }
}

/// Replaces the catalog of the entity an address resolves to.
pub open spec fn spec_update_collection(st: DbState, a: Address, c: Seq<ArtistView>) -> DbState {
    match spec_lookup(st.indexes, a) {
        Some(id) => if spec_find_id(st.entities, id) >= 0 {
            let i = spec_find_id(st.entities, id);
            DbState {
                entities: st.entities.update(
                    i,
                    EntityView { id: st.entities[i].id, peer: st.entities[i].peer, collection: c },
                ),
                ..st
            }
        } else {
            st
        },
        None => st,
    }
}

/// The peers of all live entities, in their stable order.
pub open spec fn spec_peers_of(st: DbState) -> Seq<PeerView> {
    st.entities.map_values(|e: EntityView| e.peer)
}

/// Position of the first artist with the given name, or -1.
pub open spec fn spec_find_artist(c: Seq<ArtistView>, name: Seq<u8>) -> int
    decreases c.len(),
{
    if c.len() == 0 {
        -1
    } else if c[0].artist == name {
        0
    } else {
        let r = spec_find_artist(c.skip(1), name);
        if r < 0 {
            -1
        } else {
            r + 1
        }
    }
}

/// Position of the first album with the given title, or -1.
pub open spec fn spec_find_album(al: Seq<AlbumView>, title: Seq<u8>) -> int
    decreases al.len(),
{
    if al.len() == 0 {
        -1
    } else if al[0].album_title == title {
        0
    } else {
        let r = spec_find_album(al.skip(1), title);
        if r < 0 {
            -1
        } else {
            r + 1
        }
    }
}

/// Merges an album into a catalog: a present album is replaced wholesale, a
/// missing album is appended to its artist, a missing artist is appended
/// with just this album; an artist's absent album list counts as empty.
pub open spec fn spec_add_tracks_coll(c: Seq<ArtistView>, a: AlbumView) -> Seq<ArtistView>
    recommends
        a.artist is Some,
{
    let name = a.artist->Some_0;
    let i = spec_find_artist(c, name);
    if i >= 0 {
        let ar = c[i];
        let al = match ar.albums {
            Some(al) => al,
            None => Seq::<AlbumView>::empty(),
        };
        let j = spec_find_album(al, a.album_title);
        let al2 = if j >= 0 {
            al.update(j, a)
        } else {
            al.push(a)
        };
        c.update(i, ArtistView { artist: ar.artist, albums: Some(al2) })
    } else {
        c.push(ArtistView { artist: name, albums: Some(seq![a]) })
    }
}

/// Merges an album into the catalog of the entity an address resolves to.
pub open spec fn spec_add_tracks(st: DbState, addr: Address, a: AlbumView) -> DbState {
    spec_update_collection(st, addr, spec_add_tracks_coll(spec_collection_of(st, addr), a))
}


/// A first-match rebind at position `i` is an update there.
pub proof fn lemma_index_set_at(s: Seq<(Address, u64)>, a: Address, id: u64, i: int)
    requires
        0 <= i < s.len(),
        s[i].0 == a,
        forall|k: int| 0 <= k < i ==> (#[trigger] s[k]).0 != a,
    ensures
        spec_index_set(s, a, id) == s.update(i, (a, id)),
    decreases i,
{
    if i == 0 {
        assert(spec_index_set(s, a, id) =~= s.update(0, (a, id)));
    } else {
        assert(forall|k: int| 0 <= k < s.skip(1).len() ==> (#[trigger] s.skip(1)[k]) == s[k + 1]);
        lemma_index_set_at(s.skip(1), a, id, i - 1);
        assert(seq![s[0]] + s.skip(1).update(i - 1, (a, id)) =~= s.update(i, (a, id)));
    }
}

/// A rebind of an address that nothing names is an append.
pub proof fn lemma_index_set_absent(s: Seq<(Address, u64)>, a: Address, id: u64)
    requires
        forall|k: int| 0 <= k < s.len() ==> (#[trigger] s[k]).0 != a,
    ensures
        spec_index_set(s, a, id) == s.push((a, id)),
    decreases s.len(),
{
    if s.len() == 0 {
        assert(spec_index_set(s, a, id) =~= s.push((a, id)));
    } else {
        assert(forall|k: int| 0 <= k < s.skip(1).len() ==> (#[trigger] s.skip(1)[k]) == s[k + 1]);
        lemma_index_set_absent(s.skip(1), a, id);
        assert(seq![s[0]] + s.skip(1).push((a, id)) =~= s.push((a, id)));
    }
}

/// Detaching a first-match binding at position `i` removes it there.
pub proof fn lemma_remove_addr_at(s: Seq<(Address, u64)>, a: Address, i: int)
    requires
        0 <= i < s.len(),
        s[i].0 == a,
        forall|k: int| 0 <= k < i ==> (#[trigger] s[k]).0 != a,
    ensures
        spec_remove_addr(s, a) == s.remove(i),
    decreases i,
{
    if i == 0 {
        assert(spec_remove_addr(s, a) =~= s.remove(0));
    } else {
        assert(forall|k: int| 0 <= k < s.skip(1).len() ==> (#[trigger] s.skip(1)[k]) == s[k + 1]);
        lemma_remove_addr_at(s.skip(1), a, i - 1);
        assert(seq![s[0]] + s.skip(1).remove(i - 1) =~= s.remove(i));
    }
}

/// Detaching an address that nothing names changes nothing.
pub proof fn lemma_remove_addr_absent(s: Seq<(Address, u64)>, a: Address)
    requires
        forall|k: int| 0 <= k < s.len() ==> (#[trigger] s[k]).0 != a,
    ensures
        spec_remove_addr(s, a) == s,
    decreases s.len(),
{
    if s.len() > 0 {
        assert(forall|k: int| 0 <= k < s.skip(1).len() ==> (#[trigger] s.skip(1)[k]) == s[k + 1]);
        lemma_remove_addr_absent(s.skip(1), a);
        assert(seq![s[0]] + s.skip(1) =~= s);
    }
}

/// Detaching an entity's bindings treats an appended binding on its own.
pub proof fn lemma_remove_id_snoc(s: Seq<(Address, u64)>, x: (Address, u64), id: u64)
    ensures
        spec_remove_id(s.push(x), id) == spec_remove_id(s, id) + (if x.1 == id {
            Seq::<(Address, u64)>::empty()
        } else {
            seq![x]
        }),
    decreases s.len(),
{
    if s.len() == 0 {
        assert(s.push(x)[0] == x);
        assert(s.push(x).skip(1) =~= Seq::<(Address, u64)>::empty());
        assert(spec_remove_id(Seq::<(Address, u64)>::empty(), id)
            =~= Seq::<(Address, u64)>::empty());
        if x.1 == id {
            assert(spec_remove_id(s.push(x), id) =~= spec_remove_id(s, id) + Seq::<(
                Address,
                u64,
            )>::empty());
        } else {
            assert(spec_remove_id(s.push(x), id) =~= spec_remove_id(s, id) + seq![x]);
        }
    } else {
        assert(s.push(x)[0] == s[0]);
        assert(s.push(x).skip(1) =~= s.skip(1).push(x));
        lemma_remove_id_snoc(s.skip(1), x, id);
        if s[0].1 == id {
        } else {
            if x.1 == id {
                assert(seq![s[0]] + (spec_remove_id(s.skip(1), id) + Seq::<(
                    Address,
                    u64,
                )>::empty()) =~= (seq![s[0]] + spec_remove_id(s.skip(1), id)) + Seq::<(
                    Address,
                    u64,
                )>::empty());
            } else {
                assert(seq![s[0]] + (spec_remove_id(s.skip(1), id) + seq![x]) =~= (seq![s[0]]
                    + spec_remove_id(s.skip(1), id)) + seq![x]);
            }
        }
    }
}

/// A missed scan means no entity carries the address.
pub proof fn lemma_find_addr_neg(s: Seq<EntityView>, a: Address)
    requires
        spec_find_addr(s, a) < 0,
    ensures
        forall|j: int| 0 <= j < s.len() ==> (#[trigger] s[j]).peer.address != a,
    decreases s.len(),
{
    if s.len() > 0 {
        assert(forall|k: int| 0 <= k < s.skip(1).len() ==> (#[trigger] s.skip(1)[k]) == s[k + 1]);
        lemma_find_addr_neg(s.skip(1), a);
        assert forall|j: int| 0 <= j < s.len() implies (#[trigger] s[j]).peer.address != a by {
            if j > 0 {
                assert(s.skip(1)[j - 1] == s[j]);
            }
        }
    }
}

/// Replacing an entity's catalog moves no entity and renames none.
pub proof fn lemma_find_id_update_same(s: Seq<EntityView>, i: int, e: EntityView, id: u64)
    requires
        0 <= i < s.len(),
        e.id == s[i].id,
    ensures
        spec_find_id(s.update(i, e), id) == spec_find_id(s, id),
    decreases i,
{
    if i == 0 {
        assert(s.update(0, e)[0] == e);
        assert(s.update(0, e).skip(1) =~= s.skip(1));
    } else {
        assert(s.update(i, e)[0] == s[0]);
        assert(s.update(i, e).skip(1) =~= s.skip(1).update(i - 1, e));
        lemma_find_id_update_same(s.skip(1), i - 1, e, id);
    }
}

/// Looks up the identifier an address is bound to.
pub(crate) fn lookup_addr(indexes: &Vec<(Address, u64)>, a: Address) -> (r: Option<u64>)
    ensures
        r == spec_lookup(indexes@, a),
{
    assert(indexes@.skip(0) =~= indexes@);
    let mut i: usize = 0;
    while i < indexes.len()
        invariant
            i <= indexes@.len(),
            spec_lookup(indexes@, a) == spec_lookup(indexes@.skip(i as int), a),
        decreases indexes@.len() - i,
    {
        if indexes[i].0 == a {
            assert(indexes@.skip(i as int)[0] == indexes@[i as int]);
            assert(spec_lookup(indexes@.skip(i as int), a) == Some(indexes@[i as int].1));
            return Some(indexes[i].1);
        }
        assert(indexes@.skip(i as int)[0] == indexes@[i as int]);
        assert(indexes@.skip(i as int).skip(1) =~= indexes@.skip(i + 1));
        i = i + 1;
    }
    assert(indexes@.skip(indexes@.len() as int) =~= Seq::<(Address, u64)>::empty());
    None
}

/// Rebinds an address in place, or appends the binding.
fn index_set_exec(indexes: &mut Vec<(Address, u64)>, a: Address, id: u64)
    ensures
        final(indexes)@ == spec_index_set(old(indexes)@, a, id),
{
    let ghost s = indexes@;
    let mut i: usize = 0;
    while i < indexes.len()
        invariant
            s == old(indexes)@,
            indexes@ == s,
            i <= s.len(),
            forall|k: int| 0 <= k < i ==> (#[trigger] s[k]).0 != a,
        decreases s.len() - i,
    {
        if indexes[i].0 == a {
            indexes.set(i, (a, id));
            proof {
                lemma_index_set_at(s, a, id, i as int);
            }
            return ;
        }
        i = i + 1;
    }
    indexes.push((a, id));
    proof {
        lemma_index_set_absent(s, a, id);
    }
}

/// Detaches the binding of an address, if it has one.
fn remove_addr_exec(indexes: &mut Vec<(Address, u64)>, a: Address)
    ensures
        final(indexes)@ == spec_remove_addr(old(indexes)@, a),
{
    let ghost s = indexes@;
    let mut i: usize = 0;
    while i < indexes.len()
        invariant
            s == old(indexes)@,
            indexes@ == s,
            i <= s.len(),
            forall|k: int| 0 <= k < i ==> (#[trigger] s[k]).0 != a,
        decreases s.len() - i,
    {
        if indexes[i].0 == a {
            let _ = indexes.remove(i);
            proof {
                lemma_remove_addr_at(s, a, i as int);
            }
            return ;
        }
        i = i + 1;
    }
    proof {
        lemma_remove_addr_absent(s, a);
    }
}

/// Detaches every binding that points at the entity.
fn remove_id_exec(indexes: &mut Vec<(Address, u64)>, id: u64)
    ensures
        final(indexes)@ == spec_remove_id(old(indexes)@, id),
{
    let ghost s = indexes@;
    let mut acc: Vec<(Address, u64)> = Vec::new();
    let mut i: usize = 0;
    while i < indexes.len()
        invariant
            s == old(indexes)@,
            indexes@ == s,
            i <= s.len(),
            acc@ == spec_remove_id(s.take(i as int), id),
        decreases s.len() - i,
    {
        proof {
            assert(s.take(i + 1) =~= s.take(i as int).push(s[i as int]));
            lemma_remove_id_snoc(s.take(i as int), s[i as int], id);
        }
        if indexes[i].1 != id {
            acc.push(indexes[i]);
            assert(acc@ =~= spec_remove_id(s.take(i + 1), id));
        } else {
            assert(acc@ =~= spec_remove_id(s.take(i + 1), id));
        }
        i = i + 1;
    }
    proof {
        assert(s.take(s.len() as int) =~= s);
    }
    *indexes = acc;
}


/// Where an entity with the identifier stands in the list, if anywhere.
fn find_pos_id(entries: &Vec<Entry>, id: u64) -> (r: Option<usize>)
    ensures
        match r {
            Some(i) => spec_find_id(entities_view(entries@), id) == i as int && i < entries@.len(),
            None => spec_find_id(entities_view(entries@), id) < 0,
        },
{
    let ghost ev = entities_view(entries@);
    let mut i: usize = 0;
    while i < entries.len()
        invariant
            ev == entities_view(entries@),
            i <= ev.len(),
            ev.len() == entries@.len(),
            forall|k: int| 0 <= k < i ==> (#[trigger] ev[k]).id != id,
        decreases ev.len() - i,
    {
        proof {
            assert(ev[i as int] == entries@[i as int]@);
        }
        if entries[i].id == id {
            proof {
                lemma_find_id_at(ev, id, i as int);
            }
            return Some(i);
        }
        i = i + 1;
    }
    proof {
        lemma_find_id_not_present(ev, id);
    }
    None
}

/// Where an entity with the service address stands in the list, if anywhere.
fn find_pos_addr(entries: &Vec<Entry>, a: Address) -> (r: Option<usize>)
    ensures
        match r {
            Some(i) => spec_find_addr(entities_view(entries@), a) == i as int && i
                < entries@.len(),
            None => spec_find_addr(entities_view(entries@), a) < 0,
        },
{
    let ghost ev = entities_view(entries@);
    let mut i: usize = 0;
    while i < entries.len()
        invariant
            ev == entities_view(entries@),
            i <= ev.len(),
            ev.len() == entries@.len(),
            forall|k: int| 0 <= k < i ==> (#[trigger] ev[k]).peer.address != a,
        decreases ev.len() - i,
    {
        proof {
            assert(ev[i as int] == entries@[i as int]@);
        }
        if entries[i].peer.address == a {
            proof {
                lemma_find_addr_at(ev, a, i as int);
            }
            return Some(i);
        }
        i = i + 1;
    }
    proof {
        lemma_find_addr_not_present(ev, a);
    }
    None
}

/// Registering a fresh peer at an unused service address keeps the registry
/// well formed.
#[verifier::rlimit(100)]
#[verifier::spinoff_prover]
pub proof fn lemma_wf_register(st: DbState, p: PeerView, c: Seq<ArtistView>)
    requires
        wf_db(st),
        peer_encodable(p),
        spec_find_addr(st.entities, p.address) < 0,
        st.next_id < u64::MAX,
    ensures
        wf_db(spec_register(st, p, c)),
{
    let st2 = spec_register(st, p, c);
    let e = EntityView { id: st.next_id, peer: p, collection: c };
    lemma_index_set_distinct(st.indexes, p.address, st.next_id);
    lemma_find_addr_neg(st.entities, p.address);
    assert forall|k: int| 0 <= k < st2.indexes.len() implies spec_find_id(
        st2.entities,
        (#[trigger] st2.indexes[k]).1,
    ) >= 0 by {
        lemma_index_set_sub(st.indexes, p.address, st.next_id);
        if st2.indexes[k] == (p.address, st.next_id) {
            lemma_find_id_push(st.entities, e, st.next_id);
        } else {
            let k2 = choose|k2: int|
                0 <= k2 < st.indexes.len() && st.indexes[k2] == st2.indexes[k];
            lemma_find_id_valid(st.entities, st.indexes[k2].1);
            lemma_find_id_push(st.entities, e, st.indexes[k2].1);
        }
    }
}

/// Evicting an entity keeps the registry well formed.
#[verifier::rlimit(100)]
#[verifier::spinoff_prover]
pub proof fn lemma_wf_evict(st: DbState, id: u64)
    requires
        wf_db(st),
    ensures
        wf_db(spec_evict(st, id)),
{
    let i = spec_find_id(st.entities, id);
    if i >= 0 {
        lemma_find_id_valid(st.entities, id);
        let st2 = spec_evict(st, id);
        lemma_remove_id_distinct(st.indexes, id);
        assert forall|k: int| 0 <= k < st2.indexes.len() implies spec_find_id(
            st2.entities,
            (#[trigger] st2.indexes[k]).1,
        ) >= 0 by {
            lemma_remove_id_sub(st.indexes, id);
            let k2 = choose|k2: int|
                0 <= k2 < st.indexes.len() && st.indexes[k2] == st2.indexes[k];
            lemma_find_id_valid(st.entities, st.indexes[k2].1);
            lemma_find_id_remove(st.entities, id, st2.indexes[k].1);
        }
    }
}

/// The peer registry: live entities in a stable order, an address map that
/// answers to both service and connection addresses, and an event log whose
/// readers advance their own cursors. Mutations are applied eagerly, so a
/// maintenance step finds nothing left to drain.
pub struct Db {
    local: Peer,
    entries: Vec<Entry>,
    indexes: Vec<(Address, u64)>,
    events: Vec<NodeEvent>,
    cursors: Vec<usize>,
    next_id: u64,
}

impl View for Db {
    type V = DbState;

    closed spec fn view(&self) -> DbState {
        DbState {
            local: self.local@,
            entities: entities_view(self.entries@),
            indexes: self.indexes@,
            events: self.events@,
            cursors: self.cursors@,
            next_id: self.next_id,
        }
    }
}

impl Db {
    /// A fresh registry that knows the local identity and holds nothing.
    pub fn new(local: Peer) -> (r: Db)
        requires
            peer_encodable(local@),
        ensures
            r@ == (DbState {
                local: local@,
                entities: Seq::<EntityView>::empty(),
                indexes: Seq::<(Address, u64)>::empty(),
                events: Seq::<NodeEvent>::empty(),
                cursors: Seq::<usize>::empty(),
                next_id: 0,
            }),
            wf_db(r@),
    {
        let r = Db {
            local,
            entries: Vec::new(),
            indexes: Vec::new(),
            events: Vec::new(),
            cursors: Vec::new(),
            next_id: 0,
        };
        proof {
            assert(entities_view(r.entries@) =~= Seq::<EntityView>::empty());
        }
        r
    }

    /// Drains deferred work; mutations are applied eagerly here, so there is
    /// never anything to drain and the registry is left as it stands.
    pub fn maintain(&mut self)
        ensures
            final(self)@ == old(self)@,
    {
    }

    /// The entity an address resolves to, by either of its keys.
    pub fn get_entity(&self, addr: &Address) -> (r: Option<u64>)
        ensures
            r == spec_lookup(self@.indexes, *addr),
    {
        lookup_addr(&self.indexes, *addr)
    }

    /// Registers a fresh peer: the caller has checked the address is unused.
    fn register(&mut self, p: Peer, c: Collection)
        requires
            wf_db(old(self)@),
            peer_encodable(p@),
            spec_find_addr(old(self)@.entities, p@.address) < 0,
            old(self)@.next_id < u64::MAX,
        ensures
            final(self)@ == spec_register(old(self)@, p@, c@),
            wf_db(final(self)@),
    {
        proof {
            lemma_wf_register(old(self)@, p@, c@);
        }
        let id = self.next_id;
        let ghost addr = p@.address;
        self.entries.push(Entry { id, peer: p, collection: c });
        index_set_exec(&mut self.indexes, self.entries[self.entries.len() - 1].peer.address, id);
        self.events.push(NodeEvent::Modified(id));
        self.next_id = id + 1;
        proof {
            assert(entities_view(self.entries@) =~= old(self)@.entities.push(
                EntityView { id, peer: spec_register(old(self)@, p@, c@).entities.last().peer, collection: spec_register(old(self)@, p@, c@).entities.last().collection },
            ));
            assert(final(self)@ =~= spec_register(old(self)@, p@, c@));
        }
    }

    /// Evicts the entity with the given identifier, detaching every address
    /// bound to it and reporting its removal once.
    fn evict(&mut self, id: u64)
        requires
            wf_db(old(self)@),
        ensures
            final(self)@ == spec_evict(old(self)@, id),
            wf_db(final(self)@),
    {
        proof {
            lemma_wf_evict(old(self)@, id);
        }
        match find_pos_id(&self.entries, id) {
            Some(i) => {
                let _ = self.entries.remove(i);
                remove_id_exec(&mut self.indexes, id);
                self.events.push(NodeEvent::Removed(id));
                proof {
                    assert(entities_view(self.entries@) =~= old(self)@.entities.remove(i as int));
                    assert(final(self)@ =~= spec_evict(old(self)@, id));
                }
            },
            None => {
                proof {
                    assert(final(self)@ =~= spec_evict(old(self)@, id));
                }
            },
        }
    }

    /// Inserts an entity outright; an older holder of the same service
    /// address is evicted first, its removal reported before the insertion.
    pub fn insert_entity(&mut self, p: Peer, c: Collection)
        requires
            wf_db(old(self)@),
            peer_encodable(p@),
            old(self)@.next_id < u64::MAX,
        ensures
            final(self)@ == spec_insert_entity(old(self)@, p@, c@),
            wf_db(final(self)@),
    {
        match find_pos_addr(&self.entries, p.address) {
            Some(i) => {
                let id = self.entries[i].id;
                proof {
                    let st = old(self)@;
                    assert(st.entities[i as int] == self.entries@[i as int]@);
                    lemma_find_addr_valid(st.entities, p@.address);
                    assert forall|k: int| 0 <= k < i implies (#[trigger] st.entities[k]).id != id
                        by {
                        assert(st.entities[k].id != st.entities[i as int].id);
                    }
                    lemma_find_id_at(st.entities, id, i as int);
                }
                self.evict(id);
                proof {
                    lemma_find_addr_not_present_after(old(self)@.entities, i as int, p@.address);
                }
                self.register(p, c);
            },
            None => {
                self.register(p, c);
            },
        }
    }

    /// Adds a peer with its catalog: the local node is never added, and a
    /// known service address keeps its entity untouched.
    pub fn add_peer(&mut self, p: Peer, c: Collection)
        requires
            wf_db(old(self)@),
            peer_encodable(p@),
            old(self)@.next_id < u64::MAX,
        ensures
            final(self)@ == spec_add_peer(old(self)@, p@, c@),
            wf_db(final(self)@),
    {
        if p.address == self.local.address {
            return ;
        }
        match lookup_addr(&self.indexes, p.address) {
            Some(_) => {},
            None => {
                match find_pos_addr(&self.entries, p.address) {
                    Some(_) => {},
                    None => {
                        self.register(p, c);
                    },
                }
            },
        }
    }

    /// Adds each peer in turn with an empty catalog; known peers keep theirs.
    pub fn add_peers(&mut self, peers: Vec<Peer>)
        requires
            wf_db(old(self)@),
            forall|i: int| 0 <= i < peers@.len() ==> peer_encodable((#[trigger] peers@[i])@),
            old(self)@.next_id as int + peers@.len() <= u64::MAX as int,
        ensures
            final(self)@ == spec_add_peers(old(self)@, peers_view(peers@)),
            wf_db(final(self)@),
    {
        let ghost pv = peers_view(peers@);
        proof {
            assert(pv.skip(0) =~= pv);
        }
        let mut i: usize = 0;
        while i < peers.len()
            invariant
                pv == peers_view(peers@),
                pv.len() == peers@.len(),
                i <= pv.len(),
                forall|k: int| 0 <= k < peers@.len() ==> peer_encodable((#[trigger] peers@[k])@),
                wf_db(self@),
                self@.next_id as int <= old(self)@.next_id as int + i,
                old(self)@.next_id as int + peers@.len() <= u64::MAX as int,
                spec_add_peers(old(self)@, pv) == spec_add_peers(self@, pv.skip(i as int)),
            decreases pv.len() - i,
        {
            let ghost pre = self@;
            proof {
                assert(pv.skip(i as int)[0] == pv[i as int]);
                assert(pv[i as int] == peers@[i as int]@);
                assert(pv.skip(i as int).skip(1) =~= pv.skip(i + 1));
            }
            let p = peers[i].clone();
            self.add_peer(p, Collection { artists: Vec::new() });
            proof {
                assert(entities_view(Seq::<Entry>::empty()) =~= Seq::<EntityView>::empty());
                assert(artists_view(Seq::<ArtistData>::empty()) =~= Seq::<ArtistView>::empty());
                assert(self@ == spec_add_peer(pre, pv[i as int], Seq::<ArtistView>::empty()));
            }
            i = i + 1;
        }
        proof {
            assert(pv.skip(pv.len() as int) =~= Seq::<PeerView>::empty());
        }
    }

    /// Binds the observed connection address to the entity that the peer's
    /// advertised service address names.
    pub fn insert_address(&mut self, addr: &Address, peer: Peer)
        requires
            wf_db(old(self)@),
            spec_lookup(old(self)@.indexes, peer@.address) is Some,
        ensures
            final(self)@ == spec_insert_address(old(self)@, *addr, peer@),
            wf_db(final(self)@),
    {
        match lookup_addr(&self.indexes, peer.address) {
            Some(id) => {
                index_set_exec(&mut self.indexes, *addr, id);
                proof {
                    lemma_index_set_distinct(old(self)@.indexes, *addr, id);
                    assert forall|k: int| 0 <= k < self@.indexes.len() implies spec_find_id(
                        self@.entities,
                        (#[trigger] self@.indexes[k]).1,
                    ) >= 0 by {
                        lemma_index_set_sub(old(self)@.indexes, *addr, id);
                        if self@.indexes[k] == (*addr, id) {
                            lemma_lookup_exists(old(self)@.indexes, peer@.address);
                            let k2 = choose|k2: int|
                                0 <= k2 < old(self)@.indexes.len() && old(self)@.indexes[k2] == (
                                peer@.address,
                                id,
                            );
                        } else {
                            let k2 = choose|k2: int|
                                0 <= k2 < old(self)@.indexes.len() && old(self)@.indexes[k2]
                                    == self@.indexes[k];
                        }
                    }
                    assert(final(self)@ =~= spec_insert_address(old(self)@, *addr, peer@));
                }
            },
            None => {},
        }
    }

    /// Detaches the connection-address binding only.
    pub fn remove_address(&mut self, addr: &Address)
        requires
            wf_db(old(self)@),
        ensures
            final(self)@ == spec_remove_address(old(self)@, *addr),
            wf_db(final(self)@),
    {
        remove_addr_exec(&mut self.indexes, *addr);
        proof {
            lemma_remove_addr_distinct(old(self)@.indexes, *addr);
            assert forall|k: int| 0 <= k < self@.indexes.len() implies spec_find_id(
                self@.entities,
                (#[trigger] self@.indexes[k]).1,
            ) >= 0 by {
                let k2 = choose|k2: int|
                    0 <= k2 < old(self)@.indexes.len() && old(self)@.indexes[k2]
                        == self@.indexes[k];
            }
            assert(final(self)@ =~= spec_remove_address(old(self)@, *addr));
        }
    }

    /// Deletes the entity an address resolves to, together with both of its
    /// address bindings; an unbound address merely loses its binding.
    pub fn delete_entity(&mut self, addr: &Address)
        requires
            wf_db(old(self)@),
        ensures
            final(self)@ == spec_delete_entity(old(self)@, *addr),
            wf_db(final(self)@),
    {
        match lookup_addr(&self.indexes, *addr) {
            Some(id) => {
                self.evict(id);
            },
            None => {
                self.remove_address(addr);
            },
        }
    }

    /// Replaces the catalog on the entity the address resolves to.
    pub fn update_collection(&mut self, addr: &Address, c: Collection)
        requires
            wf_db(old(self)@),
            spec_lookup(old(self)@.indexes, *addr) is Some,
        ensures
            final(self)@ == spec_update_collection(old(self)@, *addr, c@),
            wf_db(final(self)@),
    {
        match lookup_addr(&self.indexes, *addr) {
            Some(id) => {
                match find_pos_id(&self.entries, id) {
                    Some(i) => {
                        let old_entry = self.entries.remove(i);
                        let ghost oe = old_entry@;
                        self.entries.insert(
                            i,
                            Entry { id: old_entry.id, peer: old_entry.peer, collection: c },
                        );
                        proof {
                            let st = old(self)@;
                            let fi = spec_find_id(st.entities, id);
                            let e2 = EntityView { id: oe.id, peer: oe.peer, collection: c@ };
                            assert(entities_view(self.entries@) =~= st.entities.update(fi, e2));
                            assert forall|j1: int, j2: int|
                                0 <= j1 < j2 < self@.entities.len() implies (
                            #[trigger] self@.entities[j1]).peer.address != (
                            #[trigger] self@.entities[j2]).peer.address by {
                                assert(st.entities[j1].peer.address != st.entities[
                                    j2].peer.address);
                            }
                            assert forall|k: int| 0 <= k < self@.indexes.len() implies
                                spec_find_id(self@.entities, (#[trigger] self@.indexes[k]).1)
                                >= 0 by {
                                lemma_find_id_update_same(st.entities, fi, e2, self@.indexes[k].1);
                            }
                            assert(final(self)@ =~= spec_update_collection(old(self)@, *addr, c@));
                        }
                    },
                    None => {
                        proof {
                            assert(final(self)@ =~= spec_update_collection(old(self)@, *addr, c@));
                        }
                    },
                }
            },
            None => {},
        }
    }

    /// The catalog of the entity an address resolves to, or an empty one for
    /// an unknown address.
    pub fn get_collection(&self, addr: &Address) -> (r: Collection)
        ensures
            r@ == spec_collection_of(self@, *addr),
    {
        match lookup_addr(&self.indexes, *addr) {
            Some(id) => {
                match find_pos_id(&self.entries, id) {
                    Some(i) => {
                        proof {
                            assert(self@.entities[i as int] == self.entries@[i as int]@);
                        }
                        self.entries[i].collection.clone()
                    },
                    None => {
                        let r = Collection { artists: Vec::new() };
                        proof {
                            assert(artists_view(Seq::<ArtistData>::empty())
                                =~= Seq::<ArtistView>::empty());
                        }
                        r
                    },
                }
            },
            None => {
                let r = Collection { artists: Vec::new() };
                proof {
                    assert(artists_view(Seq::<ArtistData>::empty())
                        =~= Seq::<ArtistView>::empty());
                }
                r
            },
        }
    }

    /// A snapshot of the current peers, in their stable insertion order.
    pub fn all_peers(&self) -> (r: Vec<Peer>)
        ensures
            peers_view(r@) == spec_peers_of(self@),
    {
        let mut r: Vec<Peer> = Vec::new();
        let mut i: usize = 0;
        while i < self.entries.len()
            invariant
                i <= self.entries@.len(),
                r@.len() == i,
                forall|k: int| 0 <= k < i ==> (#[trigger] r@[k])@ == entities_view(
                    self.entries@,
                )[k].peer,
            decreases self.entries@.len() - i,
        {
            proof {
                assert(entities_view(self.entries@)[i as int] == self.entries@[i as int]@);
            }
            r.push(self.entries[i].peer.clone());
            i = i + 1;
        }
        proof {
            assert(peers_view(r@) =~= spec_peers_of(self@));
        }
        r
    }

    /// Registers a new event reader whose cursor starts at the present end
    /// of the log.
    pub fn track(&mut self) -> (r: usize)
        requires
            wf_db(old(self)@),
        ensures
            final(self)@ == (DbState {
                cursors: old(self)@.cursors.push(old(self)@.events.len() as usize),
                ..old(self)@
            }),
            r == old(self)@.cursors.len(),
            wf_db(final(self)@),
    {
        let r = self.cursors.len();
        let n = self.events.len();
        self.cursors.push(n);
        proof {
            assert(final(self)@ =~= (DbState {
                cursors: old(self)@.cursors.push(old(self)@.events.len() as usize),
                ..old(self)@
            }));
        }
        r
    }

    /// Hands a reader every event it has not yet observed and advances its
    /// cursor past them.
    pub fn read_events(&mut self, reader: usize) -> (r: Vec<NodeEvent>)
        requires
            wf_db(old(self)@),
            reader < old(self)@.cursors.len(),
        ensures
            r@ == old(self)@.events.skip(old(self)@.cursors[reader as int] as int),
            final(self)@ == (DbState {
                cursors: old(self)@.cursors.update(
                    reader as int,
                    old(self)@.events.len() as usize,
                ),
                ..old(self)@
            }),
            wf_db(final(self)@),
    {
        let mut r: Vec<NodeEvent> = Vec::new();
        let start = self.cursors[reader];
        let mut i: usize = start;
        while i < self.events.len()
            invariant
                start <= i <= self.events@.len(),
                r@ == self.events@.subrange(start as int, i as int),
            decreases self.events@.len() - i,
        {
            r.push(self.events[i]);
            proof {
                assert(r@ =~= self.events@.subrange(start as int, i + 1));
            }
            i = i + 1;
        }
        let n = self.events.len();
        self.cursors.set(reader, n);
        proof {
            assert(r@ =~= old(self)@.events.skip(start as int));
            assert(final(self)@ =~= (DbState {
                cursors: old(self)@.cursors.update(
                    reader as int,
                    old(self)@.events.len() as usize,
                ),
                ..old(self)@
            }));
        }
        r
    }
}

/// Removing the one entity that held an address leaves none with it.
pub proof fn lemma_find_addr_not_present_after(s: Seq<EntityView>, i: int, a: Address)
    requires
        0 <= i < s.len(),
        s[i].peer.address == a,
        forall|j1: int, j2: int|
            0 <= j1 < j2 < s.len() ==> (#[trigger] s[j1]).peer.address != (
            #[trigger] s[j2]).peer.address,
    ensures
        spec_find_addr(s.remove(i), a) < 0,
{
    let t = s.remove(i);
    assert forall|j: int| 0 <= j < t.len() implies (#[trigger] t[j]).peer.address != a by {
        if j < i {
            assert(t[j] == s[j]);
        } else {
            assert(t[j] == s[j + 1]);
        }
    }
    lemma_find_addr_not_present(t, a);
}


/// No two live entities share a service address: however the registry was
/// driven there, a well-formed state keeps one entity per advertised
/// address, and maintenance never disturbs it.
pub proof fn lemma_unique_service_addresses(st: DbState)
    requires
        wf_db(st),
    ensures
        forall|j1: int, j2: int|
            0 <= j1 < j2 < st.entities.len() ==> (#[trigger] st.entities[j1]).peer.address != (
            #[trigger] st.entities[j2]).peer.address,
{
}

/// Adding the local peer is a no-op: the registry refuses its own identity.
pub proof fn lemma_add_peer_local_noop(st: DbState, p: PeerView, c: Seq<ArtistView>)
    requires
        p.address == st.local.address,
    ensures
        spec_add_peer(st, p, c) == st,
{
}

/// Merging an album whose artist and title are already present replaces that
/// album wholesale and touches nothing else in the catalog.
pub proof fn lemma_add_tracks_replaces(c: Seq<ArtistView>, a: AlbumView, i: int, j: int)
    requires
        a.artist is Some,
        spec_find_artist(c, a.artist->Some_0) == i,
        0 <= i < c.len(),
        c[i].albums is Some,
        spec_find_album(c[i].albums->Some_0, a.album_title) == j,
        0 <= j,
    ensures
        spec_add_tracks_coll(c, a) == c.update(
            i,
            ArtistView { artist: c[i].artist, albums: Some((c[i].albums->Some_0).update(j, a)) },
        ),
        forall|k: int| 0 <= k < c.len() && k != i ==> spec_add_tracks_coll(c, a)[k] == c[k],
        spec_add_tracks_coll(c, a).len() == c.len(),
{
}

/// Binding a connection address to a peer's entity makes both addresses
/// resolve to the same entity.
pub proof fn lemma_insert_address_get_entity(st: DbState, conn: Address, p: PeerView)
    requires
        wf_db(st),
        spec_lookup(st.indexes, p.address) is Some,
    ensures
        spec_lookup(spec_insert_address(st, conn, p).indexes, conn) == spec_lookup(
            spec_insert_address(st, conn, p).indexes,
            p.address,
        ),
{
    match spec_lookup(st.indexes, p.address) {
        Some(id) => {
            lemma_lookup_index_set(st.indexes, conn, id, conn);
            lemma_lookup_index_set(st.indexes, conn, id, p.address);
        },
        None => {},
    }
}

/// Deleting an entity detaches every binding that named it — the service
/// address, the connection address, and any other — and the entity is gone.
pub proof fn lemma_delete_entity_unbinds(st: DbState, a: Address)
    requires
        wf_db(st),
    ensures
        spec_lookup(spec_delete_entity(st, a).indexes, a) is None,
        spec_lookup(st.indexes, a) matches Some(id) ==> (forall|b: Address|
            spec_lookup(spec_delete_entity(st, a).indexes, b) != Some(id)) && spec_find_id(
            spec_delete_entity(st, a).entities,
            id,
        ) < 0,
{
    match spec_lookup(st.indexes, a) {
        Some(id) => {
            lemma_lookup_exists(st.indexes, a);
            lemma_find_id_valid(st.entities, id);
            assert(spec_find_id(st.entities, id) >= 0);
            assert forall|b: Address|
                spec_lookup(spec_delete_entity(st, a).indexes, b) != Some(id) by {
                lemma_lookup_remove_id(st.indexes, id, b);
            }
            lemma_lookup_remove_id(st.indexes, id, a);
            lemma_find_id_remove(st.entities, id, id);
        },
        None => {
            lemma_lookup_remove_addr(st.indexes, a, a);
        },
    }
}

/// Adding one more peer after a batch is the batch extended by it.
pub proof fn lemma_add_peers_snoc(st: DbState, ps: Seq<PeerView>, p: PeerView)
    ensures
        spec_add_peers(st, ps.push(p)) == spec_add_peer(
            spec_add_peers(st, ps),
            p,
            Seq::<ArtistView>::empty(),
        ),
    decreases ps.len(),
{
    if ps.len() == 0 {
        assert(ps.push(p)[0] == p);
        assert(ps.push(p).skip(1) =~= Seq::<PeerView>::empty());
        assert(spec_add_peers(spec_add_peer(st, p, Seq::<ArtistView>::empty()), Seq::<
            PeerView,
        >::empty()) == spec_add_peer(st, p, Seq::<ArtistView>::empty()));
        assert(spec_add_peers(st, Seq::<PeerView>::empty()) == st);
    } else {
        assert(ps.push(p)[0] == ps[0]);
        assert(ps.push(p).skip(1) =~= ps.skip(1).push(p));
        lemma_add_peers_snoc(spec_add_peer(st, ps[0], Seq::<ArtistView>::empty()), ps.skip(1), p);
    }
}

/// A batch add never changes the local identity.
pub proof fn lemma_add_peers_local(st: DbState, ps: Seq<PeerView>)
    ensures
        spec_add_peers(st, ps).local == st.local,
    decreases ps.len(),
{
    if ps.len() > 0 {
        lemma_add_peers_local(spec_add_peer(st, ps[0], Seq::<ArtistView>::empty()), ps.skip(1));
    }
}

/// Stored form of a peer list: a one-byte count, then each peer behind a
/// one-byte length prefix.
pub open spec fn spec_snapshot_items(ps: Seq<PeerView>) -> Seq<u8>
    decreases ps.len(),
{
    if ps.len() == 0 {
        Seq::<u8>::empty()
    } else {
        seq![spec_peer_bytes(ps[0]).len() as u8] + spec_peer_bytes(ps[0]) + spec_snapshot_items(
            ps.skip(1),
        )
    }
}

pub open spec fn spec_snapshot_bytes(ps: Seq<PeerView>) -> Seq<u8> {
    seq![ps.len() as u8] + spec_snapshot_items(ps)
}

/// Appending one record extends the stored form at its tail.
pub proof fn lemma_snapshot_items_snoc(ps: Seq<PeerView>, p: PeerView)
    ensures
        spec_snapshot_items(ps.push(p)) == spec_snapshot_items(ps) + (seq![
            spec_peer_bytes(p).len() as u8,
        ] + spec_peer_bytes(p)),
    decreases ps.len(),
{
    let x = seq![spec_peer_bytes(p).len() as u8] + spec_peer_bytes(p);
    if ps.len() == 0 {
        assert(ps.push(p)[0] == p);
        assert(ps.push(p).skip(1) =~= Seq::<PeerView>::empty());
        assert(spec_snapshot_items(Seq::<PeerView>::empty()) == Seq::<u8>::empty());
        assert(spec_snapshot_items(ps.push(p)) == x + Seq::<u8>::empty());
        assert(x + Seq::<u8>::empty() =~= Seq::<u8>::empty() + x);
        assert(spec_snapshot_items(ps) + x == Seq::<u8>::empty() + x);
    } else {
        assert(ps.push(p)[0] == ps[0]);
        assert(ps.push(p).skip(1) =~= ps.skip(1).push(p));
        lemma_snapshot_items_snoc(ps.skip(1), p);
        let h = seq![spec_peer_bytes(ps[0]).len() as u8] + spec_peer_bytes(ps[0]);
        crate::utils::lemma_concat_assoc(h, spec_snapshot_items(ps.skip(1)), x);
    }
}

/// Writes the peers in the stored snapshot form: a count byte, then each
/// peer behind a one-byte length prefix, which every record must fit.
pub fn dump(peers: &Vec<Peer>) -> (r: bytes::BytesMut)
    requires
        peers@.len() <= 255,
        forall|i: int| 0 <= i < peers@.len() ==> peer_encodable((#[trigger] peers@[i])@),
        forall|i: int|
            0 <= i < peers@.len() ==> spec_peer_bytes((#[trigger] peers@[i])@).len() <= 255,
    ensures
        buf_bytes(r) == spec_snapshot_bytes(peers_view(peers@)),
{
    let mut buf = buf_new();
    buf_put_u8(&mut buf, peers.len() as u8);
    let ghost pre = buf_bytes(buf);
    let ghost pv = peers_view(peers@);
    let mut i: usize = 0;
    while i < peers.len()
        invariant
            pv == peers_view(peers@),
            pv.len() == peers@.len(),
            i <= pv.len(),
            pre == seq![pv.len() as u8],
            buf_bytes(buf) == pre + spec_snapshot_items(pv.take(i as int)),
            forall|k: int| 0 <= k < peers@.len() ==> peer_encodable((#[trigger] peers@[k])@),
            forall|k: int|
                0 <= k < peers@.len() ==> spec_peer_bytes((#[trigger] peers@[k])@).len() <= 255,
        decreases pv.len() - i,
    {
        proof {
            assert(pv[i as int] == peers@[i as int]@);
        }
        let pb = peers[i].to_bytes();
        buf_put_u8(&mut buf, buf_len(&pb) as u8);
        buf_unsplit(&mut buf, pb);
        proof {
            assert(pv.take(i + 1) =~= pv.take(i as int).push(pv[i as int]));
            lemma_snapshot_items_snoc(pv.take(i as int), pv[i as int]);
            assert(buf_bytes(buf) =~= pre + spec_snapshot_items(pv.take(i + 1)));
        }
        i = i + 1;
    }
    proof {
        assert(pv.take(pv.len() as int) =~= pv);
        assert(buf_bytes(buf) =~= spec_snapshot_bytes(pv));
    }
    buf
}

/// Reading the stored snapshot form: a count byte, then each peer inside its
/// own length-prefixed segment; leftover segment bytes are ignored.
pub open spec fn spec_parse_snapshot_items(s: Seq<u8>, n: int) -> Result<
    Seq<PeerView>,
    crate::utils::MessageCodecError,
>
    decreases n,
{
    if n <= 0 {
        Ok(Seq::<PeerView>::empty())
    } else if s.len() < 1 {
        Err(crate::utils::MessageCodecError::SerializationError)
    } else {
        let len = s[0] as int;
        let t = s.skip(1);
        if t.len() < len {
            Err(crate::utils::MessageCodecError::DataLengthMismatch)
        } else {
            match spec_parse_peer(t.take(len)) {
                Err(e) => Err(e),
                Ok((pv, _)) => match spec_parse_snapshot_items(t.skip(len), n - 1) {
                    Err(e) => Err(e),
                    Ok(ps) => Ok(seq![pv] + ps),
                },
            }
        }
    }
}

pub open spec fn spec_parse_snapshot(s: Seq<u8>) -> Result<
    Seq<PeerView>,
    crate::utils::MessageCodecError,
> {
    if s.len() == 0 {
        Ok(Seq::<PeerView>::empty())
    } else {
        spec_parse_snapshot_items(s.skip(1), s[0] as int)
    }
}

/// The registry's starting state: the local identity and nothing else.
pub open spec fn spec_empty_db(local: PeerView) -> DbState {
    DbState {
        local,
        entities: Seq::<EntityView>::empty(),
        indexes: Seq::<(Address, u64)>::empty(),
        events: Seq::<NodeEvent>::empty(),
        cursors: Seq::<usize>::empty(),
        next_id: 0,
    }
}

impl Db {
    /// Rebuilds a registry from a stored snapshot: every peer the bytes hold
    /// is added to a fresh registry, in order; an empty snapshot yields an
    /// empty registry and malformed bytes are refused.
    pub fn new_from_snapshot(local: Peer, buf: &mut bytes::BytesMut) -> (r: Result<
        Db,
        crate::utils::MessageCodecError,
    >)
        requires
            peer_encodable(local@),
        ensures
            match spec_parse_snapshot(buf_bytes(*old(buf))) {
                Ok(ps) => (r matches Ok(db) && db@ == spec_add_peers(spec_empty_db(local@), ps)
                    && wf_db(db@)),
                Err(e) => r == Err::<Db, crate::utils::MessageCodecError>(e),
            },
    {
        let mut db = Db::new(local);
        if buf_len(buf) == 0 {
            return Ok(db);
        }
        let count = buf_byte_at(buf, 0);
        let _ = buf_split_to(buf, 1);
        let ghost s0 = buf_bytes(*buf);
        let ghost n0 = count as int;
        let ghost mut acc: Seq<PeerView> = Seq::<PeerView>::empty();
        let mut remaining = count;
        while remaining > 0
            invariant
                buf_bytes(*old(buf)).len() > 0,
                n0 == buf_bytes(*old(buf))[0] as int,
                s0 == buf_bytes(*old(buf)).skip(1),
                db@.local == local@,
                wf_db(db@),
                db@ == spec_add_peers(spec_empty_db(db@.local), acc),
                db@.next_id as int + remaining as int <= 256,
                acc.len() + remaining as int == n0,
                spec_parse_snapshot_items(s0, n0) == (match spec_parse_snapshot_items(
                    buf_bytes(*buf),
                    remaining as int,
                ) {
                    Ok(ps2) => Ok::<Seq<PeerView>, crate::utils::MessageCodecError>(acc + ps2),
                    Err(e) => Err(e),
                }),
            decreases remaining,
        {
            let ghost cur = buf_bytes(*buf);
            if buf_len(buf) < 1 {
                return Err(crate::utils::MessageCodecError::SerializationError);
            }
            let len = buf_byte_at(buf, 0);
            let _ = buf_split_to(buf, 1);
            if buf_len(buf) < len as usize {
                return Err(crate::utils::MessageCodecError::DataLengthMismatch);
            }
            let mut seg = buf_split_to(buf, len as usize);
            let ghost pre = db@;
            let p = match Peer::from_bytes(&mut seg) {
                Ok(p) => p,
                Err(e) => {
                    return Err(e);
                },
            };
            proof {
                crate::peer::lemma_parse_peer_encodable(cur.skip(1).take(len as int));
            }
            db.add_peer(p, Collection { artists: Vec::new() });
            proof {
                let pv = p@;
                assert(entities_view(Seq::<Entry>::empty()) =~= Seq::<EntityView>::empty());
                assert(artists_view(Seq::<ArtistData>::empty()) =~= Seq::<ArtistView>::empty());
                assert(db@ == spec_add_peer(pre, pv, Seq::<ArtistView>::empty()));
                lemma_add_peers_snoc(spec_empty_db(pre.local), acc, pv);
                match spec_parse_snapshot_items(cur.skip(1).skip(len as int), remaining - 1) {
                    Ok(ps3) => {
                        assert(acc.push(pv) + ps3 =~= acc + (seq![pv] + ps3));
                    },
                    Err(_) => {},
                }
                acc = acc.push(pv);
            }
            remaining = remaining - 1;
        }
        proof {
            assert(acc + Seq::<PeerView>::empty() =~= acc);
        }
        Ok(db)
    }
}


/// A scan that finds its artist at `i` after missing everywhere before
/// agrees with the first-match position.
pub proof fn lemma_find_artist_at(c: Seq<ArtistView>, name: Seq<u8>, i: int)
    requires
        0 <= i < c.len(),
        c[i].artist == name,
        forall|k: int| 0 <= k < i ==> (#[trigger] c[k]).artist != name,
    ensures
        spec_find_artist(c, name) == i,
    decreases i,
{
    if i > 0 {
        assert(forall|k: int| 0 <= k < c.skip(1).len() ==> (#[trigger] c.skip(1)[k]) == c[k + 1]);
        lemma_find_artist_at(c.skip(1), name, i - 1);
    }
}

/// A name that no artist carries is not found.
pub proof fn lemma_find_artist_not_present(c: Seq<ArtistView>, name: Seq<u8>)
    requires
        forall|j: int| 0 <= j < c.len() ==> (#[trigger] c[j]).artist != name,
    ensures
        spec_find_artist(c, name) < 0,
    decreases c.len(),
{
    if c.len() > 0 {
        assert(forall|k: int| 0 <= k < c.skip(1).len() ==> (#[trigger] c.skip(1)[k]) == c[k + 1]);
        lemma_find_artist_not_present(c.skip(1), name);
    }
}

/// The same two facts, for the scan by album title.
pub proof fn lemma_find_album_at(al: Seq<AlbumView>, title: Seq<u8>, i: int)
    requires
        0 <= i < al.len(),
        al[i].album_title == title,
        forall|k: int| 0 <= k < i ==> (#[trigger] al[k]).album_title != title,
    ensures
        spec_find_album(al, title) == i,
    decreases i,
{
    if i > 0 {
        assert(forall|k: int|
            0 <= k < al.skip(1).len() ==> (#[trigger] al.skip(1)[k]) == al[k + 1]);
        lemma_find_album_at(al.skip(1), title, i - 1);
    }
}

pub proof fn lemma_find_album_not_present(al: Seq<AlbumView>, title: Seq<u8>)
    requires
        forall|j: int| 0 <= j < al.len() ==> (#[trigger] al[j]).album_title != title,
    ensures
        spec_find_album(al, title) < 0,
    decreases al.len(),
{
    if al.len() > 0 {
        assert(forall|k: int|
            0 <= k < al.skip(1).len() ==> (#[trigger] al.skip(1)[k]) == al[k + 1]);
        lemma_find_album_not_present(al.skip(1), title);
    }
}

/// Merges an album into a catalog, as `spec_add_tracks_coll` lays it out.
#[verifier::rlimit(100)]
#[verifier::spinoff_prover]
fn merge_album(c: &mut Collection, album: crate::data::AlbumData)
    requires
        album@.artist is Some,
    ensures
        final(c)@ == spec_add_tracks_coll(old(c)@, album@),
{
    let ghost cv = old(c)@;
    let ghost av = album@;
    let name = match &album.artist {
        Some(v) => crate::peer::copy_bytes(v),
        None => Vec::new(),
    };
    let mut i: usize = 0;
    let n = c.artists.len();
    while i < n
        invariant
            cv == old(c)@,
            av == album@,
            c.artists@ == old(c).artists@,
            cv == c@,
            c@ == crate::data::artists_view(c.artists@),
            n == c.artists@.len(),
            cv.len() == n,
            name@ == av.artist->Some_0,
            av.artist is Some,
            i <= n,
            forall|k: int| 0 <= k < i ==> (#[trigger] cv[k]).artist != name@,
        decreases n - i,
    {
        proof {
            assert(cv[i as int] == c.artists@[i as int]@);
        }
        if crate::utils::bytes_eq(&c.artists[i].artist, &name) {
            proof {
                lemma_find_artist_at(cv, name@, i as int);
            }
            let ar = c.artists.remove(i);
            let ghost base = c.artists@;
            let mut al: Vec<crate::data::AlbumData> = match ar.albums {
                Some(v) => v,
                None => Vec::new(),
            };
            let ghost alv = match cv[i as int].albums {
                Some(a) => a,
                None => Seq::<AlbumView>::empty(),
            };
            proof {
                assert(crate::data::albums_view(Seq::<crate::data::AlbumData>::empty())
                    =~= Seq::<AlbumView>::empty());
                assert(crate::data::albums_view(al@) == alv);
            }
            let ghost arname = ar.artist@;
            let m = al.len();
            let mut j: usize = 0;
            while j < m
                invariant
                    cv == old(c)@,
                    cv == crate::data::artists_view(old(c).artists@),
                    cv.len() == old(c).artists@.len(),
                    i < cv.len(),
                    base == old(c).artists@.remove(i as int),
                    base == c.artists@,
                    spec_find_artist(cv, av.artist->Some_0) == i as int,
                    av.artist is Some,
                    arname == ar.artist@,
                    arname == cv[i as int].artist,
                    alv == (match cv[i as int].albums {
                        Some(a) => a,
                        None => Seq::<AlbumView>::empty(),
                    }),
                    alv == crate::data::albums_view(al@),
                    m == al@.len(),
                    alv.len() == m,
                    av == album@,
                    j <= m,
                    forall|k: int| 0 <= k < j ==> (#[trigger] alv[k]).album_title != av.album_title,
                decreases m - j,
            {
                proof {
                    assert(alv[j as int] == al@[j as int]@);
                }
                if crate::utils::bytes_eq(&al[j].album_title, &album.album_title) {
                    proof {
                        lemma_find_album_at(alv, av.album_title, j as int);
                    }
                    al.set(j, album);
                    proof {
                        assert(crate::data::albums_view(al@) =~= alv.update(j as int, av));
                    }
                    let ar2 = crate::data::ArtistData { artist: ar.artist, albums: Some(al) };
                    let ghost ar2v = ar2;
                    c.artists.insert(i, ar2);
                    proof {
                        old(c).artists@.remove_ensures(i as int);
                        base.insert_ensures(i as int, ar2v);
                        assert(crate::data::artists_view(c.artists@) =~= cv.update(
                            i as int,
                            ArtistView { artist: arname, albums: Some(alv.update(j as int, av)) },
                        ));
                        assert(c@ =~= spec_add_tracks_coll(cv, av));
                    }
                    return ;
                }
                j = j + 1;
            }
            proof {
                lemma_find_album_not_present(alv, av.album_title);
            }
            al.push(album);
            proof {
                assert(crate::data::albums_view(al@) =~= alv.push(av));
            }
            let ar2 = crate::data::ArtistData { artist: ar.artist, albums: Some(al) };
            let ghost ar2v = ar2;
            c.artists.insert(i, ar2);
            proof {
                old(c).artists@.remove_ensures(i as int);
                base.insert_ensures(i as int, ar2v);
                assert(crate::data::artists_view(c.artists@) =~= cv.update(
                    i as int,
                    ArtistView { artist: arname, albums: Some(alv.push(av)) },
                ));
                assert(c@ =~= spec_add_tracks_coll(cv, av));
            }
            return ;
        }
        i = i + 1;
    }
    proof {
        lemma_find_artist_not_present(cv, name@);
    }
    let mut al: Vec<crate::data::AlbumData> = Vec::new();
    al.push(album);
    let ghost namev = name@;
    let ar2 = crate::data::ArtistData { artist: name, albums: Some(al) };
    c.artists.push(ar2);
    proof {
        assert(crate::data::albums_view(al@) =~= seq![av]);
        assert(crate::data::artists_view(c.artists@) =~= cv.push(
            ArtistView { artist: namev, albums: Some(seq![av]) },
        ));
        assert(c@ =~= spec_add_tracks_coll(cv, av));
    }
}

impl Db {
    /// Merges an album into the catalog of the entity the address resolves
    /// to: a present album is replaced wholesale, a missing album or artist
    /// is appended.
    pub fn add_tracks(&mut self, addr: &Address, album_data: crate::data::AlbumData)
        requires
            wf_db(old(self)@),
            spec_lookup(old(self)@.indexes, *addr) is Some,
            album_data@.artist is Some,
        ensures
            final(self)@ == spec_add_tracks(old(self)@, *addr, album_data@),
            wf_db(final(self)@),
    {
        let mut collection = self.get_collection(addr);
        merge_album(&mut collection, album_data);
        self.update_collection(addr, collection);
    }
}

} // verus!
