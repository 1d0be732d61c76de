//! Outbound fan-out: who receives an addressed message. A subset-addressed
//! diff reaches exactly the subscriber set captured at application time —
//! no other client, not twice, not dropped.

use vstd::prelude::*;
use crate::identity::{ClientID, CLIENT_ID_CAPACITY};
use crate::messaging::{MsgToClient, MsgToClientSet};

verus! {

/// Whether the addressed message `m` is delivered to client `cid`.
pub open spec fn delivers_to(m: MsgToClientSet, cid: ClientID) -> bool {
    match m {
        MsgToClientSet::Only(_, c) => c == cid,
        MsgToClientSet::All(_) => true,
        MsgToClientSet::Subset(_, set) => set.spec_get(cid),
    }
}

/// The payload carried by an addressed message.
pub open spec fn payload_of(m: MsgToClientSet) -> MsgToClient {
    match m {
        MsgToClientSet::Only(msg, _) => msg,
        MsgToClientSet::All(msg) => msg,
        MsgToClientSet::Subset(msg, _) => msg,
    }
}

/// Decide whether `m` is for `cid`: the routing test every transport
/// (networked or in-process) applies per client.
pub fn should_deliver(m: &MsgToClientSet, cid: ClientID) -> (r: bool)
    requires
        cid < CLIENT_ID_CAPACITY,
    ensures
        r == delivers_to(*m, cid),
{
    match m {
        MsgToClientSet::Only(_, c) => *c == cid,
        MsgToClientSet::All(_) => true,
        MsgToClientSet::Subset(_, set) => set.get(cid),
    }
}

/// Fan-out scoping: a subset-addressed message is delivered to a client
/// exactly when that client belongs to the attached subscriber set.
pub proof fn lemma_fanout_scoping(msg: MsgToClient, set: crate::identity::ClientIDSet, cid: ClientID)
    ensures
        delivers_to(MsgToClientSet::Subset(msg, set), cid) <==> set.set_view().contains(cid),
{
}

/// The messages of `msgs` addressed to `cid`, payloads only, in order: what
/// the in-process coupler hands a client's inbound queue.
pub fn filter_for_client(msgs: &Vec<MsgToClientSet>, cid: ClientID) -> (r: Vec<MsgToClient>)
    requires
        cid < CLIENT_ID_CAPACITY,
    ensures
        r@.len() <= msgs@.len(),
        forall|j: int|
            #![trigger r@[j]]
            0 <= j < r@.len() ==> exists|i: int|
                0 <= i < msgs@.len() && delivers_to(#[trigger] msgs@[i], cid) && r@[j]
                    == payload_of(msgs@[i]),
        forall|i: int|
            0 <= i < msgs@.len() && delivers_to(#[trigger] msgs@[i], cid) ==> exists|j: int|
                0 <= j < r@.len() && r@[j] == payload_of(msgs@[i]),
    {
    let n = msgs.len();
    let mut r: Vec<MsgToClient> = Vec::new();
    let mut i: usize = 0;
    while i < n
        invariant
            cid < CLIENT_ID_CAPACITY,
            n == msgs@.len(),
            i <= n,
            r@.len() <= i,
            forall|j: int|
                #![trigger r@[j]]
                0 <= j < r@.len() ==> exists|k: int|
                    0 <= k < i && delivers_to(#[trigger] msgs@[k], cid) && r@[j] == payload_of(
                        msgs@[k],
                    ),
            forall|k: int|
                0 <= k < i && delivers_to(#[trigger] msgs@[k], cid) ==> exists|j: int|
                    0 <= j < r@.len() && r@[j] == payload_of(msgs@[k]),
        decreases n - i,
    {
        let m = &msgs[i];
        if should_deliver(m, cid) {
            let payload = match m {
                MsgToClientSet::Only(msg, _) => *msg,
                MsgToClientSet::All(msg) => *msg,
                MsgToClientSet::Subset(msg, _) => *msg,
            };
            let ghost rpre = r@;
            r.push(payload);
            proof {
                assert(r@[rpre.len() as int] == payload_of(msgs@[i as int]));
                assert forall|j: int|
                    #![trigger r@[j]]
                    0 <= j < r@.len() implies exists|k: int|
                        0 <= k < i + 1 && delivers_to(#[trigger] msgs@[k], cid) && r@[j]
                            == payload_of(msgs@[k]) by {
                    if j < rpre.len() {
                        assert(r@[j] == rpre[j]);
                        let k = choose|k: int|
                            0 <= k < i && delivers_to(#[trigger] msgs@[k], cid) && rpre[j]
                                == payload_of(msgs@[k]);
                        assert(delivers_to(msgs@[k], cid));
                        assert(r@[j] == payload_of(msgs@[k]));
                    } else {
                        assert(delivers_to(msgs@[i as int], cid));
                        assert(r@[j] == payload_of(msgs@[i as int]));
                    }
                }
                assert forall|k: int|
                    0 <= k < i + 1 && delivers_to(#[trigger] msgs@[k], cid) implies exists|j: int|
                        0 <= j < r@.len() && r@[j] == payload_of(msgs@[k]) by {
                    if k < i {
                        let j = choose|j: int|
                            0 <= j < rpre.len() && rpre[j] == payload_of(msgs@[k]);
                        assert(r@[j] == payload_of(msgs@[k]));
                    } else {
                        assert(r@[rpre.len() as int] == payload_of(msgs@[k]));
                    }
                }
            }
        }
        i = i + 1;
    }
    proof {
        assert forall|j: int|
            #![trigger r@[j]]
            0 <= j < r@.len() implies exists|i2: int|
                0 <= i2 < msgs@.len() && delivers_to(#[trigger] msgs@[i2], cid) && r@[j]
                    == payload_of(msgs@[i2]) by {
            let k = choose|k: int|
                0 <= k < i && delivers_to(#[trigger] msgs@[k], cid) && r@[j] == payload_of(
                    msgs@[k],
                );
            assert(0 <= k < msgs@.len());
            assert(delivers_to(msgs@[k], cid) && r@[j] == payload_of(msgs@[k]));
        }
    }
    r
}

} // verus!
