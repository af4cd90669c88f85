//! Cluster membership as a node sees it: its own id and its peers.
use vstd::prelude::*;

verus! {

/// The views of a list of node ids.
pub open spec fn ids_view(ids: Seq<String>) -> Seq<Seq<char>> {
    ids.map_values(|s: String| s@)
}

/// The peers of node `me` among the cluster `ids`: every other id, once, in
/// order of first appearance.
pub open spec fn peers_of(me: Seq<char>, ids: Seq<Seq<char>>) -> Seq<Seq<char>>
    decreases ids.len(),
{
    if ids.len() == 0 {
        Seq::empty()
    } else {
        let p = peers_of(me, ids.drop_last());
        if ids.last() == me || p.contains(ids.last()) {
            p
        } else {
            p.push(ids.last())
        }
    }
}

/// The nodes that node `me` gossips to: every other node of the cluster
/// `node_ids`, once each (a full mesh; the topology a cluster hands out is
/// only a hint).
pub fn peers(me: &String, node_ids: &Vec<String>) -> (r: Vec<String>)
    ensures
        ids_view(r@) == peers_of(me@, ids_view(node_ids@)),
        ids_view(r@).no_duplicates(),
        !ids_view(r@).contains(me@),
{
    let ghost ids = ids_view(node_ids@);
    let mut peers: Vec<String> = Vec::new();
    let mut i: usize = 0;
    while i < node_ids.len()
        invariant
            0 <= i <= node_ids.len(),
            ids == ids_view(node_ids@),
            ids_view(peers@) == peers_of(me@, ids.subrange(0, i as int)),
            ids_view(peers@).no_duplicates(),
            !ids_view(peers@).contains(me@),
        decreases node_ids.len() - i,
    {
        let ghost pv = ids_view(peers@);
        assert(ids.subrange(0, i + 1).drop_last() == ids.subrange(0, i as int));
        let id = &node_ids[i];
        let mut known = *id == *me;
        let mut j: usize = 0;
        while j < peers.len() && !known
            invariant
                0 <= j <= peers.len(),
                pv == ids_view(peers@),
                known == (id@ == me@ || exists|m: int| 0 <= m < j && pv[m] == id@),
            decreases peers.len() - j,
        {
            assert(pv[j as int] == peers@[j as int]@);
            if peers[j] == *id {
                known = true;
            }
            j = j + 1;
        }
        proof {
            if !known {
                assert forall|m: int| 0 <= m < pv.len() implies pv[m] != id@ by {}
                assert(!pv.contains(id@));
            } else if id@ != me@ {
                let m = choose|m: int| 0 <= m < j && pv[m] == id@;
                assert(pv.contains(id@));
            }
        }
        if !known {
            peers.push(id.clone());
            assert(ids_view(peers@) =~= pv.push(id@));
        }
        i = i + 1;
    }
    assert(ids.subrange(0, node_ids@.len() as int) == ids);
    peers
}

} // verus!
