//! The layout of a network of nodes on one host: which ports each node takes.
//!
//! A node listens for requests on its own port and answers on the next one, so
//! neighbouring nodes stand two ports apart.

use ethereum_types::H160;
use vstd::prelude::*;

verus! {

/// How many ports a node takes, and so how far apart neighbouring nodes stand.
pub const PORT_STRIDE: usize = 2;

/// The record of a peer in the configuration: who it is and where it listens.
pub struct PeerConfig {
    pub id: H160,
    pub port: usize,
}

/// The two ports of a node.
#[derive(Clone, Copy, Debug, PartialEq, Eq, Structural)]
pub struct Endpoints {
    /// Where the node takes requests.
    pub request_port: usize,
    /// Where the node answers.
    pub reply_port: usize,
}

/// The request port of the node with the given index in a network that starts at `base`.
pub open spec fn node_port_of(base: int, index: int) -> int {
    base + PORT_STRIDE * index
}

/// The request port of the node with the given index in a network that starts at
/// `base`, or `None` where there is no such port number.
pub fn node_port(base: usize, index: usize) -> (port: Option<usize>)
    ensures
        match port {
            Some(port) => port == node_port_of(base as int, index as int),
            None => node_port_of(base as int, index as int) > usize::MAX,
        },
{
    match index.checked_mul(PORT_STRIDE) {
        Some(offset) => base.checked_add(offset),
        None => None,
    }
}

/// The two ports of the node that listens on `port`, or `None` where `port` is the last
/// port number there is.
pub fn endpoints(port: usize) -> (result: Option<Endpoints>)
    ensures
        match result {
            Some(ends) => ends.request_port == port && ends.reply_port == port + 1,
            None => port == usize::MAX,
        },
{
    match port.checked_add(1) {
        Some(reply_port) => Some(Endpoints { request_port: port, reply_port }),
        None => None,
    }
}

/// The peers of a network on one host: one per identifier, in the order given, the
/// first on `base` and each next one `PORT_STRIDE` further. `None` where the port
/// numbers run out.
pub fn tester_peers(base: usize, ids: &Vec<H160>) -> (result: Option<Vec<PeerConfig>>)
    ensures
        match result {
            Some(peers) => {
                &&& peers@.len() == ids@.len()
                &&& forall|i: int|
                    0 <= i < ids@.len() ==> (#[trigger] peers@[i]).id == ids@[i] && peers@[i].port
                        == node_port_of(base as int, i)
            },
            None => ids@.len() > 0 && node_port_of(base as int, ids@.len() - 1) > usize::MAX,
        },
{
    let mut peers: Vec<PeerConfig> = Vec::new();
    let mut i: usize = 0;
    while i < ids.len()
        invariant
            i <= ids@.len(),
            peers@.len() == i,
            forall|k: int|
                0 <= k < i ==> (#[trigger] peers@[k]).id == ids@[k] && peers@[k].port
                    == node_port_of(base as int, k),
        decreases ids@.len() - i,
    {
        match node_port(base, i) {
            Some(port) => {
                peers.push(PeerConfig { id: ids[i], port });
            },
            None => {
                return None;
            },
        }
        i += 1;
    }
    Some(peers)
}

/// No two nodes of a network share a port: neither for requests nor for replies, nor
/// one's request port with the other's reply port.
pub proof fn lemma_nodes_share_no_port(base: int, first: int, second: int)
    requires
        first != second,
    ensures
        node_port_of(base, first) != node_port_of(base, second),
        node_port_of(base, first) + 1 != node_port_of(base, second) + 1,
        node_port_of(base, first) != node_port_of(base, second) + 1,
        node_port_of(base, first) + 1 != node_port_of(base, second),
{
}

} // verus!
