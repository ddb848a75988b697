//! The other instances in the local network, and what they send each other.

use crate::number::{
    decimal, i64_text, law_decimal_is_written_in_order, law_decimal_reads_back,
    law_signed_decimal_reads_back, parse_i64, parse_u32, signed_decimal, signed_read,
    unsigned_read,
};
use crate::text::{
    chars_of, lemma_split_joined, lemma_split_whole, split_at_char, split_on, views,
};
use std::cmp::Ordering;
use vstd::prelude::*;

verus! {

/// How many nodes are remembered.
pub const NODE_CAPACITY: usize = 1000;

/// After how many seconds a node that was not heard of is forgotten.
pub const NODE_LIFETIME_SECS: i64 = 7200;

/// The port on which nodes listen.
pub const NODE_PORT: u16 = 56311;

/// An instance in the local network.
#[derive(Debug)]
pub struct NodeInfo {
    pub dev_id: String,
    pub ip: String,
    pub port: u16,
    pub version: String,
    pub update_time: String,
}

/// What nodes send each other.
#[derive(Debug)]
pub enum NodeMessage {
    RequestMessage(RequestMessageType),
    ResponseMessage(ResponseMessageType),
}

/// A request of a node.
#[derive(Debug)]
pub enum RequestMessageType {
    /// A node makes itself known.
    NewNodeMessage(NodeInfo),
    /// A node leaves.
    ExitNode(String),
    /// Anything else.
    CustomMessage(String),
}

/// An answer of a node.
#[derive(Debug)]
pub enum ResponseMessageType {
    /// Something went wrong.
    ErrorMessage(String),
    /// Anything else.
    CustomMessage(String),
}

/// The program file that a node sends to one that asked for it.
#[derive(Debug)]
pub struct UpdateDate {
    pub version: String,
    pub file_data: Vec<u8>,
    pub file_size: u64,
    pub sha256_hash: String,
}

impl Clone for NodeInfo {
    fn clone(&self) -> (res: Self)
        ensures
            res == *self,
    {
        NodeInfo {
            dev_id: self.dev_id.clone(),
            ip: self.ip.clone(),
            port: self.port,
            version: self.version.clone(),
            update_time: self.update_time.clone(),
        }
    }
}

impl NodeInfo {
    /// What a node says of itself. It does not know when it will be heard.
    pub fn announcement(dev_id: String, ip: String, version: String) -> (res: Self)
        ensures
            res.dev_id == dev_id,
            res.ip == ip,
            res.port == NODE_PORT,
            res.version == version,
            res.update_time@ == "0"@,
    {
        NodeInfo { dev_id, ip, port: NODE_PORT, version, update_time: "0".to_string() }
    }

    /// Whether `self` is `other` as heard from `ip` at a time.
    pub open spec fn heard_as(self, other: NodeInfo, ip: Seq<char>, timestamp: int) -> bool {
        &&& self.dev_id == other.dev_id
        &&& self.ip@ == ip
        &&& self.port == other.port
        &&& self.version == other.version
        &&& self.update_time@ == signed_decimal(timestamp)
    }

    /// When the node was last heard of; zero if that cannot be told.
    pub open spec fn last_update(self) -> int {
        match signed_read(self.update_time@) {
            Ok(t) => t,
            Err(_) => 0,
        }
    }

    /// Whether the time since then can be told.
    pub open spec fn age_fits(self, now: int) -> bool {
        i64::MIN <= now - self.last_update() <= i64::MAX
    }

    /// When the node was last heard of.
    fn last_heard(&self) -> (res: i64)
        ensures
            res == self.last_update(),
    {
        match parse_i64(&chars_of(self.update_time.as_str())) {
            Ok(t) => t,
            Err(_) => 0,
        }
    }

    /// Whether the node was heard of lately.
    pub open spec fn recent(self, now: int) -> bool {
        now - self.last_update() < NODE_LIFETIME_SECS
    }
}

/// The answer to a node that makes itself known.
pub fn greeting(dev_id: String, version: String) -> (res: NodeMessage)
    ensures
        res matches NodeMessage::RequestMessage(RequestMessageType::NewNodeMessage(info)) && {
            &&& info.dev_id == dev_id
            &&& info.ip@ == "0"@
            &&& info.port == NODE_PORT
            &&& info.version == version
            &&& info.update_time@ == "0"@
        },
{
    NodeMessage::RequestMessage(
        RequestMessageType::NewNodeMessage(
            NodeInfo::announcement(dev_id, "0".to_string(), version),
        ),
    )
}

/// Whether no two nodes have the same device number.
pub open spec fn distinct_nodes(nodes: Seq<NodeInfo>) -> bool {
    forall|i: int, j: int|
        0 <= i < j < nodes.len() ==> (#[trigger] nodes[i]).dev_id@ != (#[trigger] nodes[j]).dev_id@
}

/// Nodes by their device numbers.
pub open spec fn node_map(nodes: Seq<NodeInfo>) -> Map<Seq<char>, NodeInfo>
    decreases nodes.len(),
{
    if nodes.len() == 0 {
        Map::empty()
    } else {
        node_map(nodes.drop_last()).insert(nodes.last().dev_id@, nodes.last())
    }
}

/// The nodes that are known.
#[derive(Debug)]
pub struct NodeDiscoveryState {
    nodes: Vec<NodeInfo>,
}

impl View for NodeDiscoveryState {
    type V = Map<Seq<char>, NodeInfo>;

    closed spec fn view(&self) -> Map<Seq<char>, NodeInfo> {
        node_map(self.nodes@)
    }
}

proof fn lemma_node_map(nodes: Seq<NodeInfo>)
    requires
        distinct_nodes(nodes),
    ensures
        forall|i: int|
            0 <= i < nodes.len() ==> node_map(nodes).contains_key((#[trigger] nodes[i]).dev_id@)
                && node_map(nodes)[nodes[i].dev_id@] == nodes[i],
        forall|id: Seq<char>| #[trigger]
            node_map(nodes).contains_key(id) ==> exists|i: int|
                0 <= i < nodes.len() && (#[trigger] nodes[i]).dev_id@ == id,
        node_map(nodes).dom().finite(),
        node_map(nodes).len() == nodes.len(),
    decreases nodes.len(),
{
    if nodes.len() > 0 {
        let before = nodes.drop_last();
        let last = nodes.len() - 1;
        lemma_node_map(before);
        assert forall|i: int| 0 <= i < nodes.len() implies node_map(nodes).contains_key(
            (#[trigger] nodes[i]).dev_id@,
        ) && node_map(nodes)[nodes[i].dev_id@] == nodes[i] by {
            if i < last {
                assert(before[i] == nodes[i]);
                assert(nodes[i].dev_id@ != nodes[last].dev_id@);
            }
        }
        assert forall|id: Seq<char>| #[trigger] node_map(nodes).contains_key(id) implies exists|
            i: int,
        |
            0 <= i < nodes.len() && (#[trigger] nodes[i]).dev_id@ == id by {
            if id == nodes[last].dev_id@ {
                assert(nodes[last].dev_id@ == id);
            } else {
                assert(node_map(before).contains_key(id));
                let i = choose|i: int| 0 <= i < before.len() && (#[trigger] before[i]).dev_id@ == id;
                assert(nodes[i].dev_id@ == id);
            }
        }
        assert(!node_map(before).contains_key(nodes[last].dev_id@)) by {
            if node_map(before).contains_key(nodes[last].dev_id@) {
                let i = choose|i: int|
                    0 <= i < before.len() && (#[trigger] before[i]).dev_id@ == nodes[last].dev_id@;
                assert(nodes[i].dev_id@ == nodes[last].dev_id@);
            }
        }
    }
}

/// Two lists of different nodes with the same members are the same map.
proof fn lemma_same_nodes(nodes: Seq<NodeInfo>, map: Map<Seq<char>, NodeInfo>)
    requires
        distinct_nodes(nodes),
        forall|i: int|
            0 <= i < nodes.len() ==> map.contains_key((#[trigger] nodes[i]).dev_id@)
                && map[nodes[i].dev_id@] == nodes[i],
        forall|id: Seq<char>| #[trigger]
            map.contains_key(id) ==> exists|i: int|
                0 <= i < nodes.len() && (#[trigger] nodes[i]).dev_id@ == id,
    ensures
        node_map(nodes) == map,
{
    lemma_node_map(nodes);
    assert forall|id: Seq<char>| #[trigger]
        node_map(nodes).contains_key(id) <==> map.contains_key(id) by {
        if map.contains_key(id) {
            let i = choose|i: int| 0 <= i < nodes.len() && (#[trigger] nodes[i]).dev_id@ == id;
            assert(node_map(nodes).contains_key(nodes[i].dev_id@));
        }
        if node_map(nodes).contains_key(id) {
            let i = choose|i: int| 0 <= i < nodes.len() && (#[trigger] nodes[i]).dev_id@ == id;
            assert(map.contains_key(nodes[i].dev_id@));
        }
    }
    assert forall|id: Seq<char>| #[trigger] map.contains_key(id) implies node_map(nodes)[id]
        == map[id] by {
        let i = choose|i: int| 0 <= i < nodes.len() && (#[trigger] nodes[i]).dev_id@ == id;
        assert(node_map(nodes)[nodes[i].dev_id@] == nodes[i]);
    }
    assert(node_map(nodes) =~= map);
}

/// Whether a node was taken in as heard from `ip` at a time, unless there was no
/// room for more; `res` is whether it is a new one.
pub open spec fn registers(
    before: Map<Seq<char>, NodeInfo>,
    after: Map<Seq<char>, NodeInfo>,
    info: NodeInfo,
    ip: Seq<char>,
    timestamp: int,
    res: bool,
) -> bool {
    if before.len() < NODE_CAPACITY {
        &&& res == !before.contains_key(info.dev_id@)
        &&& after.contains_key(info.dev_id@)
        &&& after[info.dev_id@].heard_as(info, ip, timestamp)
        &&& after == before.insert(info.dev_id@, after[info.dev_id@])
    } else {
        !res && after == before
    }
}

/// Whether a message that a node at `ip` sent was taken in: only one that makes the
/// node known changes anything.
pub open spec fn receives(
    before: Map<Seq<char>, NodeInfo>,
    after: Map<Seq<char>, NodeInfo>,
    message: NodeMessage,
    ip: Seq<char>,
    timestamp: int,
    res: bool,
) -> bool {
    match message {
        NodeMessage::RequestMessage(RequestMessageType::NewNodeMessage(info)) => registers(
            before,
            after,
            info,
            ip,
            timestamp,
            res,
        ),
        _ => !res && after == before,
    }
}

/// Whether the nodes that were not heard of lately were forgotten, and no others.
pub open spec fn expires(
    before: Map<Seq<char>, NodeInfo>,
    after: Map<Seq<char>, NodeInfo>,
    now: int,
) -> bool {
    &&& forall|id: Seq<char>| #[trigger]
        after.contains_key(id) <==> before.contains_key(id) && before[id].recent(now)
    &&& forall|id: Seq<char>| #[trigger] after.contains_key(id) ==> after[id] == before[id]
}

impl NodeDiscoveryState {
    /// Device numbers are different, and there are not too many nodes.
    #[verifier::type_invariant]
    spec fn inv(self) -> bool {
        distinct_nodes(self.nodes@) && self.nodes@.len() <= NODE_CAPACITY
    }

    /// No node is known.
    pub fn new() -> (res: Self)
        ensures
            res@ == Map::<Seq<char>, NodeInfo>::empty(),
    {
        NodeDiscoveryState { nodes: Vec::new() }
    }

    /// How many nodes are known.
    pub fn len(&self) -> (res: usize)
        ensures
            res == self@.len(),
            res <= NODE_CAPACITY,
    {
        proof {
            use_type_invariant(self);
            lemma_node_map(self.nodes@);
        }
        self.nodes.len()
    }

    /// The position of a node.
    fn position(&self, dev_id: &String) -> (res: Option<usize>)
        ensures
            match res {
                Some(i) => i < self.nodes@.len() && self.nodes@[i as int].dev_id@ == dev_id@,
                None => forall|i: int|
                    0 <= i < self.nodes@.len() ==> (#[trigger] self.nodes@[i]).dev_id@ != dev_id@,
            },
    {
        let mut i: usize = 0;
        while i < self.nodes.len()
            invariant
                i <= self.nodes.len(),
                forall|j: int| 0 <= j < i ==> (#[trigger] self.nodes@[j]).dev_id@ != dev_id@,
            decreases self.nodes.len() - i,
        {
            if self.nodes[i].dev_id == *dev_id {
                return Some(i);
            }
            i += 1;
        }
        None
    }

    /// The node with the given device number.
    pub fn node(&self, dev_id: &String) -> (res: Option<&NodeInfo>)
        ensures
            match res {
                Some(info) => self@.contains_key(dev_id@) && *info == self@[dev_id@],
                None => !self@.contains_key(dev_id@),
            },
    {
        proof {
            use_type_invariant(self);
            lemma_node_map(self.nodes@);
        }
        match self.position(dev_id) {
            Some(i) => Some(&self.nodes[i]),
            None => None,
        }
    }

    /// Takes in a node as heard from `ip` at a time, unless there is no room for
    /// more nodes. The result says whether the node is a new one.
    pub fn register(&mut self, info: NodeInfo, ip: String, timestamp: i64) -> (res: bool)
        ensures
            registers(old(self)@, final(self)@, info, ip@, timestamp as int, res),
    {
        proof {
            use_type_invariant(&*self);
            lemma_node_map(self.nodes@);
        }
        let ghost before = self.nodes@;
        if self.nodes.len() >= NODE_CAPACITY {
            return false;
        }
        let heard = NodeInfo {
            dev_id: info.dev_id,
            ip,
            port: info.port,
            version: info.version,
            update_time: i64_text(timestamp),
        };
        let ghost shown = heard;
        let ghost target = node_map(before).insert(shown.dev_id@, shown);
        let position = self.position(&heard.dev_id);
        let mut kept: Vec<NodeInfo> = Vec::new();
        std::mem::swap(&mut kept, &mut self.nodes);
        match position {
            Some(i) => {
                kept.set(i, heard);
                proof {
                    let now = before.update(i as int, shown);
                    assert(kept@ == now);
                    assert forall|a: int, b: int| 0 <= a < b < now.len() implies (
                    #[trigger] now[a]).dev_id@ != (#[trigger] now[b]).dev_id@ by {
                        assert(before[a].dev_id@ != before[b].dev_id@);
                    }
                    assert forall|j: int| 0 <= j < now.len() implies target.contains_key(
                        (#[trigger] now[j]).dev_id@,
                    ) && target[now[j].dev_id@] == now[j] by {
                        assert(node_map(before).contains_key(before[j].dev_id@));
                        if j != i {
                            assert(before[j].dev_id@ != before[i as int].dev_id@);
                        }
                    }
                    assert forall|id: Seq<char>| #[trigger] target.contains_key(id) implies exists|
                        j: int,
                    |
                        0 <= j < now.len() && (#[trigger] now[j]).dev_id@ == id by {
                        let j = choose|j: int|
                            0 <= j < before.len() && (#[trigger] before[j]).dev_id@ == id;
                        if id == shown.dev_id@ {
                            assert(now[i as int].dev_id@ == id);
                        } else {
                            assert(node_map(before).contains_key(id));
                            assert(now[j].dev_id@ == id);
                        }
                    }
                    lemma_same_nodes(now, target);
                    lemma_node_map(now);
                }
                self.nodes = kept;
                false
            },
            None => {
                kept.push(heard);
                proof {
                    let now = before.push(shown);
                    assert(kept@ == now);
                    assert(now.drop_last() =~= before);
                    assert(distinct_nodes(now)) by {
                        assert forall|a: int, b: int| 0 <= a < b < now.len() implies (
                        #[trigger] now[a]).dev_id@ != (#[trigger] now[b]).dev_id@ by {
                            assert(before[a].dev_id@ != shown.dev_id@);
                        }
                    }
                }
                self.nodes = kept;
                true
            },
        }
    }

    /// Takes in a message that a node at `ip` sent. The result says whether a
    /// new node has become known by it.
    pub fn receive(&mut self, message: NodeMessage, ip: String, timestamp: i64) -> (res: bool)
        ensures
            receives(old(self)@, final(self)@, message, ip@, timestamp as int, res),
    {
        match message {
            NodeMessage::RequestMessage(RequestMessageType::NewNodeMessage(info)) => self.register(
                info,
                ip,
                timestamp,
            ),
            _ => false,
        }
    }

    /// Whether the time since each node was heard of can be told.
    pub fn ages_fit(&self, now: i64) -> (res: bool)
        ensures
            res <==> forall|id: Seq<char>| #[trigger]
                self@.contains_key(id) ==> self@[id].age_fits(now as int),
    {
        proof {
            use_type_invariant(self);
            lemma_node_map(self.nodes@);
        }
        let mut i: usize = 0;
        while i < self.nodes.len()
            invariant
                i <= self.nodes.len(),
                distinct_nodes(self.nodes@),
                forall|j: int| 0 <= j < i ==> (#[trigger] self.nodes@[j]).age_fits(now as int),
            decreases self.nodes.len() - i,
        {
            let age: i128 = now as i128 - self.nodes[i].last_heard() as i128;
            if age < i64::MIN as i128 || age > i64::MAX as i128 {
                proof {
                    lemma_node_map(self.nodes@);
                    assert(self@.contains_key(self.nodes@[i as int].dev_id@));
                }
                return false;
            }
            i += 1;
        }
        assert forall|id: Seq<char>| #[trigger] self@.contains_key(id) implies self@[id].age_fits(
            now as int,
        ) by {
            let j = choose|j: int|
                0 <= j < self.nodes@.len() && (#[trigger] self.nodes@[j]).dev_id@ == id;
            assert(self@[self.nodes@[j].dev_id@] == self.nodes@[j]);
        }
        true
    }

    /// Forgets the nodes that were not heard of lately.
    pub fn expire(&mut self, now: i64)
        requires
            forall|id: Seq<char>| #[trigger]
                old(self)@.contains_key(id) ==> old(self)@[id].age_fits(now as int),
        ensures
            expires(old(self)@, final(self)@, now as int),
    {
        proof {
            use_type_invariant(&*self);
            lemma_node_map(self.nodes@);
            lemma_recent_nodes(self.nodes@, now as int);
        }
        let ghost before = self.nodes@;
        assert forall|j: int| 0 <= j < before.len() implies (#[trigger] before[j]).age_fits(
            now as int,
        ) by {
            assert(self@.contains_key(before[j].dev_id@));
        }
        let mut kept: Vec<NodeInfo> = Vec::new();
        let mut i: usize = 0;
        while i < self.nodes.len()
            invariant
                i <= self.nodes.len(),
                self.nodes@ == before,
                forall|j: int| 0 <= j < before.len() ==> (#[trigger] before[j]).age_fits(now as int),
                kept@ == recent_nodes(before.take(i as int), now as int),
            decreases self.nodes.len() - i,
        {
            let node = &self.nodes[i];
            assert(before.take(i + 1).drop_last() =~= before.take(i as int));
            assert(before[i as int].age_fits(now as int));
            if now - node.last_heard() < NODE_LIFETIME_SECS {
                kept.push(node.clone());
            }
            i += 1;
        }
        assert(before.take(i as int) =~= before);
        self.nodes = kept;
        proof {
            let after = self.nodes@;
            lemma_node_map(after);
            assert forall|id: Seq<char>| #[trigger]
                node_map(after).contains_key(id) <==> node_map(before).contains_key(id)
                    && node_map(before)[id].recent(now as int) by {
                if node_map(after).contains_key(id) {
                    let j = choose|j: int|
                        0 <= j < after.len() && (#[trigger] after[j]).dev_id@ == id;
                    assert(after.contains(after[j]));
                    assert(before.contains(after[j]));
                    let k = before.index_of(after[j]);
                    assert(node_map(before)[before[k].dev_id@] == before[k]);
                }
                if node_map(before).contains_key(id) && node_map(before)[id].recent(now as int) {
                    let k = choose|k: int|
                        0 <= k < before.len() && (#[trigger] before[k]).dev_id@ == id;
                    assert(node_map(before)[before[k].dev_id@] == before[k]);
                    assert(before.contains(before[k]));
                    assert(after.contains(before[k]));
                    let j = after.index_of(before[k]);
                    assert(node_map(after).contains_key(after[j].dev_id@));
                }
            }
            assert forall|id: Seq<char>| #[trigger] node_map(after).contains_key(id) implies node_map(
                after,
            )[id] == node_map(before)[id] by {
                let j = choose|j: int| 0 <= j < after.len() && (#[trigger] after[j]).dev_id@ == id;
                assert(after.contains(after[j]));
                assert(before.contains(after[j]));
                let k = before.index_of(after[j]);
                assert(node_map(before)[before[k].dev_id@] == before[k]);
                assert(node_map(after)[after[j].dev_id@] == after[j]);
            }
        }
    }
}

/// Those of the nodes that were heard of lately.
spec fn recent_nodes(nodes: Seq<NodeInfo>, now: int) -> Seq<NodeInfo>
    decreases nodes.len(),
{
    if nodes.len() == 0 {
        Seq::empty()
    } else if nodes.last().recent(now) {
        recent_nodes(nodes.drop_last(), now).push(nodes.last())
    } else {
        recent_nodes(nodes.drop_last(), now)
    }
}

proof fn lemma_recent_nodes(nodes: Seq<NodeInfo>, now: int)
    requires
        distinct_nodes(nodes),
    ensures
        distinct_nodes(recent_nodes(nodes, now)),
        recent_nodes(nodes, now).len() <= nodes.len(),
        forall|n: NodeInfo| #[trigger]
            recent_nodes(nodes, now).contains(n) <==> nodes.contains(n) && n.recent(now),
    decreases nodes.len(),
{
    if nodes.len() > 0 {
        let before = nodes.drop_last();
        let last = nodes.len() - 1;
        lemma_recent_nodes(before, now);
        let known = recent_nodes(before, now);
        let all = recent_nodes(nodes, now);
        assert forall|n: NodeInfo| #[trigger]
            all.contains(n) <==> nodes.contains(n) && n.recent(now) by {
            if all.contains(n) {
                let i = all.index_of(n);
                if i < known.len() {
                    assert(known[i] == n);
                    assert(known.contains(n));
                    assert(nodes[before.index_of(n)] == n);
                } else {
                    assert(nodes[last] == n);
                }
            }
            if nodes.contains(n) && n.recent(now) {
                let i = nodes.index_of(n);
                if i < last {
                    assert(before[i] == n);
                    assert(known.contains(n));
                    assert(all[known.index_of(n)] == n);
                } else {
                    assert(all[known.len() as int] == n);
                }
            }
        }
        if nodes.last().recent(now) {
            assert forall|a: int, b: int| 0 <= a < b < all.len() implies (#[trigger] all[a]).dev_id@
                != (#[trigger] all[b]).dev_id@ by {
                if b == known.len() {
                    assert(known[a] == all[a]);
                    assert(known.contains(all[a]));
                    let i = before.index_of(all[a]);
                    assert(nodes[i].dev_id@ != nodes[last].dev_id@);
                } else {
                    assert(known[a].dev_id@ != known[b].dev_id@);
                }
            }
        }
    } else {
        assert forall|n: NodeInfo| !(#[trigger] recent_nodes(nodes, now).contains(n)) by {}
        assert forall|n: NodeInfo| !(#[trigger] nodes.contains(n)) by {}
    }
}

/// A node is kept for two hours after it was heard of, and not longer.
pub proof fn law_node_lives_two_hours(
    info: NodeInfo,
    heard: NodeInfo,
    ip: Seq<char>,
    timestamp: i64,
    now: int,
)
    requires
        heard.heard_as(info, ip, timestamp as int),
    ensures
        heard.recent(now) <==> now - timestamp < NODE_LIFETIME_SECS,
{
    law_signed_decimal_reads_back(timestamp);
}

/// What a node receives over a connection.
#[derive(Clone, Copy, Debug, PartialEq, Eq, Structural)]
pub enum NodeRequest {
    /// Nothing.
    Closed,
    /// The other node asks for the program file.
    Update,
    /// A message.
    Message,
}

/// Whether some bytes start with the request for the program file.
pub open spec fn asks_for_update(data: Seq<u8>) -> bool {
    let magic = "EP_UPDATE_V1:REQUEST"@;
    magic.len() <= data.len() && forall|i: int|
        0 <= i < magic.len() ==> (#[trigger] data[i]) as u32 == magic[i] as u32
}

/// What some received bytes are.
pub open spec fn request_of(data: Seq<u8>) -> NodeRequest {
    if data.len() == 0 {
        NodeRequest::Closed
    } else if asks_for_update(data) {
        NodeRequest::Update
    } else {
        NodeRequest::Message
    }
}

/// What some received bytes are.
pub fn classify_request(data: &Vec<u8>) -> (res: NodeRequest)
    ensures
        res == request_of(data@),
{
    if data.len() == 0 {
        return NodeRequest::Closed;
    }
    let magic = chars_of("EP_UPDATE_V1:REQUEST");
    if magic.len() > data.len() {
        return NodeRequest::Message;
    }
    let mut i: usize = 0;
    while i < magic.len()
        invariant
            i <= magic.len() <= data.len(),
            data.len() > 0,
            magic@ == "EP_UPDATE_V1:REQUEST"@,
            forall|j: int| 0 <= j < i ==> (#[trigger] data@[j]) as u32 == magic@[j] as u32,
        decreases magic.len() - i,
    {
        if data[i] as u32 != magic[i] as u32 {
            return NodeRequest::Message;
        }
        i += 1;
    }
    NodeRequest::Update
}

/// An address of this machine.
#[derive(Clone, Copy, Debug, PartialEq, Eq, Structural)]
pub enum NodeAddress {
    /// The four numbers of a short address.
    V4(u8, u8, u8, u8),
    /// A long address.
    V6,
}

/// Whether an address is a short one that does not lead back to the machine itself.
pub open spec fn leads_elsewhere(address: NodeAddress) -> bool {
    match address {
        NodeAddress::V4(first, _, _, _) => first != 127,
        NodeAddress::V6 => false,
    }
}

/// Whether nodes use an address: a short one that does not lead back to the
/// machine itself.
pub fn is_usable_address(address: NodeAddress) -> (res: bool)
    ensures
        res == leads_elsewhere(address),
{
    match address {
        NodeAddress::V4(first, _, _, _) => first != 127,
        NodeAddress::V6 => false,
    }
}

/// Whether a node that was heard of is another one.
pub fn is_other_node(info: &NodeInfo, own_id: &String) -> (res: bool)
    ensures
        res == (info.dev_id@ != own_id@),
{
    !(info.dev_id == *own_id)
}

/// The numbers that a version consists of; none if a part is not a number.
pub open spec fn version_parts(pieces: Seq<Seq<char>>) -> Option<Seq<u32>>
    decreases pieces.len(),
{
    if pieces.len() == 0 {
        Some(Seq::empty())
    } else {
        match version_parts(pieces.drop_last()) {
            None => None,
            Some(parts) => match unsigned_read(pieces.last(), u32::MAX as nat) {
                Ok(n) => Some(parts.push(n as u32)),
                Err(_) => None,
            },
        }
    }
}

/// The numbers of a version, which points separate.
pub open spec fn version(s: Seq<char>) -> Option<Seq<u32>> {
    version_parts(split_on(s, '.'))
}

proof fn lemma_version_stays_none(pieces: Seq<Seq<char>>, k: int)
    requires
        0 <= k <= pieces.len(),
        version_parts(pieces.take(k)) is None,
    ensures
        version_parts(pieces) is None,
    decreases pieces.len(),
{
    if k < pieces.len() {
        assert(pieces.drop_last().take(k) =~= pieces.take(k));
        lemma_version_stays_none(pieces.drop_last(), k);
    } else {
        assert(pieces.take(k) =~= pieces);
    }
}

/// The numbers of a version.
pub fn parse_version_parts(text: &str) -> (res: Option<Vec<u32>>)
    ensures
        match res {
            Some(parts) => version(text@) == Some(parts@),
            None => version(text@) is None,
        },
{
    let pieces = split_at_char(&chars_of(text), '.');
    let ghost all = views(pieces@);
    let mut parts: Vec<u32> = Vec::new();
    let mut i: usize = 0;
    assert(all.take(0) =~= Seq::<Seq<char>>::empty());
    while i < pieces.len()
        invariant
            i <= pieces.len(),
            all == views(pieces@),
            all == split_on(text@, '.'),
            version_parts(all.take(i as int)) == Some(parts@),
        decreases pieces.len() - i,
    {
        assert(all.take(i + 1).drop_last() =~= all.take(i as int));
        assert(all.take(i + 1).last() == pieces@[i as int]@);
        match parse_u32(&pieces[i]) {
            Ok(n) => {
                parts.push(n);
            },
            Err(_) => {
                proof {
                    lemma_version_stays_none(all, i + 1);
                }
                return None;
            },
        }
        i += 1;
    }
    assert(all.take(i as int) =~= all);
    Some(parts)
}

/// The order of two lists of numbers: the first difference decides, and a list
/// comes after its beginnings.
pub open spec fn list_order(a: Seq<u32>, b: Seq<u32>) -> Ordering
    decreases a.len(),
{
    if a.len() == 0 && b.len() == 0 {
        Ordering::Equal
    } else if a.len() == 0 {
        Ordering::Less
    } else if b.len() == 0 {
        Ordering::Greater
    } else if a[0] < b[0] {
        Ordering::Less
    } else if a[0] > b[0] {
        Ordering::Greater
    } else {
        list_order(a.skip(1), b.skip(1))
    }
}

/// The order of two versions; what is no version is taken for equal.
pub open spec fn version_order(a: Seq<char>, b: Seq<char>) -> Ordering {
    match (version(a), version(b)) {
        (Some(x), Some(y)) => list_order(x, y),
        _ => Ordering::Equal,
    }
}

/// The order of two lists of numbers.
fn order_lists(a: &Vec<u32>, b: &Vec<u32>) -> (res: Ordering)
    ensures
        res == list_order(a@, b@),
{
    let mut i: usize = 0;
    let ghost mut k: int = 0;
    assert(a@.skip(0) =~= a@);
    assert(b@.skip(0) =~= b@);
    while i < a.len() && i < b.len()
        invariant
            k == i,
            i <= a.len(),
            i <= b.len(),
            list_order(a@.skip(k), b@.skip(k)) == list_order(a@, b@),
        decreases a.len() - i,
    {
        if a[i] < b[i] {
            return Ordering::Less;
        }
        if a[i] > b[i] {
            return Ordering::Greater;
        }
        proof {
            assert(a@.skip(k).skip(1) =~= a@.skip(k + 1));
            assert(b@.skip(k).skip(1) =~= b@.skip(k + 1));
            k = k + 1;
        }
        i += 1;
    }
    if a.len() == b.len() {
        Ordering::Equal
    } else if a.len() < b.len() {
        Ordering::Less
    } else {
        Ordering::Greater
    }
}

/// The order of two versions.
pub fn compare_versions(a: &str, b: &str) -> (res: Ordering)
    ensures
        res == version_order(a@, b@),
{
    match (parse_version_parts(a), parse_version_parts(b)) {
        (Some(x), Some(y)) => order_lists(&x, &y),
        _ => Ordering::Equal,
    }
}

/// Whether a version is newer than the own one.
pub fn is_newer(theirs: &str, own: &str) -> (res: bool)
    ensures
        res == (version_order(theirs@, own@) == Ordering::Greater),
{
    match compare_versions(theirs, own) {
        Ordering::Greater => true,
        _ => false,
    }
}

/// The opposite order.
pub open spec fn reversed(o: Ordering) -> Ordering {
    match o {
        Ordering::Less => Ordering::Greater,
        Ordering::Equal => Ordering::Equal,
        Ordering::Greater => Ordering::Less,
    }
}

proof fn lemma_list_order_reversed(a: Seq<u32>, b: Seq<u32>)
    ensures
        list_order(a, b) == reversed(list_order(b, a)),
        list_order(a, b) == Ordering::Equal <==> a == b,
    decreases a.len(),
{
    if a.len() > 0 && b.len() > 0 && a[0] == b[0] {
        lemma_list_order_reversed(a.skip(1), b.skip(1));
        if a.skip(1) == b.skip(1) {
            assert(a =~= seq![a[0]] + a.skip(1));
            assert(b =~= seq![b[0]] + b.skip(1));
        }
    } else if a.len() == 0 && b.len() == 0 {
        assert(a =~= b);
    }
}

proof fn lemma_list_order_chains(a: Seq<u32>, b: Seq<u32>, c: Seq<u32>)
    requires
        list_order(a, b) == Ordering::Greater,
        list_order(b, c) == Ordering::Greater,
    ensures
        list_order(a, c) == Ordering::Greater,
    decreases a.len(),
{
    if a.len() > 0 && b.len() > 0 && c.len() > 0 && a[0] == b[0] && b[0] == c[0] {
        lemma_list_order_chains(a.skip(1), b.skip(1), c.skip(1));
    }
}

/// Swapping two versions reverses their order, and versions are equal exactly if
/// their numbers are.
pub proof fn law_version_order_reverses(a: Seq<char>, b: Seq<char>)
    ensures
        version_order(a, b) == reversed(version_order(b, a)),
        version(a) is Some && version(b) is Some ==> (version_order(a, b) == Ordering::Equal
            <==> version(a) == version(b)),
{
    if version(a) is Some && version(b) is Some {
        lemma_list_order_reversed(version(a)->0, version(b)->0);
    }
}

/// A version that is newer than a newer one is newer.
pub proof fn law_version_order_chains(a: Seq<char>, b: Seq<char>, c: Seq<char>)
    requires
        version_order(a, b) == Ordering::Greater,
        version_order(b, c) == Ordering::Greater,
    ensures
        version_order(a, c) == Ordering::Greater,
{
    lemma_list_order_chains(version(a)->0, version(b)->0, version(c)->0);
}

/// No version is newer than itself: a node never offers what is there already.
pub proof fn law_version_is_not_newer_than_itself(a: Seq<char>)
    ensures
        version_order(a, a) == Ordering::Equal,
{
    if version(a) is Some {
        lemma_list_order_reversed(version(a)->0, version(a)->0);
    }
}

/// The SHA-256 digest of some bytes.
pub uninterp spec fn sha256(data: Seq<u8>) -> Seq<u8>;

/// `Sha256::digest` of the crate `sha2`. The result is claimed to depend on the
/// bytes alone and to be 32 bytes long.
#[verifier::external_body]
fn digest(data: &Vec<u8>) -> (res: Vec<u8>)
    ensures
        res@ == sha256(data@),
        res@.len() == 32,
{
    <sha2::Sha256 as sha2::Digest>::digest(data).to_vec()
}

/// A hexadecimal digit.
pub open spec fn hex_digit(d: int) -> char {
    if d < 10 {
        ('0' as int + d) as char
    } else {
        ('a' as int + (d - 10)) as char
    }
}

/// Some bytes, each as two hexadecimal digits.
pub open spec fn hex_text(bytes: Seq<u8>) -> Seq<char>
    decreases bytes.len(),
{
    if bytes.len() == 0 {
        Seq::empty()
    } else {
        hex_text(bytes.drop_last()) + seq![
            hex_digit(bytes.last() as int / 16),
            hex_digit(bytes.last() as int % 16),
        ]
    }
}

/// A hexadecimal digit.
fn to_hex_digit(d: u8) -> (res: char)
    requires
        d < 16,
    ensures
        res == hex_digit(d as int),
{
    if d < 10 {
        (48 + d) as char
    } else {
        (87 + d) as char
    }
}

/// Some bytes, each as two hexadecimal digits.
pub fn hex(bytes: &Vec<u8>) -> (res: String)
    ensures
        res@ == hex_text(bytes@),
{
    let mut out = String::new();
    let mut i: usize = 0;
    assert(bytes@.take(0) =~= Seq::<u8>::empty());
    assert(out@ =~= hex_text(bytes@.take(0)));
    while i < bytes.len()
        invariant
            i <= bytes.len(),
            out@ == hex_text(bytes@.take(i as int)),
        decreases bytes.len() - i,
    {
        let ghost before = out@;
        assert(bytes@.take(i + 1).drop_last() =~= bytes@.take(i as int));
        out.push(to_hex_digit(bytes[i] / 16));
        out.push(to_hex_digit(bytes[i] % 16));
        assert(out@ =~= hex_text(bytes@.take(i + 1)));
        i += 1;
    }
    assert(bytes@.take(i as int) =~= bytes@);
    out
}

/// The SHA-256 digest of some bytes in hexadecimal digits.
pub fn calculate_sha256(data: &Vec<u8>) -> (res: String)
    ensures
        res@ == hex_text(sha256(data@)),
        res@.len() == 64,
{
    let bytes = digest(data);
    proof {
        law_hex_doubles_length(bytes@);
    }
    hex(&bytes)
}

/// Hexadecimal text is twice as long as the bytes.
pub proof fn law_hex_doubles_length(bytes: Seq<u8>)
    ensures
        hex_text(bytes).len() == 2 * bytes.len(),
    decreases bytes.len(),
{
    if bytes.len() > 0 {
        law_hex_doubles_length(bytes.drop_last());
    }
}

/// Hexadecimal text tells different bytes apart.
pub proof fn law_hex_is_injective(a: Seq<u8>, b: Seq<u8>)
    requires
        hex_text(a) == hex_text(b),
    ensures
        a == b,
    decreases a.len(),
{
    law_hex_doubles_length(a);
    law_hex_doubles_length(b);
    if a.len() > 0 {
        let (x, y) = (a.last() as int, b.last() as int);
        let (ha, hb) = (hex_text(a.drop_last()), hex_text(b.drop_last()));
        law_hex_doubles_length(a.drop_last());
        law_hex_doubles_length(b.drop_last());
        let n = ha.len() as int;
        assert(hex_text(a)[n] == hex_digit(x / 16) && hex_text(a)[n + 1] == hex_digit(x % 16));
        assert(hex_text(b)[n] == hex_digit(y / 16) && hex_text(b)[n + 1] == hex_digit(y % 16));
        assert(hex_text(a).take(n) =~= ha);
        assert(hex_text(b).take(n) =~= hb);
        law_hex_is_injective(a.drop_last(), b.drop_last());
        lemma_hex_digit_injective(x / 16, y / 16);
        lemma_hex_digit_injective(x % 16, y % 16);
        assert(a.last() == b.last());
        assert(a =~= a.drop_last().push(a.last()));
        assert(b =~= b.drop_last().push(b.last()));
    } else {
        assert(a =~= b);
    }
}

proof fn lemma_hex_digit_injective(d: int, e: int)
    requires
        0 <= d < 16,
        0 <= e < 16,
        hex_digit(d) == hex_digit(e),
    ensures
        d == e,
{
}

/// Whether a package holds a program file: its version, its bytes, how many they
/// are, and their digest in hexadecimal digits.
pub open spec fn is_package(package: UpdateDate, version: Seq<char>, data: Seq<u8>) -> bool {
    &&& package.version@ == version
    &&& package.file_data@ == data
    &&& package.file_size == data.len()
    &&& package.sha256_hash@ == hex_text(sha256(data))
}

/// The program file as a node sends it.
pub fn update_package(version: String, file_data: Vec<u8>) -> (res: UpdateDate)
    ensures
        res.version == version,
        res.file_data == file_data,
        is_package(res, version@, file_data@),
{
    let sha256_hash = calculate_sha256(&file_data);
    let file_size: u64 = file_data.len() as u64;
    UpdateDate { version, file_data, file_size, sha256_hash }
}

/// Whether a character is a hexadecimal digit in lower case.
pub open spec fn is_hex_digit(c: char) -> bool {
    '0' <= c <= '9' || 'a' <= c <= 'f'
}

/// Whether a text is a random UUID with hyphens, in lower case.
pub open spec fn is_uuid_v4(s: Seq<char>) -> bool {
    &&& s.len() == 36
    &&& forall|i: int|
        0 <= i < 36 ==> if i == 8 || i == 13 || i == 18 || i == 23 {
            #[trigger] s[i] == '-'
        } else {
            is_hex_digit(s[i])
        }
    &&& s[14] == '4'
    &&& s[19] == '8' || s[19] == '9' || s[19] == 'a' || s[19] == 'b'
}

/// `Uuid::new_v4` of the crate `uuid` as text: some random UUID.
#[verifier::external_body]
fn random_uuid() -> (res: String)
    ensures
        is_uuid_v4(res@),
{
    uuid::Uuid::new_v4().to_string()
}

/// The setting that holds the number of this device.
pub fn uuid_key() -> (res: String)
    ensures
        res@ == "app_uuid"@,
{
    "app_uuid".to_string()
}

/// The number of this device, and whether it has to be stored.
#[derive(Debug)]
pub struct DeviceId {
    pub uuid: String,
    pub is_new: bool,
}

/// Whether `id` is the number of this device: the stored one, or else a new one.
pub open spec fn is_device_id(id: DeviceId, stored: Option<String>) -> bool {
    match stored {
        Some(uuid) => id.uuid == uuid && !id.is_new,
        None => is_uuid_v4(id.uuid@) && id.is_new,
    }
}

/// The number of this device: the stored one, or else a random one.
pub fn get_or_init_uuid(stored: Option<String>) -> (res: DeviceId)
    ensures
        is_device_id(res, stored),
{
    match stored {
        Some(uuid) => DeviceId { uuid, is_new: false },
        None => DeviceId { uuid: random_uuid(), is_new: true },
    }
}

/// Whether one of the arguments says that the program was started by an update.
pub open spec fn tells_of_update(args: Seq<String>) -> bool {
    exists|i: int| 0 <= i < args.len() && (#[trigger] args[i])@ == "--post-update"@
}

/// Whether the arguments say that the program was started by an update.
pub fn started_by_update(args: &Vec<String>) -> (res: bool)
    ensures
        res == tells_of_update(args@),
{
    let flag = "--post-update".to_string();
    let mut i: usize = 0;
    while i < args.len()
        invariant
            i <= args.len(),
            flag@ == "--post-update"@,
            forall|j: int| 0 <= j < i ==> (#[trigger] args@[j])@ != "--post-update"@,
        decreases args.len() - i,
    {
        if args[i] == flag {
            return true;
        }
        i += 1;
    }
    false
}

/// A version as it is written: numbers with points between them.
pub open spec fn written_version(parts: Seq<u32>) -> Seq<char>
    decreases parts.len(),
{
    if parts.len() == 0 {
        Seq::empty()
    } else if parts.len() == 1 {
        decimal(parts[0] as nat)
    } else {
        written_version(parts.drop_last()) + seq!['.'] + decimal(parts.last() as nat)
    }
}

proof fn lemma_no_point(n: nat)
    ensures
        !decimal(n).contains('.'),
    decreases n,
{
    let d = n % 10;
    law_decimal_is_written_in_order(n / 10, d);
    if n >= 10 {
        assert(n == 10 * (n / 10) + d);
        lemma_no_point(n / 10);
        let t = decimal(n / 10);
        assert forall|i: int| 0 <= i < decimal(n).len() implies decimal(n)[i] != '.' by {
            if i < t.len() {
                assert(decimal(n)[i] == t[i]);
                assert(t.contains(t[i]));
            } else {
                assert(decimal(n)[i] == decimal(d)[0]);
            }
        }
    }
}

/// A version reads back as the numbers that it was written with, however many.
pub proof fn law_version_reads_back(parts: Seq<u32>)
    requires
        parts.len() > 0,
    ensures
        version(written_version(parts)) == Some(parts),
{
    lemma_version_pieces(parts);
    lemma_version_of_pieces(split_on(written_version(parts), '.'), parts);
}

proof fn lemma_version_pieces(parts: Seq<u32>)
    requires
        parts.len() > 0,
    ensures
        split_on(written_version(parts), '.') == parts.map_values(|n: u32| decimal(n as nat)),
    decreases parts.len(),
{
    let texts = parts.map_values(|n: u32| decimal(n as nat));
    lemma_no_point(parts.last() as nat);
    if parts.len() == 1 {
        lemma_split_whole(decimal(parts[0] as nat), '.');
        assert(texts =~= seq![decimal(parts[0] as nat)]);
    } else {
        let fewer = parts.drop_last();
        lemma_version_pieces(fewer);
        let head = written_version(fewer);
        let last = decimal(parts.last() as nat);
        lemma_split_joined(head, '.', last);
        assert(head + seq!['.'] + last =~= head.push('.') + last);
        assert(texts =~= fewer.map_values(|n: u32| decimal(n as nat)).push(last));
    }
}

proof fn lemma_version_of_pieces(pieces: Seq<Seq<char>>, parts: Seq<u32>)
    requires
        pieces == parts.map_values(|n: u32| decimal(n as nat)),
    ensures
        version_parts(pieces) == Some(parts),
    decreases parts.len(),
{
    if parts.len() > 0 {
        let fewer = parts.drop_last();
        assert(pieces.drop_last() =~= fewer.map_values(|n: u32| decimal(n as nat)));
        lemma_version_of_pieces(pieces.drop_last(), fewer);
        law_decimal_reads_back(parts.last() as nat, u32::MAX as nat);
        assert(fewer.push(parts.last()) =~= parts);
    } else {
        assert(parts =~= Seq::<u32>::empty());
    }
}

/// A text with a part that is no number is no version, and has no order.
pub proof fn law_wrong_version_has_no_order(a: Seq<char>, b: Seq<char>, k: int)
    requires
        0 <= k < split_on(a, '.').len(),
        unsigned_read(split_on(a, '.')[k], 0xffff_ffff) is Err,
    ensures
        version(a) is None,
        version_order(a, b) == Ordering::Equal,
        version_order(b, a) == Ordering::Equal,
{
    let pieces = split_on(a, '.');
    assert(pieces.take(k + 1).last() == pieces[k]);
    lemma_version_stays_none(pieces, k + 1);
}

/// The first number in which two versions differ decides which one is newer.
pub proof fn law_first_difference_decides(a: Seq<u32>, b: Seq<u32>, k: int)
    requires
        0 <= k < a.len(),
        k < b.len(),
        a.take(k) == b.take(k),
        a[k] != b[k],
    ensures
        version_order(written_version(a), written_version(b)) == (if a[k] < b[k] {
            Ordering::Less
        } else {
            Ordering::Greater
        }),
{
    law_version_reads_back(a);
    law_version_reads_back(b);
    lemma_first_difference(a, b, k);
}

proof fn lemma_first_difference(a: Seq<u32>, b: Seq<u32>, k: int)
    requires
        0 <= k < a.len(),
        k < b.len(),
        a.take(k) == b.take(k),
        a[k] != b[k],
    ensures
        list_order(a, b) == (if a[k] < b[k] {
            Ordering::Less
        } else {
            Ordering::Greater
        }),
    decreases k,
{
    if k > 0 {
        assert(a.take(k)[0] == a[0] && b.take(k)[0] == b[0]);
        assert(a.skip(1).take(k - 1) =~= a.take(k).skip(1));
        assert(b.skip(1).take(k - 1) =~= b.take(k).skip(1));
        lemma_first_difference(a.skip(1), b.skip(1), k - 1);
    }
}

/// A version with further numbers is newer than one without them.
pub proof fn law_longer_version_is_newer(a: Seq<u32>, more: Seq<u32>)
    requires
        a.len() > 0,
        more.len() > 0,
    ensures
        version_order(written_version(a + more), written_version(a)) == Ordering::Greater,
{
    law_version_reads_back(a);
    law_version_reads_back(a + more);
    lemma_longer_list(a, more);
}

proof fn lemma_longer_list(a: Seq<u32>, more: Seq<u32>)
    requires
        more.len() > 0,
    ensures
        list_order(a + more, a) == Ordering::Greater,
    decreases a.len(),
{
    if a.len() > 0 {
        assert((a + more).skip(1) =~= a.skip(1) + more);
        lemma_longer_list(a.skip(1), more);
    }
}

/// A node is remembered as it made itself known, but for the address that it was
/// heard from and the time.
pub proof fn law_node_is_remembered_as_it_was_heard(
    info: NodeInfo,
    heard: NodeInfo,
    ip: Seq<char>,
    timestamp: i64,
)
    requires
        heard.heard_as(info, ip, timestamp as int),
    ensures
        heard.dev_id@ == info.dev_id@,
        heard.ip@ == ip,
        heard.port == info.port,
        heard.version@ == info.version@,
        heard.last_update() == timestamp,
{
    law_signed_decimal_reads_back(timestamp);
}

/// A node is forgotten after seven thousand two hundred seconds; one whose time
/// cannot be told counts as heard of at time zero.
pub proof fn law_node_is_forgotten_after_two_hours(info: NodeInfo, now: int)
    ensures
        info.recent(now) <==> now - info.last_update() < 7200,
        signed_read(info.update_time@) is Err ==> info.last_update() == 0,
        signed_read(info.update_time@) matches Ok(t) ==> info.last_update() == t,
        info.age_fits(now) <==> -0x8000_0000_0000_0000 <= now - info.last_update()
            <= 0x7fff_ffff_ffff_ffff,
        NODE_CAPACITY == 1000,
        NODE_PORT == 56311,
{
}

/// Nodes are known by their device numbers: where no two are the same, each number
/// leads to its node and no other number leads anywhere.
pub proof fn law_nodes_are_known_by_their_numbers(nodes: Seq<NodeInfo>, i: int, id: Seq<char>)
    requires
        distinct_nodes(nodes),
    ensures
        0 <= i < nodes.len() ==> node_map(nodes).contains_key(nodes[i].dev_id@) && node_map(
            nodes,
        )[nodes[i].dev_id@] == nodes[i],
        (forall|j: int| 0 <= j < nodes.len() ==> (#[trigger] nodes[j]).dev_id@ != id)
            ==> !node_map(nodes).contains_key(id),
        node_map(nodes).len() == nodes.len(),
{
    lemma_node_map(nodes);
}

/// The program file is asked for by bytes that start with the request, whatever
/// follows, and by no others.
pub proof fn law_update_is_asked_for_by_its_request(data: Seq<u8>)
    ensures
        asks_for_update(data) <==> data.len() >= "EP_UPDATE_V1:REQUEST"@.len() && forall|i: int|
            0 <= i < "EP_UPDATE_V1:REQUEST"@.len() ==> (#[trigger] data[i]) as int
                == "EP_UPDATE_V1:REQUEST"@[i] as int,
        asks_for_update(data) ==> data.len() >= 20,
{
    reveal_strlit("EP_UPDATE_V1:REQUEST");
    let magic = "EP_UPDATE_V1:REQUEST"@;
    if asks_for_update(data) {
        assert forall|i: int| 0 <= i < magic.len() implies (#[trigger] data[i]) as int
            == magic[i] as int by {
            assert(data[i] as u32 == magic[i] as u32);
        }
    }
}

/// The two digits of each byte stand in its place, the higher one first.
pub proof fn law_each_byte_has_its_digits(bytes: Seq<u8>, i: int)
    requires
        0 <= i < bytes.len(),
    ensures
        hex_text(bytes).len() == 2 * bytes.len(),
        hex_text(bytes)[2 * i] == "0123456789abcdef"@[bytes[i] as int / 16],
        hex_text(bytes)[2 * i + 1] == "0123456789abcdef"@[bytes[i] as int % 16],
    decreases bytes.len(),
{
    reveal_strlit("0123456789abcdef");
    law_hex_doubles_length(bytes);
    let before = bytes.drop_last();
    law_hex_doubles_length(before);
    if i < before.len() {
        law_each_byte_has_its_digits(before, i);
        assert(hex_text(bytes)[2 * i] == hex_text(before)[2 * i]);
        assert(hex_text(bytes)[2 * i + 1] == hex_text(before)[2 * i + 1]);
    } else {
        let b = bytes[i] as int;
        assert(hex_text(bytes)[2 * i] == hex_digit(b / 16));
        assert(hex_text(bytes)[2 * i + 1] == hex_digit(b % 16));
        lemma_hex_digit_listed(b / 16);
        lemma_hex_digit_listed(b % 16);
    }
}

proof fn lemma_hex_digit_listed(d: int)
    requires
        0 <= d < 16,
    ensures
        hex_digit(d) == "0123456789abcdef"@[d],
{
    reveal_strlit("0123456789abcdef");
}

/// A node that makes itself known while there is room is known from then on, by its
/// number and as it was heard; it is new exactly if its number was not known. No
/// other node is touched. Where a thousand are known nothing changes.
pub proof fn law_node_that_is_heard_is_known(
    before: Map<Seq<char>, NodeInfo>,
    after: Map<Seq<char>, NodeInfo>,
    info: NodeInfo,
    ip: Seq<char>,
    timestamp: i64,
    res: bool,
    other: Seq<char>,
)
    requires
        receives(
            before,
            after,
            NodeMessage::RequestMessage(RequestMessageType::NewNodeMessage(info)),
            ip,
            timestamp as int,
            res,
        ),
    ensures
        before.len() >= 1000 ==> !res && after == before,
        before.len() < 1000 ==> {
            let heard = after[info.dev_id@];
            &&& res == !before.contains_key(info.dev_id@)
            &&& after.contains_key(info.dev_id@)
            &&& heard.dev_id@ == info.dev_id@
            &&& heard.ip@ == ip
            &&& heard.port == info.port
            &&& heard.version@ == info.version@
            &&& heard.last_update() == timestamp
        },
        other != info.dev_id@ ==> after.contains_key(other) == before.contains_key(other) && (
        before.contains_key(other) ==> after[other] == before[other]),
{
    law_signed_decimal_reads_back(timestamp);
}

/// A message that does not make a node known changes nothing.
pub proof fn law_other_messages_change_nothing(
    before: Map<Seq<char>, NodeInfo>,
    after: Map<Seq<char>, NodeInfo>,
    message: NodeMessage,
    ip: Seq<char>,
    timestamp: int,
    res: bool,
)
    requires
        receives(before, after, message, ip, timestamp, res),
        !(message is RequestMessage && message->RequestMessage_0 is NewNodeMessage),
    ensures
        after == before,
        !res,
{
}

/// A node that was heard of is still known less than two hours later, and no longer
/// after that; what is known of it does not change by that.
pub proof fn law_heard_node_expires(
    before: Map<Seq<char>, NodeInfo>,
    between: Map<Seq<char>, NodeInfo>,
    after: Map<Seq<char>, NodeInfo>,
    info: NodeInfo,
    ip: Seq<char>,
    timestamp: i64,
    res: bool,
    now: int,
)
    requires
        before.len() < 1000,
        registers(before, between, info, ip, timestamp as int, res),
        expires(between, after, now),
    ensures
        after.contains_key(info.dev_id@) <==> now - timestamp < 7200,
        after.contains_key(info.dev_id@) ==> after[info.dev_id@] == between[info.dev_id@],
{
    law_signed_decimal_reads_back(timestamp);
    assert(between.contains_key(info.dev_id@));
}

/// Forgetting takes away the nodes that were last heard of two hours ago or earlier,
/// and leaves the others as they are.
pub proof fn law_only_old_nodes_are_forgotten(
    before: Map<Seq<char>, NodeInfo>,
    after: Map<Seq<char>, NodeInfo>,
    now: int,
    id: Seq<char>,
)
    requires
        expires(before, after, now),
    ensures
        after.contains_key(id) <==> before.contains_key(id) && now - before[id].last_update()
            < 7200,
        after.contains_key(id) ==> after[id] == before[id],
{
}

/// A connection without bytes is closed; bytes that start with the request ask for
/// the program file, and any other bytes are a message.
pub proof fn law_request_is_told_by_its_first_bytes(data: Seq<u8>)
    ensures
        request_of(data) == NodeRequest::Closed <==> data.len() == 0,
        request_of(data) == NodeRequest::Update <==> data.len() >= "EP_UPDATE_V1:REQUEST"@.len()
            && forall|i: int|
            0 <= i < "EP_UPDATE_V1:REQUEST"@.len() ==> (#[trigger] data[i]) as int
                == "EP_UPDATE_V1:REQUEST"@[i] as int,
{
    law_update_is_asked_for_by_its_request(data);
}

/// Nodes use every short address but those of the machine itself, and no long one.
pub proof fn law_only_own_addresses_are_left_out(a: u8, b: u8, c: u8, d: u8)
    ensures
        leads_elsewhere(NodeAddress::V4(a, b, c, d)) <==> a != 127,
        !leads_elsewhere(NodeAddress::V6),
{
}

/// What a node sends of its program file can be checked by who receives it: the
/// bytes are those of the file, as many as is said, and the digest is theirs.
pub proof fn law_package_can_be_checked(package: UpdateDate, version: Seq<char>, data: Seq<u8>)
    requires
        is_package(package, version, data),
    ensures
        package.version@ == version,
        package.file_data@ == data,
        package.file_size == package.file_data@.len(),
        package.sha256_hash@ == hex_text(sha256(package.file_data@)),
{
}

/// A start by an update is told by the argument wherever it stands among the others.
pub proof fn law_update_is_told_by_an_argument(args: Seq<String>, arg: String)
    ensures
        tells_of_update(args) ==> tells_of_update(args.push(arg)),
        arg@ == "--post-update"@ ==> tells_of_update(args.push(arg)),
        arg@ != "--post-update"@ && tells_of_update(args.push(arg)) ==> tells_of_update(args),
        !tells_of_update(Seq::empty()),
{
    let more = args.push(arg);
    if tells_of_update(args) {
        let i = choose|i: int| 0 <= i < args.len() && (#[trigger] args[i])@ == "--post-update"@;
        assert(more[i]@ == "--post-update"@);
    }
    if arg@ == "--post-update"@ {
        assert(more[args.len() as int]@ == "--post-update"@);
    }
    if tells_of_update(more) {
        let i = choose|i: int| 0 <= i < more.len() && (#[trigger] more[i])@ == "--post-update"@;
        if i < args.len() {
            assert(args[i]@ == "--post-update"@);
        }
    }
}

/// A device keeps the number that was stored for it; only one without a number gets
/// a new one, which is to be stored.
pub proof fn law_device_keeps_its_number(id: DeviceId, stored: Option<String>)
    requires
        is_device_id(id, stored),
    ensures
        stored matches Some(uuid) ==> id.uuid@ == uuid@,
        id.is_new <==> stored is None,
        stored is None ==> id.uuid@.len() == 36 && id.uuid@[14] == '4',
{
}

} // verus!
