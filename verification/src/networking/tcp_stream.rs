//! The parties of a computation, the order in which they are connected to, and the channels to
//! them.
use crate::error::{Error, Result};
use crate::networking::connection::{RendezvousKey, SessionId};
use vstd::prelude::*;

verus! {

/// The name of a party.
#[derive(Debug, Clone, PartialEq, Eq)]
pub struct Identity {
    pub text: String,
}

/// A value on its way to another party.
#[derive(Debug, PartialEq, Eq)]
pub struct SendData<V> {
    pub value: V,
    pub receiver: Identity,
    pub rendezvous_key: RendezvousKey,
    pub session_id: SessionId,
}

/// Lexicographic order on bytes.
pub open spec fn bytes_less(a: Seq<u8>, b: Seq<u8>) -> bool
    decreases a.len(),
{
    if b.len() == 0 {
        false
    } else if a.len() == 0 {
        true
    } else {
        a[0] < b[0] || (a[0] == b[0] && bytes_less(a.drop_first(), b.drop_first()))
    }
}

/// The order of strings: that of their UTF-8 bytes.
pub open spec fn text_less(a: Seq<char>, b: Seq<char>) -> bool {
    bytes_less(vstd::utf8::encode_utf8(a), vstd::utf8::encode_utf8(b))
}

proof fn lemma_bytes_total(a: Seq<u8>, b: Seq<u8>)
    ensures
        bytes_less(a, b) || bytes_less(b, a) || a == b,
        !(bytes_less(a, b) && bytes_less(b, a)),
    decreases a.len(),
{
    if a.len() > 0 && b.len() > 0 {
        lemma_bytes_total(a.drop_first(), b.drop_first());
        if a[0] == b[0] && a.drop_first() == b.drop_first() {
            assert(a =~= seq![a[0]] + a.drop_first());
            assert(b =~= seq![b[0]] + b.drop_first());
        }
    } else if a.len() == 0 && b.len() == 0 {
        assert(a =~= b);
    }
}

proof fn lemma_bytes_transitive(a: Seq<u8>, b: Seq<u8>, c: Seq<u8>)
    requires
        bytes_less(a, b),
        bytes_less(b, c),
    ensures
        bytes_less(a, c),
    decreases a.len(),
{
    if a.len() > 0 && b.len() > 0 && c.len() > 0 {
        if a[0] == b[0] && b[0] == c[0] {
            lemma_bytes_transitive(a.drop_first(), b.drop_first(), c.drop_first());
        }
    }
}

proof fn lemma_text_total(a: Seq<char>, b: Seq<char>)
    ensures
        text_less(a, b) || text_less(b, a) || a == b,
        !(text_less(a, b) && text_less(b, a)),
        a == b ==> !text_less(a, b),
{
    lemma_bytes_total(vstd::utf8::encode_utf8(a), vstd::utf8::encode_utf8(b));
    vstd::utf8::encode_utf8_decode_utf8(a);
    vstd::utf8::encode_utf8_decode_utf8(b);
}

/// Whether one string comes before another.
fn text_before(a: &String, b: &String) -> (r: bool)
    ensures
        r == text_less(a@, b@),
{
    let x = a.as_str().as_bytes();
    let y = b.as_str().as_bytes();
    let mut i: usize = 0;
    assert(x@.skip(0) =~= x@);
    assert(y@.skip(0) =~= y@);
    while i < x.len() && i < y.len()
        invariant
            i <= x@.len(),
            i <= y@.len(),
            x@ == vstd::utf8::encode_utf8(a@),
            y@ == vstd::utf8::encode_utf8(b@),
            bytes_less(x@, y@) == bytes_less(x@.skip(i as int), y@.skip(i as int)),
        decreases x@.len() - i,
    {
        let ghost p = x@.skip(i as int);
        let ghost q = y@.skip(i as int);
        assert(p[0] == x@[i as int] && q[0] == y@[i as int]);
        if x[i] != y[i] {
            return x[i] < y[i];
        }
        i = i + 1;
        proof {
            assert(p.drop_first() =~= x@.skip(i as int));
            assert(q.drop_first() =~= y@.skip(i as int));
        }
    }
    i < y.len()
}

/// A host: the name of its placement, and its address.
pub type Host = (String, String);

/// Whether the hosts have names of their own.
pub open spec fn distinct_names(hosts: Seq<Host>) -> bool {
    forall|i: int, j: int|
        0 <= i < j < hosts.len() ==> (#[trigger] hosts[i]).0@ != (#[trigger] hosts[j]).0@
}

/// Whether one of the hosts has this name.
pub open spec fn has_name(hosts: Seq<Host>, name: Seq<char>) -> bool {
    exists|i: int| 0 <= i < hosts.len() && (#[trigger] hosts[i]).0@ == name
}

/// Whether a host is one of these.
pub open spec fn has_host(hosts: Seq<Host>, host: Host) -> bool {
    exists|i: int| 0 <= i < hosts.len() && #[trigger] hosts[i] == host
}

/// Whether the hosts stand in the order of their names.
pub open spec fn ordered(hosts: Seq<Host>) -> bool {
    forall|i: int, j: int|
        0 <= i < j < hosts.len() ==> text_less((#[trigger] hosts[i]).0@, (#[trigger] hosts[j]).0@)
}

/// Whether `peers` are the hosts other than the named one, in the order of their names.
pub open spec fn are_peers(hosts: Seq<Host>, own_name: Seq<char>, peers: Seq<Host>) -> bool {
    &&& ordered(peers)
    &&& forall|i: int|
        0 <= i < hosts.len() && hosts[i].0@ != own_name ==> has_host(peers, #[trigger] hosts[i])
    &&& forall|i: int|
        0 <= i < peers.len() ==> has_host(hosts, #[trigger] peers[i]) && peers[i].0@ != own_name
}

/// What is to be done next to connect to the other hosts.
#[derive(Debug, PartialEq, Eq)]
pub enum ConnectAction {
    /// Connect to the peer at this position.
    Connect { peer: usize },
    /// Wait that many seconds.
    Wait { seconds: u64 },
    /// All peers are connected.
    Done,
}

/// What came of the last action.
#[derive(Debug, PartialEq, Eq)]
pub enum ConnectEvent {
    /// Nothing was done yet.
    Started,
    /// The connection stands, and values for the peer go through it from now on.
    Connected,
    /// The peer did not answer.
    Refused,
    /// The time has passed.
    Waited,
}

/// How many seconds to wait before a peer that did not answer is tried again.
pub const RETRY_SECONDS: u64 = 1;

/// How many values may wait in the channel to a peer.
pub const CHANNEL_CAPACITY: usize = 100;

/// The network as one host sees it: its own name, all hosts, and the others in the order in which
/// they are connected to, with a channel to each of the first `connected`.
pub struct TcpStreamNetworking {
    own_name: String,
    hosts: Vec<Host>,
    peers: Vec<Host>,
    connected: usize,
}

impl TcpStreamNetworking {
    pub closed spec fn own_name(self) -> Seq<char> {
        self.own_name@
    }

    pub closed spec fn hosts(self) -> Seq<Host> {
        self.hosts@
    }

    /// The other hosts, in the order in which they are connected to.
    pub closed spec fn peers(self) -> Seq<Host> {
        self.peers@
    }

    /// How many peers have a channel.
    pub closed spec fn connected(self) -> nat {
        self.connected as nat
    }

    pub open spec fn wf(self) -> bool {
        &&& distinct_names(self.hosts())
        &&& are_peers(self.hosts(), self.own_name(), self.peers())
        &&& self.connected() <= self.peers().len()
    }

    /// Sets up the network of a host, with no connection made yet, and gives the address that the
    /// host listens at.
    pub fn new(own_name: &str, hosts: Vec<Host>) -> (r: Result<(Self, String)>)
        requires
            distinct_names(hosts@),
        ensures
            match r {
                Ok((net, own_address)) => {
                    &&& net.wf()
                    &&& net.own_name() == own_name@
                    &&& net.hosts() == hosts@
                    &&& net.connected() == 0
                    &&& exists|i: int|
                        0 <= i < hosts@.len() && (#[trigger] hosts@[i]).0@ == own_name@
                            && hosts@[i].1 == own_address
                },
                Err(e) => {
                    &&& !has_name(hosts@, own_name@)
                    &&& e matches Error::Networking(message) && message@
                        == "own host name not in hosts map"@
                },
            },
    {
        let own_name = own_name.to_string();
        let mut found: Option<usize> = None;
        let mut i: usize = 0;
        while i < hosts.len()
            invariant
                i <= hosts@.len(),
                match found {
                    Some(k) => k < hosts@.len() && hosts@[k as int].0@ == own_name@,
                    None => forall|k: int|
                        0 <= k < i ==> (#[trigger] hosts@[k]).0@ != own_name@,
                },
            decreases hosts@.len() - i,
        {
            if hosts[i].0 == own_name {
                found = Some(i);
            }
            i = i + 1;
        }
        match found {
            None => Err(Error::Networking("own host name not in hosts map".to_string())),
            Some(k) => {
                let own_address = hosts[k].1.clone();
                assert(hosts@[k as int].1 == own_address);
                let peers = Self::others(&own_name, &hosts);
                Ok((TcpStreamNetworking { own_name, hosts, peers, connected: 0 }, own_address))
            },
        }
    }

    /// The hosts other than the named one, in the order of their names.
    fn others(own_name: &String, hosts: &Vec<Host>) -> (peers: Vec<Host>)
        requires
            distinct_names(hosts@),
        ensures
            are_peers(hosts@, own_name@, peers@),
    {
        let mut peers: Vec<Host> = Vec::new();
        let mut i: usize = 0;
        while i < hosts.len()
            invariant
                i <= hosts@.len(),
                distinct_names(hosts@),
                are_peers(hosts@.take(i as int), own_name@, peers@),
            decreases hosts@.len() - i,
        {
            let ghost before = peers@;
            let ghost seen = hosts@.take(i as int);
            let ghost now = hosts@.take(i + 1);
            if !(hosts[i].0 == *own_name) {
                let ghost name = hosts@[i as int].0@;
                proof {
                    assert forall|k: int| 0 <= k < before.len() implies (#[trigger] before[k]).0@
                        != name by {
                        assert(has_host(seen, before[k]));
                        let j = choose|j: int| 0 <= j < seen.len() && #[trigger] seen[j]
                            == before[k];
                        assert(hosts@[j] == before[k]);
                    }
                }
                let mut at: usize = 0;
                while at < peers.len() && text_before(&peers[at].0, &hosts[i].0)
                    invariant
                        i < hosts@.len(),
                        name == hosts@[i as int].0@,
                        peers@ == before,
                        at <= before.len(),
                        ordered(before),
                        forall|k: int| 0 <= k < at ==> text_less((#[trigger] before[k]).0@, name),
                    decreases before.len() - at,
                {
                    at = at + 1;
                }
                let host = (hosts[i].0.clone(), hosts[i].1.clone());
                assert(host == hosts@[i as int]);
                peers.insert(at, host);
                proof {
                    assert(now =~= seen.push(host));
                    lemma_insert(before, host, at as int);
                    lemma_inserted(seen, now, own_name@, before, peers@, host, at as int);
                }
            } else {
                proof {
                    assert forall|k: int|
                        0 <= k < now.len() && now[k].0@ != own_name@ implies has_host(
                        peers@,
                        #[trigger] now[k],
                    ) by {
                        assert(now[k] == seen[k]);
                    }
                    assert forall|k: int| 0 <= k < peers@.len() implies has_host(
                        now,
                        #[trigger] peers@[k],
                    ) && peers@[k].0@ != own_name@ by {
                        assert(has_host(seen, peers@[k]));
                        let j = choose|j: int| 0 <= j < seen.len() && #[trigger] seen[j]
                            == peers@[k];
                        assert(now[j] == peers@[k]);
                    }
                }
            }
            i = i + 1;
        }
        assert(hosts@.take(i as int) =~= hosts@);
        peers
    }

    /// Takes in what came of the last action and says what to do next: a peer that does not answer
    /// is tried again after a while, and the next peer's turn comes once it is connected.
    pub fn step(&mut self, event: ConnectEvent) -> (action: ConnectAction)
        requires
            old(self).wf(),
            event is Connected ==> old(self).connected() < old(self).peers().len(),
        ensures
            final(self).wf(),
            final(self).own_name() == old(self).own_name(),
            final(self).hosts() == old(self).hosts(),
            final(self).peers() == old(self).peers(),
            final(self).connected() == old(self).connected() + (if event is Connected {
                1int
            } else {
                0
            }),
            action == (if event is Refused {
                ConnectAction::Wait { seconds: RETRY_SECONDS }
            } else if final(self).connected() < final(self).peers().len() {
                ConnectAction::Connect { peer: final(self).connected() as usize }
            } else {
                ConnectAction::Done
            }),
    {
        let count = self.peers.len();
        match event {
            ConnectEvent::Refused => return ConnectAction::Wait { seconds: RETRY_SECONDS },
            ConnectEvent::Connected => {
                self.connected = self.connected + 1;
            },
            _ => {},
        }
        if self.connected < count {
            ConnectAction::Connect { peer: self.connected }
        } else {
            ConnectAction::Done
        }
    }

    /// The name and the address of a peer.
    pub fn peer(&self, peer: usize) -> (r: &Host)
        requires
            peer < self.peers().len(),
        ensures
            *r == self.peers()[peer as int],
    {
        &self.peers[peer]
    }

    /// The channel to a party, if there is one.
    pub fn send_channel(&self, receiver: &Identity) -> (r: Option<usize>)
        requires
            self.wf(),
        ensures
            match r {
                Some(k) => k < self.connected() && self.peers()[k as int].0@ == receiver.text@,
                None => forall|k: int|
                    0 <= k < self.connected() ==> (#[trigger] self.peers()[k]).0@
                        != receiver.text@,
            },
    {
        let mut k: usize = 0;
        while k < self.connected
            invariant
                k <= self.connected,
                self.connected <= self.peers@.len(),
                forall|j: int|
                    0 <= j < k ==> (#[trigger] self.peers@[j]).0@ != receiver.text@,
            decreases self.connected - k,
        {
            if self.peers[k].0 == receiver.text {
                return Some(k);
            }
            k = k + 1;
        }
        None
    }

    /// The channel that a value for a party goes through, and what is put into it; `None` if there
    /// is no channel to the party.
    pub fn prepare_send<V>(
        &self,
        value: V,
        receiver: Identity,
        rendezvous_key: RendezvousKey,
        session_id: SessionId,
    ) -> (r: Option<(usize, SendData<V>)>)
        requires
            self.wf(),
        ensures
            match r {
                Some((k, data)) => {
                    &&& k < self.connected()
                    &&& self.peers()[k as int].0@ == receiver.text@
                    &&& data == (SendData { value, receiver, rendezvous_key, session_id })
                },
                None => forall|k: int|
                    0 <= k < self.connected() ==> (#[trigger] self.peers()[k]).0@
                        != receiver.text@,
            },
    {
        match self.send_channel(&receiver) {
            Some(k) => Some((k, SendData { value, receiver, rendezvous_key, session_id })),
            None => None,
        }
    }
}

/// Once all peers are connected, there is a channel to a party exactly if it is one of the hosts
/// and not the host itself.
pub proof fn law_channels_reach_all(net: TcpStreamNetworking, name: Seq<char>)
    requires
        net.wf(),
        net.connected() == net.peers().len(),
    ensures
        has_name(net.hosts(), name) && name != net.own_name() <==> exists|k: int|
            0 <= k < net.connected() && (#[trigger] net.peers()[k]).0@ == name,
{
    if has_name(net.hosts(), name) && name != net.own_name() {
        let i = choose|i: int|
            0 <= i < net.hosts().len() && (#[trigger] net.hosts()[i]).0@ == name;
        assert(has_host(net.peers(), net.hosts()[i]));
        let k = choose|k: int|
            0 <= k < net.peers().len() && #[trigger] net.peers()[k] == net.hosts()[i];
        assert(net.peers()[k].0@ == name);
    }
    if exists|k: int| 0 <= k < net.connected() && (#[trigger] net.peers()[k]).0@ == name {
        let k = choose|k: int|
            0 <= k < net.connected() && (#[trigger] net.peers()[k]).0@ == name;
        assert(has_host(net.hosts(), net.peers()[k]));
        let i = choose|i: int|
            0 <= i < net.hosts().len() && #[trigger] net.hosts()[i] == net.peers()[k];
        assert(net.hosts()[i].0@ == name);
    }
}

/// Whether two lists hold the same hosts.
pub open spec fn same_hosts(a: Seq<Host>, b: Seq<Host>) -> bool {
    &&& forall|i: int| 0 <= i < a.len() ==> has_host(b, #[trigger] a[i])
    &&& forall|i: int| 0 <= i < b.len() ==> has_host(a, #[trigger] b[i])
}

/// The order in which peers are connected to depends on which hosts there are alone, not on the
/// order in which they are listed.
pub proof fn law_peers_unique(
    hosts: Seq<Host>,
    listed_otherwise: Seq<Host>,
    own_name: Seq<char>,
    p: Seq<Host>,
    q: Seq<Host>,
)
    requires
        same_hosts(hosts, listed_otherwise),
        are_peers(hosts, own_name, p),
        are_peers(listed_otherwise, own_name, q),
    ensures
        p == q,
{
    lemma_peers_included(hosts, listed_otherwise, own_name, p, q);
    lemma_peers_included(listed_otherwise, hosts, own_name, q, p);
    lemma_ordered_prefix(p, q, p.len());
    lemma_ordered_prefix(q, p, q.len());
    assert(p =~= q);
}

proof fn lemma_peers_included(
    hosts: Seq<Host>,
    others: Seq<Host>,
    own_name: Seq<char>,
    p: Seq<Host>,
    q: Seq<Host>,
)
    requires
        same_hosts(hosts, others),
        are_peers(hosts, own_name, p),
        are_peers(others, own_name, q),
    ensures
        forall|i: int| 0 <= i < p.len() ==> has_host(q, #[trigger] p[i]),
{
    assert forall|i: int| 0 <= i < p.len() implies has_host(q, #[trigger] p[i]) by {
        assert(has_host(hosts, p[i]));
        let j = choose|j: int| 0 <= j < hosts.len() && #[trigger] hosts[j] == p[i];
        assert(has_host(others, hosts[j]));
        let k = choose|k: int| 0 <= k < others.len() && #[trigger] others[k] == p[i];
        assert(has_host(q, others[k]));
    }
}

/// Ordered lists of the same hosts agree from the start on.
proof fn lemma_ordered_prefix(p: Seq<Host>, q: Seq<Host>, n: nat)
    requires
        ordered(p),
        ordered(q),
        same_hosts(p, q),
        n <= p.len(),
    ensures
        n <= q.len(),
        forall|k: int| 0 <= k < n ==> #[trigger] p[k] == q[k],
    decreases n,
{
    if n > 0 {
        let m = n - 1;
        lemma_ordered_prefix(p, q, m as nat);
        assert(has_host(q, p[m]));
        let j = choose|j: int| 0 <= j < q.len() && #[trigger] q[j] == p[m];
        lemma_text_total(p[m].0@, p[m].0@);
        if j < m {
            assert(p[j] == q[j]);
        }
        assert(has_host(p, q[m]));
        let i = choose|i: int| 0 <= i < p.len() && #[trigger] p[i] == q[m];
        lemma_text_total(q[m].0@, q[m].0@);
        if i < m {
            assert(p[i] == q[i]);
        }
        lemma_text_total(p[m].0@, q[m].0@);
    }
}

proof fn lemma_insert(before: Seq<Host>, host: Host, at: int)
    requires
        ordered(before),
        0 <= at <= before.len(),
        forall|k: int| 0 <= k < before.len() ==> (#[trigger] before[k]).0@ != host.0@,
        forall|k: int| 0 <= k < at ==> text_less((#[trigger] before[k]).0@, host.0@),
        at < before.len() ==> !text_less(before[at].0@, host.0@),
    ensures
        ordered(before.insert(at, host)),
{
    let after = before.insert(at, host);
    assert forall|k: int| at <= k < before.len() implies text_less(
        host.0@,
        (#[trigger] before[k]).0@,
    ) by {
        lemma_text_total(before[at].0@, host.0@);
        if k > at {
            lemma_bytes_transitive(
                vstd::utf8::encode_utf8(host.0@),
                vstd::utf8::encode_utf8(before[at].0@),
                vstd::utf8::encode_utf8(before[k].0@),
            );
        }
    }
    assert forall|i: int, j: int| 0 <= i < j < after.len() implies text_less(
        (#[trigger] after[i]).0@,
        (#[trigger] after[j]).0@,
    ) by {
        if i < at {
            assert(after[i] == before[i]);
        } else if i > at {
            assert(after[i] == before[i - 1]);
        }
        if j < at {
            assert(after[j] == before[j]);
        } else if j > at {
            assert(after[j] == before[j - 1]);
        }
    }
}

proof fn lemma_inserted(
    seen: Seq<Host>,
    now: Seq<Host>,
    own_name: Seq<char>,
    before: Seq<Host>,
    after: Seq<Host>,
    host: Host,
    at: int,
)
    requires
        are_peers(seen, own_name, before),
        now == seen.push(host),
        host.0@ != own_name,
        0 <= at <= before.len(),
        after == before.insert(at, host),
        ordered(after),
    ensures
        are_peers(now, own_name, after),
{
    assert forall|k: int| 0 <= k < now.len() && now[k].0@ != own_name implies has_host(
        after,
        #[trigger] now[k],
    ) by {
        if k < seen.len() {
            assert(now[k] == seen[k]);
            assert(has_host(before, seen[k]));
            let j = choose|j: int| 0 <= j < before.len() && #[trigger] before[j] == seen[k];
            if j < at {
                assert(after[j] == seen[k]);
            } else {
                assert(after[j + 1] == seen[k]);
            }
        } else {
            assert(after[at] == host);
        }
    }
    assert forall|k: int| 0 <= k < after.len() implies has_host(now, #[trigger] after[k])
        && after[k].0@ != own_name by {
        if k == at {
            assert(now[seen.len() as int] == host);
        } else {
            let i = if k < at {
                k
            } else {
                k - 1
            };
            assert(after[k] == before[i]);
            assert(has_host(seen, before[i]));
            let j = choose|j: int| 0 <= j < seen.len() && #[trigger] seen[j] == before[i];
            assert(now[j] == after[k]);
        }
    }
}

/// Names are in the order of their bytes: at the first byte in which they differ the smaller one
/// decides, and a name comes before those that it is the beginning of.
pub proof fn law_name_order(a: Seq<char>, b: Seq<char>)
    ensures
        ({
            let x = vstd::utf8::encode_utf8(a);
            let y = vstd::utf8::encode_utf8(b);
            text_less(a, b) <==> exists|i: int|
                {
                    &&& 0 <= i <= x.len()
                    &&& i < y.len()
                    &&& #[trigger] x.take(i) == y.take(i)
                    &&& i == x.len() || x[i] < y[i]
                }
        }),
        text_less(a, b) || text_less(b, a) || a == b,
        !(text_less(a, b) && text_less(b, a)),
        !text_less(a, a),
{
    lemma_bytes_less(vstd::utf8::encode_utf8(a), vstd::utf8::encode_utf8(b));
    lemma_text_total(a, b);
    lemma_text_total(a, a);
}

proof fn lemma_bytes_less(x: Seq<u8>, y: Seq<u8>)
    ensures
        bytes_less(x, y) <==> exists|i: int|
            {
                &&& 0 <= i <= x.len()
                &&& i < y.len()
                &&& #[trigger] x.take(i) == y.take(i)
                &&& i == x.len() || x[i] < y[i]
            },
    decreases x.len(),
{
    if x.len() > 0 && y.len() > 0 {
        let p = x.drop_first();
        let q = y.drop_first();
        lemma_bytes_less(p, q);
        if bytes_less(x, y) {
            if x[0] < y[0] {
                assert(x.take(0) =~= y.take(0));
            } else {
                let i = choose|i: int|
                    {
                        &&& 0 <= i <= p.len()
                        &&& i < q.len()
                        &&& #[trigger] p.take(i) == q.take(i)
                        &&& i == p.len() || p[i] < q[i]
                    };
                assert(x.take(i + 1) =~= seq![x[0]] + p.take(i));
                assert(y.take(i + 1) =~= seq![y[0]] + q.take(i));
                assert(x.take(i + 1) == y.take(i + 1));
            }
        }
        if exists|i: int|
            {
                &&& 0 <= i <= x.len()
                &&& i < y.len()
                &&& #[trigger] x.take(i) == y.take(i)
                &&& i == x.len() || x[i] < y[i]
            } {
            let i = choose|i: int|
                {
                    &&& 0 <= i <= x.len()
                    &&& i < y.len()
                    &&& #[trigger] x.take(i) == y.take(i)
                    &&& i == x.len() || x[i] < y[i]
                };
            if i > 0 {
                assert(x.take(i)[0] == y.take(i)[0]);
                assert(p.take(i - 1) =~= x.take(i).drop_first());
                assert(q.take(i - 1) =~= y.take(i).drop_first());
                assert(p.take(i - 1) == q.take(i - 1));
                assert(bytes_less(p, q));
            }
        }
    } else if y.len() > 0 {
        assert(x.take(0) =~= y.take(0));
    }
}

/// The peers are the other hosts: each host of another name is at exactly one place among them, and
/// there is nobody else, in the order of the names.
pub proof fn law_peers_are_the_others(hosts: Seq<Host>, own_name: Seq<char>, peers: Seq<Host>)
    requires
        distinct_names(hosts),
        are_peers(hosts, own_name, peers),
    ensures
        forall|i: int|
            0 <= i < hosts.len() && (#[trigger] hosts[i]).0@ != own_name ==> exists|k: int|
                0 <= k < peers.len() && #[trigger] peers[k] == hosts[i],
        forall|k: int|
            0 <= k < peers.len() ==> (#[trigger] peers[k]).0@ != own_name && exists|i: int|
                0 <= i < hosts.len() && #[trigger] hosts[i] == peers[k],
        forall|j: int, k: int|
            0 <= j < k < peers.len() ==> (#[trigger] peers[j]).0@ != (#[trigger] peers[k]).0@,
        forall|j: int, k: int|
            0 <= j < k < peers.len() ==> text_less(
                (#[trigger] peers[j]).0@,
                (#[trigger] peers[k]).0@,
            ),
{
    assert forall|i: int|
        0 <= i < hosts.len() && (#[trigger] hosts[i]).0@ != own_name implies exists|k: int|
        0 <= k < peers.len() && #[trigger] peers[k] == hosts[i] by {
        assert(has_host(peers, hosts[i]));
    }
    assert forall|k: int| 0 <= k < peers.len() implies (#[trigger] peers[k]).0@ != own_name
        && exists|i: int| 0 <= i < hosts.len() && #[trigger] hosts[i] == peers[k] by {
        assert(has_host(hosts, peers[k]));
    }
    assert forall|j: int, k: int| 0 <= j < k < peers.len() implies (#[trigger] peers[j]).0@
        != (#[trigger] peers[k]).0@ by {
        lemma_text_total(peers[j].0@, peers[k].0@);
    }
}

/// What it is for hosts to have names of their own, for a name to be among them, and for a network
/// to be well formed.
pub proof fn law_host_names(hosts: Seq<Host>, name: Seq<char>, net: TcpStreamNetworking)
    ensures
        distinct_names(hosts) <==> forall|i: int, j: int|
            0 <= i < j < hosts.len() ==> (#[trigger] hosts[i]).0@ != (#[trigger] hosts[j]).0@,
        has_name(hosts, name) <==> exists|i: int|
            0 <= i < hosts.len() && (#[trigger] hosts[i]).0@ == name,
        net.wf() <==> distinct_names(net.hosts()) && are_peers(
            net.hosts(),
            net.own_name(),
            net.peers(),
        ) && net.connected() <= net.peers().len(),
{
}

} // verus!
