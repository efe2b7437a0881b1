//! The master's list of nodes.
//!
//! The master keeps the address of every node that has answered a ping. It
//! does not reach for the network itself: whoever owns the sockets pings an
//! address and brings back what happened, and the cluster judges it.

use vstd::prelude::*;

verus! {

/// What became of one ping.
#[derive(Debug)]
pub enum PingReply {
    /// No connection could be made. The text says why.
    Unreachable(String),
    /// The connection stood, but the ping could not be written. The text
    /// says why.
    Unsent(String),
    /// The ping went out and nothing came back.
    Silent,
    /// The ping went out, and this byte came back.
    Answered(u8),
}

/// The message for an address that no connection could be made to.
pub open spec fn connect_failure(addr: Seq<char>, reason: Seq<char>) -> Seq<char> {
    "Cannot connect to "@ + addr + " ("@ + reason + ")"@
}

/// The message for an address that the ping could not be written to.
pub open spec fn send_failure(addr: Seq<char>, reason: Seq<char>) -> Seq<char> {
    "Cannot ping "@ + addr + " ("@ + reason + ")"@
}

/// The message for an address that gave no answer, or the answer zero.
pub open spec fn receive_failure(addr: Seq<char>) -> Seq<char> {
    "Failure receiving message from address: "@ + addr
}

impl PingReply {
    /// The failure that this reply amounts to for the node at `addr`, or
    /// `None` where the node is alive: it is alive when it has answered with
    /// a byte other than zero.
    pub open spec fn failure(self, addr: Seq<char>) -> Option<Seq<char>> {
        match self {
            PingReply::Unreachable(reason) => Some(connect_failure(addr, reason@)),
            PingReply::Unsent(reason) => Some(send_failure(addr, reason@)),
            PingReply::Silent => Some(receive_failure(addr)),
            PingReply::Answered(byte) => if byte > 0 {
                None
            } else {
                Some(receive_failure(addr))
            },
        }
    }
}

/// The first `count` replies all come from nodes that are alive.
pub open spec fn alive_before(addrs: Seq<Seq<char>>, replies: Seq<PingReply>, count: int) -> bool {
    forall|i: int|
        0 <= i < count && i < addrs.len() && i < replies.len() ==> (#[trigger] replies[i]).failure(
            addrs[i],
        ) is None
}

/// How far a round of pings over all nodes has come.
#[derive(Debug)]
pub enum Sweep {
    /// Every reply so far is good, and the node with this index has not been
    /// pinged yet: ping it, and ask again with its reply added.
    Ping(usize),
    /// Every node is alive.
    Done,
    /// A node has failed. The text is the failure of the first that did.
    Failed(String),
}

/// The nodes that a master knows, in the order in which they were added.
#[derive(Debug)]
pub struct Cluster {
    addrs: Vec<String>,
}

impl View for Cluster {
    type V = Seq<Seq<char>>;

    closed spec fn view(&self) -> Seq<Seq<char>> {
        Seq::new(self.addrs@.len(), |i: int| self.addrs@[i]@)
    }
}

/// Builds "Cannot connect to ADDR (REASON)" and its like.
fn with_reason(head: &str, addr: &str, reason: &str) -> (text: String)
    ensures
        text@ == head@ + addr@ + " ("@ + reason@ + ")"@,
{
    let mut text = String::from_str(head);
    text.append(addr);
    text.append(" (");
    text.append(reason);
    text.append(")");
    text
}

impl Cluster {
    /// A cluster without nodes.
    pub fn new() -> (cluster: Cluster)
        ensures
            cluster@ == Seq::<Seq<char>>::empty(),
    {
        let cluster = Cluster { addrs: Vec::new() };
        assert(cluster@ =~= Seq::<Seq<char>>::empty());
        cluster
    }

    /// The number of nodes.
    pub fn len(&self) -> (count: usize)
        ensures
            count == self@.len(),
    {
        self.addrs.len()
    }

    /// The address of the node with the given index.
    pub fn node(&self, index: usize) -> (addr: Option<&str>)
        ensures
            match addr {
                Some(addr) => index < self@.len() && addr@ == self@[index as int],
                None => index >= self@.len(),
            },
    {
        if index < self.addrs.len() {
            Some(self.addrs[index].as_str())
        } else {
            None
        }
    }

    /// Adds the node at `addr`, if `reply`, which is what a ping of it
    /// brought back, shows that it is alive. Otherwise the cluster stays as
    /// it is, and the failure comes back.
    pub fn add_node(&mut self, addr: &str, reply: &PingReply) -> (r: Result<(), String>)
        ensures
            match r {
                Ok(_) => reply.failure(addr@) is None && final(self)@ == old(self)@.push(addr@),
                Err(text) => reply.failure(addr@) == Some(text@) && final(self)@ == old(self)@,
            },
    {
        match self.ping_addr(addr, reply) {
            Ok(_) => {
                self.addrs.push(addr.to_owned());
                assert(self@ =~= old(self)@.push(addr@));
                Ok(())
            },
            Err(text) => Err(text),
        }
    }

    /// Judges what a ping of the node at `addr` brought back: the node is
    /// alive when it has answered with a byte other than zero. Every other
    /// reply is a failure, told in words.
    pub fn ping_addr(&self, addr: &str, reply: &PingReply) -> (r: Result<(), String>)
        ensures
            match r {
                Ok(_) => reply.failure(addr@) is None,
                Err(text) => reply.failure(addr@) == Some(text@),
            },
    {
        match reply {
            PingReply::Unreachable(reason) => Err(
                with_reason("Cannot connect to ", addr, reason.as_str()),
            ),
            PingReply::Unsent(reason) => Err(with_reason("Cannot ping ", addr, reason.as_str())),
            PingReply::Silent => Err(
                String::from_str("Failure receiving message from address: ").concat(addr),
            ),
            PingReply::Answered(byte) => {
                if *byte > 0 {
                    Ok(())
                } else {
                    Err(String::from_str("Failure receiving message from address: ").concat(addr))
                }
            },
        }
    }

    /// Goes through the nodes in order, as far as there are replies, each
    /// reply being what a ping of the node with the same index brought back.
    /// The first node that has failed ends the round with its failure. With
    /// no failure, the round is done once every node has a reply, and until
    /// then the next node is due. Replies beyond the last node count for
    /// nothing.
    pub fn ping_all(&self, replies: &[PingReply]) -> (sweep: Sweep)
        ensures
            match sweep {
                Sweep::Failed(text) => exists|i: int|
                    {
                        &&& 0 <= i < self@.len()
                        &&& i < replies@.len()
                        &&& alive_before(self@, replies@, i)
                        &&& (#[trigger] replies@[i]).failure(self@[i]) == Some(text@)
                    },
                Sweep::Ping(next) => {
                    &&& alive_before(self@, replies@, replies@.len() as int)
                    &&& next == replies@.len()
                    &&& next < self@.len()
                },
                Sweep::Done => {
                    &&& alive_before(self@, replies@, self@.len() as int)
                    &&& replies@.len() >= self@.len()
                },
            },
    {
        let mut i: usize = 0;
        while i < self.addrs.len() && i < replies.len()
            invariant
                i <= self@.len(),
                i <= replies@.len(),
                self@.len() == self.addrs@.len(),
                alive_before(self@, replies@, i as int),
            decreases self@.len() - i,
        {
            match self.ping_addr(self.addrs[i].as_str(), &replies[i]) {
                Ok(_) => {},
                Err(text) => {
                    return Sweep::Failed(text);
                },
            }
            i += 1;
        }
        if i < self.addrs.len() {
            Sweep::Ping(i)
        } else {
            Sweep::Done
        }
    }
}

} // verus!
