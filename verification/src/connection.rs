//! One connection between a master and a slave.

use crate::errors::ClusterError;
use crate::flag::ConnectionFlag;
use crate::flag::Dispatch;
use rand::RngCore;
use vstd::prelude::*;
use vstd::std_specs::convert::FromSpecImpl;
use vstd::std_specs::convert::IntoSpec;

verus! {

/// Length of the random separator used in a connection for boundaries.
///
/// It is never below [`MIN_MAGIC_LENGTH`]: the shorter the separator, the
/// likelier it is to stand inside the content of a file by accident.
pub const MAGIC_LENGTH: usize = 16;

/// The shortest separator that a connection may be built around.
pub const MIN_MAGIC_LENGTH: usize = 8;

/// A connection taken apart: the bytes that arrived and were not read yet,
/// the bytes that were written and not sent yet, and the magic bytes.
pub type ConnectionParts = (Vec<u8>, Vec<u8>, [u8; MAGIC_LENGTH]);

/// A connection over the two halves of one stream.
pub type StreamingConnection = Connection;

/// Represents a connection (for master/slave). Every operation takes the
/// connection by value and hands a connection back, so operations can be
/// chained and no two of them ever see the same state.
#[derive(Debug)]
pub struct Connection {
    reader: Vec<u8>,
    writer: Vec<u8>,
    magic: [u8; MAGIC_LENGTH],
}

/// What a connection is, as plain sequences of bytes.
pub struct ConnectionView {
    /// Bytes that arrived from the peer and were not read yet, oldest first.
    pub input: Seq<u8>,
    /// Bytes that were written and not handed to the transport yet.
    pub output: Seq<u8>,
    /// The magic bytes of the connection.
    pub magic: Seq<u8>,
}

/// How far an operation that reads got with the bytes that have arrived.
#[derive(Debug)]
pub enum Progress<T> {
    /// Enough bytes were there, and the operation is done.
    Ready(T),
    /// More bytes have to arrive first. The connection comes back as it was:
    /// feed it and ask again.
    Pending(Connection),
}

impl View for Connection {
    type V = ConnectionView;

    closed spec fn view(&self) -> ConnectionView {
        ConnectionView { input: self.reader@, output: self.writer@, magic: self.magic@ }
    }
}

/// The magic bytes of a connection that has neither made nor read any yet.
pub open spec fn blank_magic() -> Seq<u8> {
    Seq::new(MAGIC_LENGTH as nat, |i: int| 0u8)
}

impl ConnectionView {
    /// A connection right after the stream was set up: `stream` has arrived,
    /// nothing was written.
    pub open spec fn fresh(stream: Seq<u8>, magic: Seq<u8>) -> ConnectionView {
        ConnectionView { input: stream, output: Seq::empty(), magic }
    }

    /// The connection after `bytes` have arrived from the peer.
    pub open spec fn fed(self, bytes: Seq<u8>) -> ConnectionView {
        ConnectionView { input: self.input + bytes, ..self }
    }

    /// The connection after `bytes` were written to it.
    pub open spec fn written(self, bytes: Seq<u8>) -> ConnectionView {
        ConnectionView { output: self.output + bytes, ..self }
    }

    /// The connection after its output was handed to the transport.
    pub open spec fn drained(self) -> ConnectionView {
        ConnectionView { output: Seq::empty(), ..self }
    }

    /// The connection after the first `count` bytes of its input were read.
    pub open spec fn consumed(self, count: int) -> ConnectionView {
        ConnectionView { input: self.input.skip(count), ..self }
    }

    /// Reading the magic bytes: the first [`MAGIC_LENGTH`] bytes of the input
    /// take the place of the magic bytes. `None` while fewer have arrived.
    pub open spec fn read_magic(self) -> Option<ConnectionView> {
        if self.input.len() >= MAGIC_LENGTH {
            Some(
                ConnectionView {
                    magic: self.input.take(MAGIC_LENGTH as int),
                    ..self.consumed(MAGIC_LENGTH as int)
                },
            )
        } else {
            None
        }
    }

    /// Writing the magic bytes.
    pub open spec fn write_magic(self) -> ConnectionView {
        self.written(self.magic)
    }

    /// Writing a flag: its code, one byte.
    pub open spec fn write_flag(self, flag: ConnectionFlag) -> ConnectionView {
        self.written(seq![flag.code()])
    }

    /// The initiator's side of the handshake: the magic bytes are written as
    /// the first thing that goes out.
    pub open spec fn initiate(stream: Seq<u8>, magic: Seq<u8>) -> ConnectionView {
        ConnectionView::fresh(stream, magic).write_magic()
    }

    /// The acceptor's side of the handshake: the magic bytes are the first
    /// thing that is read. `None` while too few bytes have arrived.
    pub open spec fn accept(stream: Seq<u8>) -> Option<ConnectionView> {
        ConnectionView::fresh(stream, blank_magic()).read_magic()
    }

    /// Reading a flag: the first byte of the input, where it is the code of a
    /// flag. `Ok(None)` while no byte has arrived.
    pub open spec fn read_flag(self) -> Result<Option<(ConnectionView, ConnectionFlag)>, ClusterError> {
        if self.input.len() == 0 {
            Ok(None)
        } else {
            match ConnectionFlag::decode(self.input[0]) {
                Some(flag) => Ok(Some((self.consumed(1), flag))),
                None => Err(ClusterError::UnknownFlag),
            }
        }
    }

    /// One exchange on the slave's side: the flag is read, the magic bytes
    /// are echoed, and a ping is answered. `Ok(None)` while no byte has
    /// arrived.
    pub open spec fn handle_flags(self) -> Result<Option<(ConnectionView, Dispatch)>, ClusterError> {
        match self.read_flag() {
            Err(e) => Err(e),
            Ok(None) => Ok(None),
            Ok(Some((conn, flag))) => {
                let echoed = conn.write_magic();
                match flag.route() {
                    Dispatch::Answered => Ok(
                        Some((echoed.write_flag(ConnectionFlag::SlaveOk), Dispatch::Answered)),
                    ),
                    other => Ok(Some((echoed, other))),
                }
            },
        }
    }
}

impl From<ConnectionParts> for Connection {
    /// Puts a connection together from its parts.
    fn from(v: ConnectionParts) -> (conn: Connection)
        ensures
            conn@ == (ConnectionView { input: v.0@, output: v.1@, magic: v.2@ }),
    {
        Connection { reader: v.0, writer: v.1, magic: v.2 }
    }
}

impl FromSpecImpl<ConnectionParts> for Connection {
    open spec fn obeys_from_spec() -> bool {
        true
    }

    closed spec fn from_spec(v: ConnectionParts) -> Connection {
        Connection { reader: v.0, writer: v.1, magic: v.2 }
    }
}

impl From<Connection> for ConnectionParts {
    /// Takes a connection apart.
    fn from(conn: Connection) -> (v: ConnectionParts)
        ensures
            conn@ == (ConnectionView { input: v.0@, output: v.1@, magic: v.2@ }),
    {
        (conn.reader, conn.writer, conn.magic)
    }
}

impl FromSpecImpl<Connection> for ConnectionParts {
    open spec fn obeys_from_spec() -> bool {
        true
    }

    closed spec fn from_spec(conn: Connection) -> ConnectionParts {
        (conn.reader, conn.writer, conn.magic)
    }
}

/// Appends `bytes` to `buffer`.
fn append(buffer: &mut Vec<u8>, bytes: &[u8])
    ensures
        final(buffer)@ == old(buffer)@ + bytes@,
{
    buffer.extend_from_slice(bytes);
    assert(buffer@ =~= old(buffer)@ + bytes@);
}

/// Fresh magic bytes from `rand::thread_rng`, filled by `RngCore::fill_bytes`.
/// Nothing is claimed of the bytes: they are whatever the generator gives.
/// The generator is seeded by the operating system on its first use in a
/// thread, and gives up only where the system has no random bytes to offer.
#[verifier::external_body]
fn random_magic() -> (magic: [u8; MAGIC_LENGTH]) {
    let mut magic = [0; MAGIC_LENGTH];
    rand::thread_rng().fill_bytes(&mut magic);
    magic
}

impl StreamingConnection {
    /// Create a connection object for an incoming/outgoing stream, of which
    /// `stream` has already arrived. If the `bool` is set to `true`, then
    /// this assumes that the connection is incoming and expects a set of
    /// bytes (the "magic") which begins the connection. If it's `false`, then
    /// this assumes that the connection is outgoing, and so it writes magic
    /// bytes that it has drawn at random.
    pub fn create_for_stream(stream: Vec<u8>, expect_magic: bool) -> (r: Progress<Connection>)
        ensures
            expect_magic ==> match r {
                Progress::Ready(conn) => ConnectionView::accept(stream@) == Some(conn@),
                Progress::Pending(conn) => {
                    &&& ConnectionView::accept(stream@) is None
                    &&& conn@ == ConnectionView::fresh(stream@, blank_magic())
                },
            },
            !expect_magic ==> match r {
                Progress::Ready(conn) => conn@ == ConnectionView::initiate(stream@, conn@.magic),
                Progress::Pending(_) => false,
            },
    {
        if expect_magic {
            Connection::accept(stream)
        } else {
            Progress::Ready(Connection::initiate(stream, random_magic()))
        }
    }
}

impl Connection {
    /// Opens an outgoing connection around the given magic bytes, and writes
    /// them for the peer.
    pub fn initiate(stream: Vec<u8>, magic: [u8; MAGIC_LENGTH]) -> (conn: Connection)
        ensures
            conn@ == ConnectionView::initiate(stream@, magic@),
    {
        Connection { reader: stream, writer: Vec::new(), magic }.write_magic()
    }

    /// Opens an incoming connection, and reads the magic bytes that the peer
    /// has sent.
    pub fn accept(stream: Vec<u8>) -> (r: Progress<Connection>)
        ensures
            match r {
                Progress::Ready(conn) => ConnectionView::accept(stream@) == Some(conn@),
                Progress::Pending(conn) => {
                    &&& ConnectionView::accept(stream@) is None
                    &&& conn@ == ConnectionView::fresh(stream@, blank_magic())
                },
            },
    {
        let magic = [0u8; MAGIC_LENGTH];
        assert(magic@ =~= blank_magic());
        Connection { reader: stream, writer: Vec::new(), magic }.read_magic()
    }

    /// Every connection has magic bytes of the full length.
    pub proof fn lemma_magic_length(&self)
        ensures
            self@.magic.len() == MAGIC_LENGTH,
    {
    }

    /// The bytes that arrived from the peer and were not read yet.
    pub fn input(&self) -> (bytes: &[u8])
        ensures
            bytes@ == self@.input,
    {
        self.reader.as_slice()
    }

    /// The bytes that were written and not handed to the transport yet.
    pub fn output(&self) -> (bytes: &[u8])
        ensures
            bytes@ == self@.output,
    {
        self.writer.as_slice()
    }

    /// The magic bytes of this connection.
    pub fn magic(&self) -> (magic: &[u8; MAGIC_LENGTH])
        ensures
            magic@ == self@.magic,
    {
        &self.magic
    }

    /// Takes in bytes that arrived from the peer, behind those that are
    /// already waiting to be read.
    pub fn feed(self, bytes: &[u8]) -> (conn: Connection)
        ensures
            conn@ == self@.fed(bytes@),
    {
        let mut conn = self;
        append(&mut conn.reader, bytes);
        conn
    }

    /// Hands out the bytes that were written since the last call, in the
    /// order in which they were written, and keeps none of them.
    pub fn take_output(self) -> (r: (Connection, Vec<u8>))
        ensures
            r.0@ == self@.drained(),
            r.1@ == self@.output,
    {
        let Connection { reader, writer, magic } = self;
        (Connection { reader, writer: Vec::new(), magic }, writer)
    }

    /// Write bytes to the "writable half" of this connection.
    pub fn write_bytes(self, bytes: &[u8]) -> (conn: Connection)
        ensures
            conn@ == self@.written(bytes@),
    {
        let mut conn = self;
        append(&mut conn.writer, bytes);
        conn
    }

    /// Takes the first `count` bytes out of the input.
    pub(crate) fn take_input(self, count: usize) -> (r: (Connection, Vec<u8>))
        requires
            count <= self@.input.len(),
        ensures
            r.0@ == self@.consumed(count as int),
            r.1@ == self@.input.take(count as int),
    {
        let Connection { reader, writer, magic } = self;
        let mut head = reader;
        let rest = head.split_off(count);
        assert(head@ =~= self@.input.take(count as int));
        assert(rest@ =~= self@.input.skip(count as int));
        (Connection { reader: rest, writer, magic }, head)
    }

    /// Reads exactly `count` bytes, once that many have arrived.
    pub fn read_bytes(self, count: usize) -> (r: Progress<(Connection, Vec<u8>)>)
        ensures
            match r {
                Progress::Ready((conn, bytes)) => {
                    &&& count <= self@.input.len()
                    &&& conn@ == self@.consumed(count as int)
                    &&& bytes@ == self@.input.take(count as int)
                },
                Progress::Pending(conn) => count > self@.input.len() && conn == self,
            },
    {
        if self.reader.len() < count {
            Progress::Pending(self)
        } else {
            Progress::Ready(self.take_input(count))
        }
    }

    /// Read the magic bytes from this connection. Note that this changes
    /// the magic bytes that already exist in `self` (because we use only one
    /// set of bytes throughout a connection).
    pub fn read_magic(self) -> (r: Progress<Connection>)
        ensures
            match r {
                Progress::Ready(conn) => self@.read_magic() == Some(conn@),
                Progress::Pending(conn) => self@.read_magic() is None && conn == self,
            },
    {
        if self.reader.len() < MAGIC_LENGTH {
            return Progress::Pending(self);
        }
        let (rest, head) = self.take_input(MAGIC_LENGTH);
        let Connection { reader, writer, magic: _ } = rest;
        let mut magic = [0u8; MAGIC_LENGTH];
        let mut i: usize = 0;
        while i < MAGIC_LENGTH
            invariant
                i <= MAGIC_LENGTH,
                head@.len() == MAGIC_LENGTH,
                forall|j: int| 0 <= j < i ==> magic@[j] == head@[j],
            decreases MAGIC_LENGTH - i,
        {
            magic[i] = head[i];
            i += 1;
        }
        assert(magic@ =~= head@);
        Progress::Ready(Connection { reader, writer, magic })
    }

    /// Write the magic to this connection's stream.
    pub fn write_magic(self) -> (conn: Connection)
        ensures
            conn@ == self@.write_magic(),
    {
        let m = self.magic;
        self.write_bytes(m.as_slice())
    }

    /// Read flag from this stream. Essentially, a flag is just a byte, and so
    /// a byte that is the code of no flag fails the exchange.
    pub fn read_flag(self) -> (r: Result<Progress<(Connection, ConnectionFlag)>, ClusterError>)
        ensures
            match r {
                Ok(Progress::Ready((conn, flag))) => {
                    &&& self@.read_flag() matches Ok(Some(read))
                    &&& read == (conn@, flag)
                },
                Ok(Progress::Pending(conn)) => self@.read_flag() matches Ok(None) && conn == self,
                Err(e) => self@.read_flag() matches Err(failure) && failure == e,
            },
    {
        if self.reader.len() == 0 {
            return Ok(Progress::Pending(self));
        }
        match ConnectionFlag::from_u8(self.reader[0]) {
            Some(flag) => {
                let (conn, _) = self.take_input(1);
                Ok(Progress::Ready((conn, flag)))
            },
            None => Err(ClusterError::UnknownFlag),
        }
    }

    /// Handles one exchange on the slave's side: reads the flag that opens
    /// it, echoes the magic bytes, and then acts on the flag. A ping is
    /// answered with [`ConnectionFlag::SlaveOk`]. For every other flag the
    /// connection is left as it is after the echo, and the result says what
    /// the caller has to do next.
    pub fn handle_flags(self) -> (r: Result<Progress<(Connection, Dispatch)>, ClusterError>)
        ensures
            match r {
                Ok(Progress::Ready((conn, dispatch))) => {
                    &&& self@.handle_flags() matches Ok(Some(handled))
                    &&& handled == (conn@, dispatch)
                },
                Ok(Progress::Pending(conn)) => {
                    &&& self@.handle_flags() matches Ok(None)
                    &&& conn == self
                },
                Err(e) => self@.handle_flags() matches Err(failure) && failure == e,
            },
    {
        match self.read_flag() {
            Err(e) => Err(e),
            Ok(Progress::Pending(conn)) => Ok(Progress::Pending(conn)),
            Ok(Progress::Ready((conn, flag))) => {
                let echoed = conn.write_magic();
                let dispatch = flag.dispatch();
                match dispatch {
                    Dispatch::Answered => Ok(
                        Progress::Ready((echoed.write_flag(ConnectionFlag::SlaveOk), dispatch)),
                    ),
                    _ => Ok(Progress::Ready((echoed, dispatch))),
                }
            },
        }
    }

    /// Write the given flag to this stream.
    pub fn write_flag<F: Into<u8>>(self, flag: F) -> (conn: Connection)
        ensures
            exists|byte: u8| conn@ == self@.written(seq![byte]),
            F::obeys_into_spec() ==> conn@ == self@.written(seq![flag.into_spec()]),
    {
        let byte: u8 = flag.into();
        let bytes: [u8; 1] = [byte];
        assert(bytes@ =~= seq![byte]);
        self.write_bytes(bytes.as_slice())
    }
}

/// Both ends of a connection hold the same magic bytes once the handshake
/// is over: whatever magic bytes the initiator has drawn, the acceptor that
/// reads what the initiator wrote holds exactly those, and has read nothing
/// of what came after them.
pub proof fn lemma_handshake_symmetry(
    magic: Seq<u8>,
    initiator_stream: Seq<u8>,
    later: Seq<u8>,
)
    requires
        magic.len() == MAGIC_LENGTH,
    ensures
        ({
            let initiator = ConnectionView::initiate(initiator_stream, magic);
            &&& initiator.magic == magic
            &&& ConnectionView::accept(initiator.output + later) matches Some(acceptor)
            &&& acceptor.magic == magic
            &&& acceptor.input == later
        }),
{
    let initiator = ConnectionView::initiate(initiator_stream, magic);
    assert(initiator.output =~= magic);
    let arrived = initiator.output + later;
    assert(arrived.take(MAGIC_LENGTH as int) =~= magic);
    assert(arrived.skip(MAGIC_LENGTH as int) =~= later);
}

/// The acceptor holds no magic bytes of its own making: as long as fewer
/// bytes than the magic bytes have arrived, the handshake is not over.
pub proof fn lemma_handshake_waits(stream: Seq<u8>)
    ensures
        ConnectionView::accept(stream) is None <==> stream.len() < MAGIC_LENGTH,
{
}

/// A flag that one end writes is the flag that the other end reads, and the
/// reader is left with what arrived after it.
pub proof fn lemma_flag_crosses(
    writer: ConnectionView,
    reader: ConnectionView,
    flag: ConnectionFlag,
    later: Seq<u8>,
)
    requires
        writer.output.len() == 0,
        reader.input.len() == 0,
    ensures
        ({
            let wire = writer.write_flag(flag).output + later;
            &&& reader.fed(wire).read_flag() matches Ok(Some(read))
            &&& read == (reader.fed(later), flag)
        }),
{
    let wire = writer.write_flag(flag).output + later;
    assert(wire[0] == flag.code());
    assert(reader.fed(wire).input.skip(1) =~= reader.fed(later).input);
}

/// A byte that is the code of no flag fails the exchange, and no other byte
/// does.
pub proof fn lemma_unknown_flag(reader: ConnectionView)
    requires
        reader.input.len() > 0,
    ensures
        reader.read_flag() is Err <==> reader.input[0] > 4,
        reader.read_flag() matches Err(failure) ==> failure == ClusterError::UnknownFlag,
{
}

/// A ping is acknowledged: the slave that reads [`ConnectionFlag::MasterPing`]
/// writes its magic bytes and then [`ConnectionFlag::SlaveOk`], in this
/// order and nothing else.
pub proof fn lemma_ping_is_acknowledged(master: ConnectionView, slave: ConnectionView)
    requires
        master.output.len() == 0,
        slave.input.len() == 0,
    ensures
        ({
            let wire = master.write_flag(ConnectionFlag::MasterPing).output;
            &&& slave.fed(wire).handle_flags() matches Ok(Some(handled))
            &&& handled.1 == Dispatch::Answered
            &&& handled.0.output == slave.output + slave.magic + seq![
                ConnectionFlag::SlaveOk.code(),
            ]
            &&& handled.0.input == slave.input
            &&& handled.0.magic == slave.magic
        }),
{
    let wire = master.write_flag(ConnectionFlag::MasterPing).output;
    assert(wire[0] == ConnectionFlag::MasterPing.code());
    assert(slave.fed(wire).input.skip(1) =~= slave.input);
}

/// The magic bytes of a connection are made once. No operation but
/// [`ConnectionView::read_magic`] changes them: not writing, not reading a
/// flag, not handling one.
pub proof fn lemma_magic_is_kept(conn: ConnectionView, bytes: Seq<u8>, flag: ConnectionFlag)
    ensures
        conn.fed(bytes).magic == conn.magic,
        conn.written(bytes).magic == conn.magic,
        conn.drained().magic == conn.magic,
        conn.write_magic().magic == conn.magic,
        conn.write_flag(flag).magic == conn.magic,
        conn.read_flag() matches Ok(Some(read)) ==> read.0.magic == conn.magic,
        conn.handle_flags() matches Ok(Some(handled)) ==> handled.0.magic == conn.magic,
{
}

/// The magic bytes are never shorter than the shortest that is allowed.
pub proof fn lemma_magic_length_guard(conn: Connection)
    ensures
        MAGIC_LENGTH >= MIN_MAGIC_LENGTH,
        conn@.magic.len() >= MIN_MAGIC_LENGTH,
{
    conn.lemma_magic_length();
}

} // verus!
