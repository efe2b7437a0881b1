//! Moving a file across a connection.
//!
//! No length goes in front of the content. The sender writes the path of the
//! file and a newline, then the content, then the magic bytes of the
//! connection. The receiver takes everything before the first newline as the
//! path, and everything between that newline and the first place where the
//! magic bytes stand as the content. Content that holds the magic bytes is
//! therefore cut short there: the length of the magic bytes is all that
//! stands against it.

use crate::buffered::absent;
use crate::buffered::absent_before;
use crate::buffered::find;
use crate::buffered::lemma_find_after_settled;
use crate::buffered::lemma_find_first;
use crate::buffered::lemma_first_occurrence_extends;
use crate::buffered::lemma_find_none;
use crate::buffered::occurs_at;
use crate::buffered::search;
use crate::buffered::settled;
use crate::connection::Connection;
use crate::connection::ConnectionView;
use crate::connection::Progress;
use crate::connection::MAGIC_LENGTH;
use crate::flag::ConnectionFlag;
use vstd::prelude::*;
use vstd::utf8::decode_utf8;
use vstd::utf8::encode_utf8;
use vstd::utf8::encode_utf8_decode_utf8;
use vstd::utf8::encode_utf8_valid_utf8;
use vstd::utf8::valid_utf8;

verus! {

/// The byte that ends the path of a file.
pub const NEWLINE: u8 = 0x0A;

/// Where the receiver of a file stands.
#[derive(Clone, Copy, Debug, PartialEq, Eq, Structural)]
pub enum TransferPhase {
    /// The path has not arrived in full.
    AwaitingPath,
    /// The path is known, and content is coming in.
    Streaming,
}

/// What the receiver of a file has to do after one step.
#[derive(Debug)]
pub enum FileStep {
    /// Nothing yet: the newline that ends the path has not arrived.
    NeedPath,
    /// Open the file at this path. Content follows.
    Open(String),
    /// Put these bytes at the end of the file. More content follows once
    /// more bytes have arrived.
    Chunk(Vec<u8>),
    /// Put these bytes at the end of the file and close it: the content is
    /// complete, and the answer to the sender has been written.
    Last(Vec<u8>),
}

/// A [`FileStep`] with its text and bytes as sequences.
pub enum FileStepView {
    NeedPath,
    Open(Seq<char>),
    Chunk(Seq<u8>),
    Last(Seq<u8>),
}

impl View for FileStep {
    type V = FileStepView;

    open spec fn view(&self) -> FileStepView {
        match self {
            FileStep::NeedPath => FileStepView::NeedPath,
            FileStep::Open(path) => FileStepView::Open(path@),
            FileStep::Chunk(bytes) => FileStepView::Chunk(bytes@),
            FileStep::Last(bytes) => FileStepView::Last(bytes@),
        }
    }
}

impl FileStepView {
    /// Where the receiver stands after this step. `None` where the file is
    /// complete.
    pub open spec fn next_phase(self) -> Option<TransferPhase> {
        match self {
            FileStepView::NeedPath => Some(TransferPhase::AwaitingPath),
            FileStepView::Open(_) => Some(TransferPhase::Streaming),
            FileStepView::Chunk(_) => Some(TransferPhase::Streaming),
            FileStepView::Last(_) => None,
        }
    }
}

impl FileStep {
    /// Tells where the receiver stands after this step. `None` where the
    /// file is complete.
    pub fn next_phase(&self) -> (phase: Option<TransferPhase>)
        ensures
            phase == self@.next_phase(),
    {
        match self {
            FileStep::NeedPath => Some(TransferPhase::AwaitingPath),
            FileStep::Open(_) => Some(TransferPhase::Streaming),
            FileStep::Chunk(_) => Some(TransferPhase::Streaming),
            FileStep::Last(_) => None,
        }
    }
}

/// The text that `String::from_utf8_lossy` makes of bytes that are not
/// valid UTF-8.
pub uninterp spec fn utf8_lossy(bytes: Seq<u8>) -> Seq<char>;

/// The text that a path on the wire stands for. Valid UTF-8 stands for the
/// text that it encodes. In anything else, what cannot be decoded gives way
/// to replacement characters, and the path is still a path.
pub open spec fn lossy_text(bytes: Seq<u8>) -> Seq<char> {
    if valid_utf8(bytes) {
        decode_utf8(bytes)
    } else {
        utf8_lossy(bytes)
    }
}

/// Decodes bytes with `String::from_utf8_lossy`. What is claimed of it: the
/// text depends on the bytes alone, and valid UTF-8 is decoded as it stands,
/// with nothing replaced.
#[verifier::external_body]
fn from_utf8_lossy(bytes: &[u8]) -> (text: String)
    ensures
        text@ == utf8_lossy(bytes@),
        valid_utf8(bytes@) ==> text@ == decode_utf8(bytes@),
{
    String::from_utf8_lossy(bytes).into_owned()
}

impl ConnectionView {
    /// Reading a path: everything before the first newline, which is read
    /// too and dropped. `None` while no newline has arrived.
    pub open spec fn read_path(self) -> Option<(ConnectionView, Seq<u8>)> {
        match find(self.input, seq![NEWLINE]) {
            Some(at) => Some((self.consumed(at + 1), self.input.take(at))),
            None => None,
        }
    }

    /// Reading content. Where the magic bytes stand in the input, everything
    /// before their first occurrence is the last of the content, and they
    /// are read too and dropped. Where they do not, the content so far is
    /// every byte that cannot belong to them whatever arrives next, and the
    /// rest stays in the input. The `bool` tells whether the content is
    /// complete.
    pub open spec fn read_content(self) -> (ConnectionView, Seq<u8>, bool) {
        match find(self.input, self.magic) {
            Some(at) => (self.consumed(at + self.magic.len()), self.input.take(at), true),
            None => {
                let cut = settled(self.input.len() as int, self.magic.len() as int);
                (self.consumed(cut), self.input.take(cut), false)
            },
        }
    }

    /// Reading content while `pieces` arrive one after another: after each
    /// piece, what can be told of the content is read. Once the content is
    /// complete, the pieces that follow stay in the input, unread.
    pub open spec fn stream_content(self, pieces: Seq<Seq<u8>>) -> (ConnectionView, Seq<u8>, bool)
        decreases pieces.len(),
    {
        if pieces.len() == 0 {
            (self, Seq::empty(), false)
        } else {
            let (conn, content, complete) = self.fed(pieces.first()).read_content();
            if complete {
                (conn.fed(pieces.drop_first().flatten()), content, true)
            } else {
                let (last, more, done) = conn.stream_content(pieces.drop_first());
                (last, content + more, done)
            }
        }
    }

    /// One step of receiving a file. Once the content is complete,
    /// [`ConnectionFlag::SlaveOk`] is written for the sender.
    pub open spec fn buffered_file_write(self, phase: TransferPhase) -> (
        ConnectionView,
        FileStepView,
    ) {
        match phase {
            TransferPhase::AwaitingPath => match self.read_path() {
                Some((conn, raw)) => (conn, FileStepView::Open(lossy_text(raw))),
                None => (self, FileStepView::NeedPath),
            },
            TransferPhase::Streaming => {
                let (conn, content, complete) = self.read_content();
                if complete {
                    (conn.write_flag(ConnectionFlag::SlaveOk), FileStepView::Last(content))
                } else {
                    (conn, FileStepView::Chunk(content))
                }
            },
        }
    }

    /// Writing a path: its UTF-8 bytes and a newline.
    pub open spec fn write_path(self, path: Seq<char>) -> ConnectionView {
        self.written(encode_utf8(path) + seq![NEWLINE])
    }

    /// Sending a file: its path, its content, and the magic bytes.
    pub open spec fn send_file(self, path: Seq<char>, content: Seq<u8>) -> ConnectionView {
        self.written(file_on_wire(path, content, self.magic))
    }
}

/// A file as it crosses a connection with the given magic bytes: the UTF-8
/// bytes of its path, a newline, its content, the magic bytes.
pub open spec fn file_on_wire(path: Seq<char>, content: Seq<u8>, magic: Seq<u8>) -> Seq<u8> {
    encode_utf8(path) + seq![NEWLINE] + content + magic
}

impl Connection {
    /// Reads the path of a file: the bytes up to the next newline, decoded
    /// as UTF-8. Bytes that are no UTF-8 do not fail the transfer.
    pub fn read_path(self) -> (r: Progress<(Connection, String)>)
        ensures
            match r {
                Progress::Ready((conn, path)) => {
                    &&& self@.read_path() matches Some(read)
                    &&& conn@ == read.0
                    &&& path@ == lossy_text(read.1)
                },
                Progress::Pending(conn) => self@.read_path() is None && conn == self,
            },
    {
        let newline: [u8; 1] = [NEWLINE];
        assert(newline@ =~= seq![NEWLINE]);
        match search(self.input(), newline.as_slice()) {
            Some(at) => {
                proof {
                    lemma_find_first(self@.input, seq![NEWLINE], at as int);
                }
                let (conn, raw) = self.take_input(at);
                let (conn, _) = conn.take_input(1);
                assert(conn@.input =~= self@.input.skip(at + 1));
                Progress::Ready((conn, from_utf8_lossy(raw.as_slice())))
            },
            None => Progress::Pending(self),
        }
    }

    /// Reads content of a file up to the magic bytes, as far as it has
    /// arrived. The `bool` tells whether the magic bytes were reached.
    pub fn read_content(self) -> (r: (Connection, Vec<u8>, bool))
        ensures
            (r.0@, r.1@, r.2) == self@.read_content(),
    {
        proof {
            self.lemma_magic_length();
        }
        match search(self.input(), self.magic().as_slice()) {
            Some(at) => {
                proof {
                    lemma_find_first(self@.input, self@.magic, at as int);
                }
                let (conn, content) = self.take_input(at);
                let (conn, _) = conn.take_input(MAGIC_LENGTH);
                assert(conn@.input =~= self@.input.skip(at + MAGIC_LENGTH));
                (conn, content, true)
            },
            None => {
                let len = self.input().len();
                let cut: usize = if len >= MAGIC_LENGTH - 1 {
                    len - (MAGIC_LENGTH - 1)
                } else {
                    0
                };
                let (conn, content) = self.take_input(cut);
                (conn, content, false)
            },
        }
    }

    /// Receives a file, one step at a time: first its path, then its content
    /// up to the magic bytes. The file itself is the caller's. Each step
    /// tells the caller what to do with it, and [`FileStep::next_phase`]
    /// tells in which phase to go on once more bytes have arrived. When the
    /// content is complete, [`ConnectionFlag::SlaveOk`] is written.
    pub fn buffered_file_write(self, phase: TransferPhase) -> (r: (Connection, FileStep))
        ensures
            (r.0@, r.1@) == self@.buffered_file_write(phase),
    {
        match phase {
            TransferPhase::AwaitingPath => match self.read_path() {
                Progress::Ready((conn, path)) => (conn, FileStep::Open(path)),
                Progress::Pending(conn) => (conn, FileStep::NeedPath),
            },
            TransferPhase::Streaming => {
                let (conn, content, complete) = self.read_content();
                if complete {
                    (conn.write_flag(ConnectionFlag::SlaveOk), FileStep::Last(content))
                } else {
                    (conn, FileStep::Chunk(content))
                }
            },
        }
    }

    /// Writes the path of a file, and the newline that ends it.
    pub fn write_path(self, path: &str) -> (conn: Connection)
        ensures
            conn@ == self@.write_path(path@),
    {
        let newline: [u8; 1] = [NEWLINE];
        let conn = self.write_bytes(path.as_bytes()).write_bytes(newline.as_slice());
        assert(conn@.output =~= self@.output + (encode_utf8(path@) + seq![NEWLINE]));
        conn
    }

    /// Sends a file: its path, its content, and the magic bytes that end it.
    pub fn send_file(self, path: &str, content: &[u8]) -> (conn: Connection)
        ensures
            conn@ == self@.send_file(path@, content@),
    {
        let conn = self.write_path(path).write_bytes(content).write_magic();
        assert(conn@.output =~= self@.output + file_on_wire(path@, content@, self@.magic));
        conn
    }
}

/// A file arrives cut at the first place where the magic bytes stand in
/// its content followed by the magic bytes. The receiver, which holds the
/// magic bytes of the sender and has nothing else to read, opens the path
/// that was sent, takes the content before that place and nothing else,
/// and writes [`ConnectionFlag::SlaveOk`] once. The path must hold no
/// newline, which would end it early.
pub proof fn lemma_transfer_cuts_at_first_occurrence(
    receiver: ConnectionView,
    path: Seq<char>,
    content: Seq<u8>,
)
    requires
        receiver.input.len() == 0,
        absent(encode_utf8(path), seq![NEWLINE]),
    ensures
        ({
            let wire = file_on_wire(path, content, receiver.magic);
            let (opened, first) = receiver.fed(wire).buffered_file_write(
                TransferPhase::AwaitingPath,
            );
            let (closed, second) = opened.buffered_file_write(TransferPhase::Streaming);
            &&& first == FileStepView::Open(path)
            &&& find(content + receiver.magic, receiver.magic) matches Some(cut)
            &&& cut <= content.len()
            &&& second == FileStepView::Last(content.take(cut))
            &&& closed.output == receiver.output + seq![ConnectionFlag::SlaveOk.code()]
            &&& closed.magic == receiver.magic
            &&& closed.input == (content + receiver.magic).skip(cut + receiver.magic.len())
        }),
{
    let magic = receiver.magic;
    let raw = encode_utf8(path);
    let newline = seq![NEWLINE];
    let body = content + magic;
    let wire = file_on_wire(path, content, magic);
    assert(wire =~= raw + newline + body);
    let arrived = receiver.fed(wire);
    assert(arrived.input =~= wire);

    // The first newline is the one that ends the path.
    let end = raw.len() as int;
    assert(wire.subrange(end, end + 1) =~= newline);
    assert forall|at: int| 0 <= at < raw.len() implies !occurs_at(wire, newline, at) by {
        if occurs_at(wire, newline, at) {
            assert(raw.subrange(at, at + 1) =~= wire.subrange(at, at + 1));
            assert(occurs_at(raw, newline, at));
        }
    }
    lemma_find_first(wire, newline, end);
    assert(wire.take(end) =~= raw);
    assert(wire.skip(end + 1) =~= body);
    encode_utf8_valid_utf8(path);
    encode_utf8_decode_utf8(path);

    // The magic bytes stand at the end of the content, if not before.
    let whole = content.len() as int;
    assert(body.subrange(whole, whole + magic.len()) =~= magic);
    assert(occurs_at(body, magic, whole));
    lemma_find_none(body, magic);
    let cut = find(body, magic).unwrap();
    lemma_find_first(body, magic, cut);
    assert(cut <= whole) by {
        if cut > whole {
            assert(!occurs_at(body, magic, whole));
        }
    }
    assert(body.take(cut) =~= content.take(cut));
    let (opened, first) = arrived.buffered_file_write(TransferPhase::AwaitingPath);
    assert(opened.input == body);
    let (closed, second) = opened.buffered_file_write(TransferPhase::Streaming);
    assert(closed.output =~= receiver.output + seq![ConnectionFlag::SlaveOk.code()]);
}

/// A file whose content does not run into the magic bytes arrives whole:
/// where the magic bytes that end the content are the first that stand in
/// the content followed by them, the receiver takes exactly the content that
/// was sent, writes [`ConnectionFlag::SlaveOk`] once, and has nothing left
/// to read.
pub proof fn lemma_transfer_delivers_content(
    receiver: ConnectionView,
    path: Seq<char>,
    content: Seq<u8>,
)
    requires
        receiver.input.len() == 0,
        absent(encode_utf8(path), seq![NEWLINE]),
        absent_before(content + receiver.magic, receiver.magic, content.len() as int),
    ensures
        ({
            let wire = file_on_wire(path, content, receiver.magic);
            let (opened, first) = receiver.fed(wire).buffered_file_write(
                TransferPhase::AwaitingPath,
            );
            let (closed, second) = opened.buffered_file_write(TransferPhase::Streaming);
            &&& first == FileStepView::Open(path)
            &&& second == FileStepView::Last(content)
            &&& closed.output == receiver.output + seq![ConnectionFlag::SlaveOk.code()]
            &&& closed.magic == receiver.magic
            &&& closed.input.len() == 0
        }),
{
    lemma_transfer_cuts_at_first_occurrence(receiver, path, content);
    let body = content + receiver.magic;
    let cut = find(body, receiver.magic).unwrap();
    lemma_find_first(body, receiver.magic, cut);
    let whole = content.len() as int;
    assert(body.subrange(whole, whole + receiver.magic.len()) =~= receiver.magic);
    assert(occurs_at(body, receiver.magic, whole));
    assert(cut == content.len());
    assert(content.take(cut) =~= content);
}

/// Reading content neither makes bytes up nor loses any: the content that
/// was read, the magic bytes where they were reached, and what is left in
/// the input are the input as it was.
pub proof fn lemma_read_content_splits_input(conn: ConnectionView)
    ensures
        ({
            let (next, content, complete) = conn.read_content();
            &&& complete ==> conn.input == content + conn.magic + next.input
            &&& !complete ==> conn.input == content + next.input
            &&& !complete ==> next.input.len() < conn.magic.len()
            &&& next.output == conn.output
        }),
{
    let (next, content, complete) = conn.read_content();
    match find(conn.input, conn.magic) {
        Some(at) => {
            lemma_find_first(conn.input, conn.magic, at);
            assert(conn.input =~= content + conn.magic + next.input);
        },
        None => {
            lemma_find_none(conn.input, conn.magic);
            if conn.magic.len() == 0 {
                assert(conn.input.subrange(0, 0) =~= conn.magic);
                assert(occurs_at(conn.input, conn.magic, 0));
            }
            assert(conn.input =~= content + next.input);
        },
    }
}

/// The magic bytes are made in the handshake and stay as they are while
/// files cross the connection, in either direction.
pub proof fn lemma_transfer_keeps_magic(
    conn: ConnectionView,
    phase: TransferPhase,
    path: Seq<char>,
    content: Seq<u8>,
)
    ensures
        conn.read_path() matches Some(read) ==> read.0.magic == conn.magic,
        conn.read_content().0.magic == conn.magic,
        conn.buffered_file_write(phase).0.magic == conn.magic,
        conn.write_path(path).magic == conn.magic,
        conn.send_file(path, content).magic == conn.magic,
{
}

/// The content of a file is the same however its bytes arrive: reading it
/// piece by piece, as the pieces come in, gives the content, leaves the
/// input and tells the end exactly as one reading does after all pieces
/// have arrived. Where no piece arrives at all, nothing is read, and so
/// this holds only of a connection in which nothing waits to be read as
/// content: fewer bytes wait in its input than the magic bytes are long,
/// as after every reading that did not reach them.
pub proof fn lemma_content_is_the_same_however_it_arrives(
    conn: ConnectionView,
    pieces: Seq<Seq<u8>>,
)
    requires
        pieces.len() > 0 || conn.input.len() < conn.magic.len(),
    ensures
        conn.stream_content(pieces) == conn.fed(pieces.flatten()).read_content(),
    decreases pieces.len(),
{
    let magic = conn.magic;
    if pieces.len() == 0 {
        assert(conn.fed(pieces.flatten()).input =~= conn.input);
        assert forall|at: int| !occurs_at(conn.input, magic, at) by {}
        lemma_find_none(conn.input, magic);
        assert(conn.input.skip(0) =~= conn.input);
        assert(conn.input.take(0) =~= Seq::<u8>::empty());
    } else {
        let rest = pieces.drop_first();
        let later = rest.flatten();
        let data = conn.input + pieces.first();
        let whole = conn.fed(pieces.flatten());
        assert(whole.input =~= data + later);
        let (next, content, complete) = conn.fed(pieces.first()).read_content();
        match find(data, magic) {
            Some(at) => {
                lemma_find_first(data, magic, at);
                lemma_first_occurrence_extends(data, later, magic, at);
                lemma_find_first(data + later, magic, at);
                assert((data + later).take(at) =~= data.take(at));
                assert((data + later).skip(at + magic.len()) =~= data.skip(at + magic.len())
                    + later);
            },
            None => {
                lemma_find_none(data, magic);
                lemma_find_after_settled(data, later, magic);
                let cut = settled(data.len() as int, magic.len() as int);
                lemma_read_content_splits_input(conn.fed(pieces.first()));
                lemma_content_is_the_same_however_it_arrives(next, rest);
                let left = data.skip(cut) + later;
                assert(next.fed(later).input =~= left);
                match find(left, magic) {
                    Some(at) => {
                        lemma_find_first(left, magic, at);
                        assert(data.take(cut) + left.take(at) =~= (data + later).take(at + cut));
                        assert(left.skip(at + magic.len()) =~= (data + later).skip(
                            at + cut + magic.len(),
                        ));
                    },
                    None => {
                        let held = settled(left.len() as int, magic.len() as int);
                        let all = settled((data + later).len() as int, magic.len() as int);
                        assert(all == cut + held);
                        assert(data.take(cut) + left.take(held) =~= (data + later).take(all));
                        assert(left.skip(held) =~= (data + later).skip(all));
                    },
                }
            },
        }
    }
}

/// A file that arrives in pieces arrives whole: where the pieces together
/// are the content followed by the magic bytes, and these are the first
/// magic bytes that stand there, reading piece by piece gives exactly the
/// content, tells its end, and leaves nothing in the input.
pub proof fn lemma_streamed_content_arrives_whole(
    conn: ConnectionView,
    content: Seq<u8>,
    pieces: Seq<Seq<u8>>,
)
    requires
        conn.input.len() == 0,
        conn.magic.len() > 0,
        pieces.flatten() == content + conn.magic,
        absent_before(content + conn.magic, conn.magic, content.len() as int),
    ensures
        ({
            let (last, received, complete) = conn.stream_content(pieces);
            &&& complete
            &&& received == content
            &&& last.input.len() == 0
            &&& last.output == conn.output
            &&& last.magic == conn.magic
        }),
{
    lemma_content_is_the_same_however_it_arrives(conn, pieces);
    let body = content + conn.magic;
    let whole = content.len() as int;
    assert(conn.fed(pieces.flatten()).input =~= body);
    assert(body.subrange(whole, whole + conn.magic.len()) =~= conn.magic);
    lemma_find_first(body, conn.magic, whole);
    assert(body.take(whole) =~= content);
}

} // verus!
