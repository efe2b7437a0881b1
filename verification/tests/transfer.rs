use rcluster::connection::Connection;
use rcluster::connection::Progress;
use rcluster::connection::MAGIC_LENGTH;
use rcluster::flag::ConnectionFlag;
use rcluster::flag::Dispatch;
use rcluster::transfer::FileStep;
use rcluster::transfer::TransferPhase;
use rcluster::transfer::NEWLINE;

const MAGIC: [u8; MAGIC_LENGTH] = [
    0x3b, 0xf1, 0x07, 0xc4, 0x9e, 0x52, 0xd8, 0x6a, 0x00, 0xb3, 0x7d, 0x2e, 0xe5, 0x41, 0x98, 0x1c,
];

fn end(magic: [u8; MAGIC_LENGTH]) -> Connection {
    Connection::from((Vec::new(), Vec::new(), magic))
}

/// Receives one file from what has arrived, feeding `pieces` one by one.
fn receive(mut conn: Connection, pieces: &[&[u8]]) -> (Connection, String, Vec<u8>, bool) {
    let mut phase = TransferPhase::AwaitingPath;
    let mut path = String::new();
    let mut content = Vec::new();
    let mut next = 0;
    loop {
        let (after, step) = conn.buffered_file_write(phase);
        conn = after;
        let following = step.next_phase();
        let mut starved = false;
        match step {
            FileStep::NeedPath => starved = true,
            FileStep::Open(p) => path = p,
            FileStep::Chunk(bytes) => {
                content.extend_from_slice(&bytes);
                starved = true;
            }
            FileStep::Last(bytes) => {
                content.extend_from_slice(&bytes);
                return (conn, path, content, true);
            }
        }
        phase = following.unwrap();
        if starved {
            if next == pieces.len() {
                return (conn, path, content, false);
            }
            conn = conn.feed(pieces[next]);
            next += 1;
        }
    }
}

#[test]
fn a_file_arrives_as_it_was_sent() {
    let content: Vec<u8> = (0u8..=255).chain(0u8..=255).collect();
    let (_, wire) = end(MAGIC).send_file("dir/file.bin", &content).take_output();
    let (conn, path, received, complete) = receive(end(MAGIC), &[&wire]);
    assert!(complete);
    assert_eq!(path, "dir/file.bin");
    assert_eq!(received, content);
    assert_eq!(conn.output(), &[0x01u8][..]);
    assert_eq!(conn.input(), b"");
}

#[test]
fn the_wire_holds_path_newline_content_and_magic() {
    let (_, wire) = end(MAGIC).send_file("a/b", b"xyz").take_output();
    let mut expected = b"a/b\nxyz".to_vec();
    expected.extend_from_slice(&MAGIC);
    assert_eq!(wire, expected);
    assert_eq!(NEWLINE, b'\n');
}

#[test]
fn write_path_ends_the_path_with_a_newline() {
    let conn = end(MAGIC).write_path("caf\u{e9}");
    assert_eq!(conn.output(), &[b'c', b'a', b'f', 0xc3, 0xa9, 0x0a][..]);
}

#[test]
fn an_empty_file_arrives_empty() {
    let (_, wire) = end(MAGIC).send_file("empty", b"").take_output();
    let (conn, path, received, complete) = receive(end(MAGIC), &[&wire]);
    assert!(complete);
    assert_eq!(path, "empty");
    assert_eq!(received, Vec::<u8>::new());
    assert_eq!(conn.output(), &[0x01u8][..]);
}

#[test]
fn slave_ok_is_written_once_and_only_at_the_end() {
    let (_, wire) = end(MAGIC).send_file("f", &[9u8; 40]).take_output();
    let conn = end(MAGIC).feed(&wire[..30]);
    let (conn, step) = conn.buffered_file_write(TransferPhase::AwaitingPath);
    assert!(matches!(step, FileStep::Open(_)));
    assert_eq!(conn.output(), b"");
    let (conn, step) = conn.buffered_file_write(TransferPhase::Streaming);
    assert!(matches!(step, FileStep::Chunk(_)));
    assert_eq!(conn.output(), b"");
    let (conn, step) = conn.feed(&wire[30..]).buffered_file_write(TransferPhase::Streaming);
    assert!(matches!(step, FileStep::Last(_)));
    assert_eq!(conn.output(), &[0x01u8][..]);
}

#[test]
fn content_that_holds_the_magic_is_cut_at_its_first_occurrence() {
    let mut content = b"before".to_vec();
    content.extend_from_slice(&MAGIC);
    content.extend_from_slice(b"between");
    content.extend_from_slice(&MAGIC);
    content.extend_from_slice(b"after");
    let (_, wire) = end(MAGIC).send_file("cut", &content).take_output();
    let (conn, path, received, complete) = receive(end(MAGIC), &[&wire]);
    assert!(complete);
    assert_eq!(path, "cut");
    assert_eq!(received, b"before".to_vec());
    assert_eq!(conn.output(), &[0x01u8][..]);
    let mut left = b"between".to_vec();
    left.extend_from_slice(&MAGIC);
    left.extend_from_slice(b"after");
    left.extend_from_slice(&MAGIC);
    assert_eq!(conn.input(), &left[..]);
}

#[test]
fn content_that_runs_into_the_magic_is_cut_too() {
    let magic = [b'a'; MAGIC_LENGTH];
    let (_, wire) = end(magic).send_file("p", b"xa").take_output();
    let (conn, _, received, complete) = receive(end(magic), &[&wire]);
    assert!(complete);
    assert_eq!(received, b"x".to_vec());
    assert_eq!(conn.input(), b"a");
}

#[test]
fn the_content_is_the_same_however_the_bytes_arrive() {
    let content: Vec<u8> = (0u8..200).collect();
    let (_, wire) = end(MAGIC).send_file("some/path", &content).take_output();
    for size in [1usize, 2, 3, 7, 15, 16, 17, 64, 1000].iter() {
        let pieces: Vec<&[u8]> = wire.chunks(*size).collect();
        let (conn, path, received, complete) = receive(end(MAGIC), &pieces);
        assert!(complete);
        assert_eq!(path, "some/path");
        assert_eq!(received, content);
        assert_eq!(conn.output(), &[0x01u8][..]);
        assert_eq!(conn.input(), b"");
    }
}

#[test]
fn a_file_without_its_end_is_not_complete() {
    let (_, wire) = end(MAGIC).send_file("f", &[1u8; 100]).take_output();
    let (conn, _, received, complete) = receive(end(MAGIC), &[&wire[..wire.len() - 1]]);
    assert!(!complete);
    assert_eq!(received, vec![1u8; 100]);
    assert_eq!(conn.input(), &MAGIC[..15]);
    assert_eq!(conn.output(), b"");
}

#[test]
fn read_content_holds_back_what_may_be_magic() {
    let conn = end(MAGIC).feed(&[7u8; 20]);
    let (conn, content, complete) = conn.read_content();
    assert!(!complete);
    assert_eq!(content, vec![7u8; 5]);
    assert_eq!(conn.input(), &[7u8; 15][..]);
    let (conn, content, complete) = conn.read_content();
    assert!(!complete);
    assert_eq!(content, Vec::<u8>::new());
    assert_eq!(conn.input(), &[7u8; 15][..]);
}

#[test]
fn read_content_gives_nothing_from_few_bytes() {
    let (conn, content, complete) = end(MAGIC).feed(&[7u8; 14]).read_content();
    assert!(!complete);
    assert_eq!(content, Vec::<u8>::new());
    assert_eq!(conn.input(), &[7u8; 14][..]);
}

#[test]
fn read_content_stops_at_the_magic() {
    let mut wire = b"abc".to_vec();
    wire.extend_from_slice(&MAGIC);
    wire.push(0x00);
    let (conn, content, complete) = end(MAGIC).feed(&wire).read_content();
    assert!(complete);
    assert_eq!(content, b"abc".to_vec());
    assert_eq!(conn.input(), &[0x00u8][..]);
    assert_eq!(conn.output(), b"");
}

#[test]
fn read_path_reads_up_to_the_newline() {
    match end(MAGIC).feed(b"some/where\nrest\n").read_path() {
        Progress::Ready((conn, path)) => {
            assert_eq!(path, "some/where");
            assert_eq!(conn.input(), b"rest\n");
        }
        Progress::Pending(_) => panic!("the newline was there"),
    }
}

#[test]
fn read_path_waits_for_the_newline() {
    match end(MAGIC).feed(b"some/where").read_path() {
        Progress::Ready(_) => panic!("there was no newline"),
        Progress::Pending(conn) => assert_eq!(conn.input(), b"some/where"),
    }
    let (conn, step) = end(MAGIC).feed(b"some").buffered_file_write(TransferPhase::AwaitingPath);
    assert!(matches!(step, FileStep::NeedPath));
    assert_eq!(step.next_phase(), Some(TransferPhase::AwaitingPath));
    assert_eq!(conn.input(), b"some");
}

#[test]
fn an_empty_path_is_a_path() {
    match end(MAGIC).feed(b"\nx").read_path() {
        Progress::Ready((conn, path)) => {
            assert_eq!(path, "");
            assert_eq!(conn.input(), b"x");
        }
        Progress::Pending(_) => panic!("the newline was there"),
    }
}

#[test]
fn a_path_that_is_no_utf8_is_read_with_replacements() {
    match end(MAGIC).feed(&[b'a', 0xff, b'b', 0xc3, b'\n']).read_path() {
        Progress::Ready((conn, path)) => {
            assert_eq!(path, "a\u{fffd}b\u{fffd}");
            assert_eq!(conn.input(), b"");
        }
        Progress::Pending(_) => panic!("the newline was there"),
    }
}

#[test]
fn a_path_in_utf8_is_read_as_it_was_written() {
    let (_, wire) = end(MAGIC).write_path("d\u{e9}p\u{f4}t/\u{1f980}.txt").take_output();
    match end(MAGIC).feed(&wire).read_path() {
        Progress::Ready((_, path)) => assert_eq!(path, "d\u{e9}p\u{f4}t/\u{1f980}.txt"),
        Progress::Pending(_) => panic!("the newline was there"),
    }
}

#[test]
fn the_steps_name_the_phase_that_follows() {
    assert_eq!(FileStep::NeedPath.next_phase(), Some(TransferPhase::AwaitingPath));
    assert_eq!(FileStep::Open(String::from("p")).next_phase(), Some(TransferPhase::Streaming));
    assert_eq!(FileStep::Chunk(vec![1]).next_phase(), Some(TransferPhase::Streaming));
    assert_eq!(FileStep::Last(vec![1]).next_phase(), None);
}

#[test]
fn a_master_sends_a_file_to_a_slave() {
    // Handshake.
    let master = Connection::initiate(Vec::new(), MAGIC);
    let (master, hello) = master.take_output();
    let slave = match Connection::accept(hello) {
        Progress::Ready(conn) => conn,
        Progress::Pending(_) => panic!("the magic was sent"),
    };

    // The flag, echoed by the slave.
    let (master, flag) = master.write_flag(ConnectionFlag::MasterSendsPath).take_output();
    let (slave, dispatch) = match slave.feed(&flag).handle_flags() {
        Ok(Progress::Ready(done)) => done,
        _ => panic!("the flag was sent"),
    };
    assert_eq!(dispatch, Dispatch::ReceiveFile);
    let (slave, echo) = slave.take_output();
    assert_eq!(echo, MAGIC.to_vec());

    // The file.
    let (_, file) = master.send_file("out.txt", b"hello, slave").take_output();
    let (slave, path, content, complete) = receive(slave, &[&file]);
    assert!(complete);
    assert_eq!(path, "out.txt");
    assert_eq!(content, b"hello, slave".to_vec());
    let (_, answer) = slave.take_output();
    assert_eq!(answer, vec![0x01u8]);
}
