use rcluster::connection::Connection;
use rcluster::connection::Progress;
use rcluster::connection::MAGIC_LENGTH;
use rcluster::errors::ClusterError;
use rcluster::flag::ConnectionFlag;
use rcluster::flag::Dispatch;

const MAGIC: [u8; MAGIC_LENGTH] = [
    0x10, 0x11, 0x12, 0x13, 0x14, 0x15, 0x16, 0x17, 0x18, 0x19, 0x1a, 0x1b, 0x1c, 0x1d, 0x1e, 0x1f,
];

fn slave(input: &[u8]) -> Connection {
    Connection::from((input.to_vec(), Vec::new(), MAGIC))
}

fn handled(conn: Connection) -> (Connection, Dispatch) {
    match conn.handle_flags() {
        Ok(Progress::Ready(done)) => done,
        Ok(Progress::Pending(_)) => panic!("more input was asked for"),
        Err(e) => panic!("the exchange failed: {:?}", e),
    }
}

#[test]
fn a_ping_is_answered_with_the_magic_and_then_slave_ok() {
    let master = Connection::from((Vec::new(), Vec::new(), MAGIC));
    let (_, ping) = master.write_flag(ConnectionFlag::MasterPing).take_output();
    assert_eq!(ping, vec![0x00u8]);

    let (conn, dispatch) = handled(slave(b"").feed(&ping));
    assert_eq!(dispatch, Dispatch::Answered);
    let (conn, answer) = conn.take_output();
    let mut expected = MAGIC.to_vec();
    expected.push(0x01);
    assert_eq!(answer, expected);
    assert_eq!(conn.input(), b"");
    assert_eq!(conn.magic(), &MAGIC);
}

#[test]
fn the_master_reads_the_echo_and_the_answer_in_order() {
    let (_, answer) = handled(slave(&[0u8])).0.take_output();
    let master = Connection::from((answer, Vec::new(), MAGIC));
    let master = match master.read_magic() {
        Progress::Ready(conn) => conn,
        Progress::Pending(_) => panic!("the echo is missing"),
    };
    assert_eq!(master.magic(), &MAGIC);
    match master.read_flag() {
        Ok(Progress::Ready((conn, flag))) => {
            assert_eq!(flag, ConnectionFlag::SlaveOk);
            assert_eq!(conn.input(), b"");
        }
        _ => panic!("the answer is missing"),
    }
}

#[test]
fn a_path_that_is_sent_is_routed_to_the_transfer() {
    let (conn, dispatch) = handled(slave(&[3u8, b'a']));
    assert_eq!(dispatch, Dispatch::ReceiveFile);
    assert_eq!(conn.output(), &MAGIC[..]);
    assert_eq!(conn.input(), b"a");
}

#[test]
fn flags_without_handling_are_no_failure() {
    let flags = [
        ConnectionFlag::SlaveOk,
        ConnectionFlag::MasterWantsPath,
        ConnectionFlag::MasterWantsExecution,
    ];
    for flag in flags.iter() {
        let byte: u8 = (*flag).into();
        let (conn, dispatch) = handled(slave(&[byte, 0x07]));
        assert_eq!(dispatch, Dispatch::Unhandled(*flag));
        assert_eq!(conn.output(), &MAGIC[..]);
        assert_eq!(conn.input(), &[0x07u8][..]);
        assert_eq!(conn.magic(), &MAGIC);
    }
}

#[test]
fn a_byte_that_is_no_flag_fails_the_exchange() {
    for byte in [5u8, 6, 0x7f, 0xff].iter() {
        let result = slave(&[*byte]).handle_flags();
        assert!(matches!(result, Err(ClusterError::UnknownFlag)));
    }
}

#[test]
fn the_dispatcher_waits_for_the_flag() {
    match slave(b"").handle_flags() {
        Ok(Progress::Pending(conn)) => {
            assert_eq!(conn.output(), b"");
            assert_eq!(conn.input(), b"");
        }
        _ => panic!("there was nothing to handle"),
    }
}

#[test]
fn one_call_handles_one_flag() {
    let (conn, first) = handled(slave(&[0u8, 0u8]));
    assert_eq!(first, Dispatch::Answered);
    assert_eq!(conn.input(), &[0u8][..]);
    let (conn, second) = handled(conn);
    assert_eq!(second, Dispatch::Answered);
    let mut expected = MAGIC.to_vec();
    expected.push(1);
    expected.extend_from_slice(&MAGIC);
    expected.push(1);
    assert_eq!(conn.output(), &expected[..]);
}
