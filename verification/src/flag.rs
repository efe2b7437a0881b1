//! The one-byte flags that open every exchange.

use vstd::prelude::*;
use vstd::std_specs::convert::FromSpecImpl;

verus! {

/// The goal of a request or response. The position of a flag in this list,
/// counted from zero, is the byte that stands for it on the wire.
#[derive(Clone, Copy, Debug, PartialEq, Eq, Structural)]
pub enum ConnectionFlag {
    MasterPing,
    SlaveOk,
    MasterWantsPath,
    MasterSendsPath,
    MasterWantsExecution,
}

/// What a slave does about a flag once it has read it and echoed the magic
/// bytes.
#[derive(Clone, Copy, Debug, PartialEq, Eq, Structural)]
pub enum Dispatch {
    /// The flag was a ping, and it was answered with
    /// [`ConnectionFlag::SlaveOk`].
    Answered,
    /// The master sends a file next: its path, its content and the magic
    /// bytes. The caller receives it from the same connection.
    ReceiveFile,
    /// The flag is a flag, but the slave has no handling for it. This is no
    /// failure: the connection goes on.
    Unhandled(ConnectionFlag),
}

impl ConnectionFlag {
    /// What a slave does about this flag.
    pub open spec fn route(self) -> Dispatch {
        match self {
            ConnectionFlag::MasterPing => Dispatch::Answered,
            ConnectionFlag::MasterSendsPath => Dispatch::ReceiveFile,
            other => Dispatch::Unhandled(other),
        }
    }

    /// Tells what a slave does about this flag.
    pub fn dispatch(self) -> (dispatch: Dispatch)
        ensures
            dispatch == self.route(),
    {
        match self {
            ConnectionFlag::MasterPing => Dispatch::Answered,
            ConnectionFlag::MasterSendsPath => Dispatch::ReceiveFile,
            ConnectionFlag::SlaveOk => Dispatch::Unhandled(ConnectionFlag::SlaveOk),
            ConnectionFlag::MasterWantsPath => Dispatch::Unhandled(ConnectionFlag::MasterWantsPath),
            ConnectionFlag::MasterWantsExecution => Dispatch::Unhandled(
                ConnectionFlag::MasterWantsExecution,
            ),
        }
    }

    /// The byte that stands for this flag on the wire.
    pub open spec fn code(self) -> u8 {
        match self {
            ConnectionFlag::MasterPing => 0u8,
            ConnectionFlag::SlaveOk => 1u8,
            ConnectionFlag::MasterWantsPath => 2u8,
            ConnectionFlag::MasterSendsPath => 3u8,
            ConnectionFlag::MasterWantsExecution => 4u8,
        }
    }

    /// The flag that a byte stands for, if any.
    pub open spec fn decode(byte: u8) -> Option<ConnectionFlag> {
        if byte == 0 {
            Some(ConnectionFlag::MasterPing)
        } else if byte == 1 {
            Some(ConnectionFlag::SlaveOk)
        } else if byte == 2 {
            Some(ConnectionFlag::MasterWantsPath)
        } else if byte == 3 {
            Some(ConnectionFlag::MasterSendsPath)
        } else if byte == 4 {
            Some(ConnectionFlag::MasterWantsExecution)
        } else {
            None
        }
    }

    /// Reads a flag from its wire byte. Bytes above the last code stand for
    /// nothing.
    pub fn from_u8(byte: u8) -> (flag: Option<ConnectionFlag>)
        ensures
            flag == Self::decode(byte),
    {
        match byte {
            0 => Some(ConnectionFlag::MasterPing),
            1 => Some(ConnectionFlag::SlaveOk),
            2 => Some(ConnectionFlag::MasterWantsPath),
            3 => Some(ConnectionFlag::MasterSendsPath),
            4 => Some(ConnectionFlag::MasterWantsExecution),
            _ => None,
        }
    }
}

impl From<ConnectionFlag> for u8 {
    fn from(flag: ConnectionFlag) -> (byte: u8) {
        match flag {
            ConnectionFlag::MasterPing => 0,
            ConnectionFlag::SlaveOk => 1,
            ConnectionFlag::MasterWantsPath => 2,
            ConnectionFlag::MasterSendsPath => 3,
            ConnectionFlag::MasterWantsExecution => 4,
        }
    }
}

impl FromSpecImpl<ConnectionFlag> for u8 {
    open spec fn obeys_from_spec() -> bool {
        true
    }

    open spec fn from_spec(flag: ConnectionFlag) -> u8 {
        flag.code()
    }
}

/// A flag survives the trip over the wire: reading the byte that a flag was
/// written as gives that flag back.
pub proof fn lemma_flag_round_trip(flag: ConnectionFlag)
    ensures
        ConnectionFlag::decode(flag.code()) == Some(flag),
{
}

/// A byte stands for a flag exactly when it is the code of that flag, and
/// the five codes are the bytes 0 to 4: every other byte stands for nothing.
pub proof fn lemma_flag_codes_are_dense(byte: u8)
    ensures
        ConnectionFlag::decode(byte).is_some() <==> byte <= 4,
        forall|flag: ConnectionFlag|
            ConnectionFlag::decode(byte) == Some(flag) <==> flag.code() == byte,
{
}

} // verus!
