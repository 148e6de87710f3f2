//! The wire format: constants, headers, commands and the checksum.

use vstd::prelude::*;

pub mod command;
pub mod crc;
pub mod header;
pub mod sequence;
pub mod wire;

pub use command::{
    parse_commands, AcknowledgeCmd, BandwidthLimitCmd, Command, CommandBody, ConnectCmd, DisconnectCmd,
    SendFragmentCmd, SendReliableCmd, SendUnreliableCmd, SendUnsequencedCmd, ThrottleConfigureCmd,
    VerifyConnectCmd,
};
pub use crc::crc32;
pub use header::{CommandHeader, ProtocolHeader};
pub use sequence::seq_lt;

verus! {

// Header flags and masks.
pub const HEADER_FLAG_SENT_TIME: u16 = 0x8000;
pub const HEADER_FLAG_COMPRESSED: u16 = 0x4000;
pub const HEADER_SESSION_MASK: u16 = 0x3000;
pub const HEADER_SESSION_SHIFT: u16 = 12;
pub const HEADER_PEER_ID_MAX: u16 = 0x0FFF;
pub const PEER_ID_UNASSIGNED: u16 = 0xFFFF;

// Command flags.
pub const COMMAND_FLAG_ACKNOWLEDGE: u8 = 0x80;
pub const COMMAND_FLAG_UNSEQUENCED: u8 = 0x40;
pub const COMMAND_MASK: u8 = 0x0F;

// Command types.
pub const CMD_NONE: u8 = 0;
pub const CMD_ACKNOWLEDGE: u8 = 1;
pub const CMD_CONNECT: u8 = 2;
pub const CMD_VERIFY_CONNECT: u8 = 3;
pub const CMD_DISCONNECT: u8 = 4;
pub const CMD_PING: u8 = 5;
pub const CMD_SEND_RELIABLE: u8 = 6;
pub const CMD_SEND_UNRELIABLE: u8 = 7;
pub const CMD_SEND_FRAGMENT: u8 = 8;
pub const CMD_SEND_UNSEQUENCED: u8 = 9;
pub const CMD_BANDWIDTH_LIMIT: u8 = 10;
pub const CMD_THROTTLE_CONFIGURE: u8 = 11;
pub const CMD_SEND_UNRELIABLE_FRAGMENT: u8 = 12;

/// The channel of connection-level commands.
pub const CHANNEL_ID_CONNECTION: u8 = 0xFF;

// Protocol limits.
pub const MTU_MIN: u32 = 576;
pub const MTU_MAX: u32 = 4096;
pub const MTU_DEFAULT: u32 = 1392;
pub const WINDOW_SIZE_MIN: u32 = 4096;
pub const WINDOW_SIZE_MAX: u32 = 65536;
pub const MAX_CHANNELS: u32 = 255;
pub const MAX_PEERS: usize = 4095;
pub const MAX_COMMANDS_PER_PACKET: usize = 32;
pub const MAX_FRAGMENT_COUNT: u32 = 1_048_576;
/// Hard cap on the size of a reassembled message: 32 MiB.
pub const MAX_PACKET_SIZE: usize = 32 * 1024 * 1024;
pub const RELIABLE_WINDOW_SIZE: u16 = 4096;
pub const RELIABLE_WINDOWS: u16 = 16;
pub const FREE_RELIABLE_WINDOWS: u16 = 8;
pub const UNSEQUENCED_WINDOW_SIZE: u32 = 1024;
pub const UNSEQUENCED_WINDOWS: u32 = 64;
pub const FREE_UNSEQUENCED_WINDOWS: u32 = 32;

pub const DEFAULT_PING_INTERVAL_MS: u64 = 500;
pub const DEFAULT_RTT_MS: u32 = 500;
pub const TIMEOUT_MINIMUM_MS: u32 = 5_000;
pub const TIMEOUT_MAXIMUM_MS: u32 = 30_000;
pub const TIMEOUT_LIMIT: u32 = 32;
pub const DEFAULT_PACKET_THROTTLE: u32 = 32;
pub const PACKET_THROTTLE_SCALE: u32 = 32;
pub const THROTTLE_INTERVAL_MS: u32 = 5_000;
pub const THROTTLE_ACCELERATION: u32 = 2;
pub const THROTTLE_DECELERATION: u32 = 2;
pub const BANDWIDTH_THROTTLE_INTERVAL_MS: u64 = 1_000;

// Sizes.
pub const HEADER_SIZE: usize = 2;
pub const HEADER_SIZE_WITH_SENT_TIME: usize = 4;
pub const CHECKSUM_SIZE: usize = 4;
pub const COMMAND_HEADER_SIZE: usize = 4;

} // verus!
