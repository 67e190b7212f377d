//! Protocol constants.

use vstd::prelude::*;

verus! {

/// Command type: push a data segment
pub const CMD_PUSH: u8 = 81;
/// Command type: acknowledgment
pub const CMD_ACK: u8 = 82;
/// Command type: window probe (ask)
pub const CMD_WASK: u8 = 83;
/// Command type: window size notification
pub const CMD_WINS: u8 = 84;

/// Header size: conv(4) + cmd(1) + frg(1) + wnd(2) + ts(4) + sn(4) + una(4) + len(4)
pub const HEADER_SIZE: usize = 24;

/// Default maximum transmission unit
pub const MTU_DEFAULT: usize = 1400;
/// Default maximum segment size (MTU minus header)
pub const MSS_DEFAULT: usize = MTU_DEFAULT - HEADER_SIZE;
/// Default send window size
pub const WND_SND_DEFAULT: u16 = 32;
/// Default receive window size
pub const WND_RCV_DEFAULT: u16 = 128;
/// Default retransmission timeout in milliseconds
pub const RTO_DEFAULT: u32 = 200;
/// Minimum retransmission timeout in milliseconds
pub const RTO_MIN: u32 = 100;
/// Maximum retransmission timeout in milliseconds
pub const RTO_MAX: u32 = 60000;
/// Minimum retransmission timeout in nodelay mode
pub const RTO_NDL: u32 = 30;
/// Default update interval in milliseconds
pub const INTERVAL_DEFAULT: u32 = 100;
/// Dead link threshold (maximum transmissions of one segment)
pub const DEAD_LINK: u32 = 20;
/// Initial slow-start threshold
pub const THRESH_INIT: u32 = 2;
/// Minimum slow-start threshold
pub const THRESH_MIN: u32 = 2;
/// Initial probe wait time in milliseconds
pub const PROBE_INIT: u32 = 7000;
/// Maximum probe wait time in milliseconds
pub const PROBE_LIMIT: u32 = 120000;

/// Send buffer capacity (a power of two)
pub const SND_BUF_CAPACITY: usize = 256;
/// Receive buffer capacity (a power of two)
pub const RCV_BUF_CAPACITY: usize = 256;
/// ACK list capacity (a power of two)
pub const ACK_LIST_CAPACITY: usize = 128;
/// Maximum fragments per message (a power of two)
pub const FRAGMENT_CAPACITY: usize = 128;

/// Mask for send buffer indexing (capacity - 1)
pub const SND_BUF_MASK: usize = SND_BUF_CAPACITY - 1;
/// Mask for receive buffer indexing (capacity - 1)
pub const RCV_BUF_MASK: usize = RCV_BUF_CAPACITY - 1;
/// Mask for ACK list indexing (capacity - 1)
pub const ACK_LIST_MASK: usize = ACK_LIST_CAPACITY - 1;
/// Mask for fragment indexing (capacity - 1)
pub const FRAGMENT_MASK: usize = FRAGMENT_CAPACITY - 1;

} // verus!
