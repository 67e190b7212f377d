//! KCP protocol: a reliable, ordered transport over an unreliable datagram link,
//! with an optional Reed-Solomon forward error correction layer.
//!
//! Every buffer is allocated once, when its owner is created; sequence numbers,
//! timestamps and ring positions use wrapping arithmetic throughout.

pub mod constants;
pub mod time;
pub mod sequence;
pub mod segment;
pub mod codec;
pub mod ring_buffer;
pub mod kcp;
pub mod fec;

pub use constants::{
    CMD_PUSH,
    CMD_ACK,
    CMD_WASK,
    CMD_WINS,
    HEADER_SIZE,
    MTU_DEFAULT,
    MSS_DEFAULT,
    WND_SND_DEFAULT,
    WND_RCV_DEFAULT,
    RTO_DEFAULT,
    RTO_MIN,
    RTO_MAX,
    RTO_NDL,
    INTERVAL_DEFAULT,
    DEAD_LINK,
    THRESH_INIT,
    THRESH_MIN,
    PROBE_INIT,
    PROBE_LIMIT,
    SND_BUF_CAPACITY,
    RCV_BUF_CAPACITY,
    ACK_LIST_CAPACITY,
    FRAGMENT_CAPACITY,
    SND_BUF_MASK,
    RCV_BUF_MASK,
    ACK_LIST_MASK,
    FRAGMENT_MASK,
};
pub use sequence::Sequence;
pub use segment::{SegmentHeader, SegmentState};
pub use kcp::{Kcp, KcpConfig, KcpError, KcpOutput, KcpResult};
