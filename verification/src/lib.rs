//! Delivery of a DASH presentation over QUIC with WebTransport: the rules of the
//! publisher and of the server, apart from sockets, files and timers.

pub mod address;
pub mod channel;
pub mod client;
pub mod dash;
pub mod error;
pub mod mpd;
pub mod packet;
pub mod pipe;
pub mod seen;
pub mod segments;
pub mod server;
pub mod table;
pub mod text;
pub mod timestamp;

pub use anyhow;
pub use bytes;
pub use crate::channel::{ChannelInfo, ChannelManager, ConnectionRole};
pub use crate::client::WebTransportClient;
pub use crate::error::VqdError;
pub use crate::error::VqdError as Error;
pub use crate::mpd::extract_timings_from_mpd;
pub use crate::packet::{serialize_media_packet, WebTransportMediaPacket};
pub use crate::timestamp::format_timestamp;
