//! Communication channels for inter-room messaging: direct, broadcast,
//! priority-ordered and reliable channels, and a multiplexer of named
//! direct channels.
pub mod seqs;
pub mod message;
pub mod channel;
pub mod direct;
pub mod broadcast;
pub mod priority;
pub mod reliable;
pub mod mux;

pub use message::{Message, TernaryPriority};
pub use channel::{Channel, ChannelState};
pub use direct::DirectChannel;
pub use broadcast::BroadcastChannel;
pub use priority::PriorityChannel;
pub use reliable::{DeliveryStatus, ReliableChannel};
pub use mux::ChannelMux;
