//! Dataflow scheduling engine for a multi-rate closed control loop: actor
//! rates, the base clock, graph assembly and validation, the per-tick
//! execution plan, and the index layout of the modal reconstructor.

pub mod channel;
pub mod clock;
mod counting;
pub mod graph;
pub mod rate;
pub mod reconstructor;
pub mod schedule;

pub use channel::{Channel, ChannelError};
pub use clock::Clock;
pub use graph::{ActorConfig, Graph, GraphError, Link, ValidatedGraph};
pub use rate::Rate;
pub use reconstructor::{LayoutError, Reconstructor, SEGMENTS};
pub use schedule::{Run, Step};
