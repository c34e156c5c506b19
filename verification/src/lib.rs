//! A daemon core that keeps kernel packet-filter address sets in sync with
//! the addresses observed on network interfaces and local containers.
//!
//! The crate holds the verified logic: the state store and its reducer, the
//! zone projection, the construction of transactional kernel batches, the
//! watcher state machines, address text handling, and the control-protocol
//! grammar.  The surrounding process (netlink, container engine, sockets,
//! signals) lives outside and feeds this logic with plain values.

pub mod addr;
pub mod config;
pub mod docker;
pub mod network;
pub mod nftables;
pub mod socket;
pub mod state;
pub mod types;

pub use types::AppConfig;
pub use types::AppError;
pub use types::ControlCommand;
pub use types::DockerEvent;
pub use types::InterfaceConfig;
pub use types::IpAddress;
pub use types::NetworkEvent;
pub use types::SystemEvent;
pub use state::AppState;
pub use state::NetworkState;
pub use state::ProjectionDelta;
pub use nftables::NftablesManager;
pub use network::NetworkMonitor;
