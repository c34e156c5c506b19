//! Core types: addresses, configuration, errors, events and commands.

use vstd::prelude::*;
use vstd::string::*;

verus! {

/// A network-layer address, v4 or v6, stored unmodified as its numeric
/// value: an IPv4 address is the 32-bit big-endian integer formed by its
/// four octets, an IPv6 address the 128-bit integer formed by its eight
/// 16-bit groups.
#[derive(Clone, Copy, Debug, PartialEq, Eq, Structural)]
pub enum IpAddress {
    V4(u32),
    V6(u128),
}

impl IpAddress {
    /// The address belongs to the v4 family.
    pub open spec fn is_v4(self) -> bool {
        matches!(self, IpAddress::V4(_))
    }

    /// The address belongs to the v6 family.
    pub open spec fn is_v6(self) -> bool {
        matches!(self, IpAddress::V6(_))
    }

    pub fn is_ipv4(&self) -> (r: bool)
        ensures
            r == self.is_v4(),
    {
        match self {
            IpAddress::V4(_) => true,
            IpAddress::V6(_) => false,
        }
    }

    pub fn is_ipv6(&self) -> (r: bool)
        ensures
            r == self.is_v6(),
    {
        match self {
            IpAddress::V4(_) => false,
            IpAddress::V6(_) => true,
        }
    }
}

/// Ghost image of an interface entry of the configuration.
pub struct InterfaceConfigView {
    pub name: Seq<char>,
    pub dhcp: Option<bool>,
    pub address: Option<Seq<char>>,
    pub nftables_zone: Option<Seq<char>>,
}

/// One configured interface.  `dhcp` and `address` are informational;
/// `nftables_zone` binds the interface to an administrative zone.
#[derive(Debug, Clone)]
pub struct InterfaceConfig {
    pub name: String,
    pub dhcp: Option<bool>,
    pub address: Option<String>,
    pub nftables_zone: Option<String>,
}

impl View for InterfaceConfig {
    type V = InterfaceConfigView;

    open spec fn view(&self) -> InterfaceConfigView {
        InterfaceConfigView {
            name: self.name@,
            dhcp: self.dhcp,
            address: self.address.deep_view(),
            nftables_zone: self.nftables_zone.deep_view(),
        }
    }
}

/// Ghost image of the whole configuration.
pub struct AppConfigView {
    pub interfaces: Seq<InterfaceConfigView>,
    pub socket_path: Option<Seq<char>>,
    pub nftables_rules_path: Option<Seq<char>>,
}

/// The daemon's configuration snapshot.
#[derive(Debug, Clone)]
pub struct AppConfig {
    pub interfaces: Vec<InterfaceConfig>,
    pub socket_path: Option<String>,
    pub nftables_rules_path: Option<String>,
}

impl View for AppConfig {
    type V = AppConfigView;

    open spec fn view(&self) -> AppConfigView {
        AppConfigView {
            interfaces: self.interfaces.deep_view(),
            socket_path: self.socket_path.deep_view(),
            nftables_rules_path: self.nftables_rules_path.deep_view(),
        }
    }
}

impl DeepView for InterfaceConfig {
    type V = InterfaceConfigView;

    open spec fn deep_view(&self) -> InterfaceConfigView {
        self.view()
    }
}

/// Central error type.  Payloads that come from outside the library are
/// carried as plain text.
#[derive(Debug, Clone, PartialEq, Eq)]
pub enum AppError {
    ConfigParse(String),
    ConfigIo(String),
    ConfigValidation(String),
    Io(String),
    NftablesError(String),
    DockerError(String),
    DockerStream(String),
    Netlink(String),
    RtNetlink(String),
    MpscSendError(String),
    ChannelRecvError(String),
    OneshotSendError(String),
}

/// A change reported by the link/address watcher.  `IpUpdate` always
/// carries the full current address set of the interface, never a delta.
#[derive(Debug, Clone)]
pub enum NetworkEvent {
    IpUpdate { interface: String, ips: Vec<IpAddress> },
    LinkChanged { name: String, is_up: bool },
}

/// A change reported by the container watcher.
#[derive(Debug, Clone)]
pub enum DockerEvent {
    ContainerStarted(String, Option<IpAddress>),
    ContainerStopped(String),
}

/// A command read from the control socket.  Replies travel back through
/// the caller; the command itself carries no channel.
#[derive(Debug, Clone, PartialEq, Eq, Structural)]
pub enum ControlCommand {
    Reload,
    Status,
    Ping,
    Shutdown,
}

/// Everything the event loop consumes, fanned in over one queue.
#[derive(Debug, Clone)]
pub enum SystemEvent {
    Network(NetworkEvent),
    Docker(DockerEvent),
    Control(ControlCommand),
    Signal(i32),
}

impl From<ControlCommand> for SystemEvent {
    fn from(cmd: ControlCommand) -> (r: SystemEvent) {
        SystemEvent::Control(cmd)
    }
}

impl vstd::std_specs::convert::FromSpecImpl<ControlCommand> for SystemEvent {
    open spec fn obeys_from_spec() -> bool {
        true
    }

    open spec fn from_spec(cmd: ControlCommand) -> SystemEvent {
        SystemEvent::Control(cmd)
    }
}

/// Compares two string slices character by character.
pub fn str_eq_str(a: &str, b: &str) -> (r: bool)
    ensures
        r == (a@ == b@),
{
    let la = a.unicode_len();
    let lb = b.unicode_len();
    if la != lb {
        proof {
            assert(a@ != b@) by {
                if a@ == b@ {
                    assert(a@.len() == b@.len());
                }
            }
        }
        return false;
    }
    let mut i: usize = 0;
    while i < la
        invariant
            la == a@.len(),
            la == b@.len(),
            i <= la,
            forall|j: int| 0 <= j < i ==> a@[j] == b@[j],
        decreases la - i,
    {
        if a.get_char(i) != b.get_char(i) {
            return false;
        }
        i += 1;
    }
    proof {
        assert(a@ =~= b@);
    }
    true
}

/// Compares two owned strings.
pub fn string_eq(a: &String, b: &String) -> (r: bool)
    ensures
        r == (a@ == b@),
{
    *a == *b
}

} // verus!
