//! The container watcher's decisions: which engine events matter, and
//! how a container's primary address is resolved from what inspection
//! reported.  Talking to the engine happens outside; this module works
//! on the plain values handed in.

use vstd::prelude::*;
use vstd::string::*;

use crate::addr::{parse_ip, parse_ip_spec};
use crate::types::IpAddress;

verus! {

/// A lifecycle change worth acting on: a container started, or one
/// stopped or died.
#[derive(Debug, Clone)]
pub enum ContainerLifecycle {
    Started(String),
    Stopped(String),
}

/// Decides whether an engine event is a container start or stop.  The
/// caller hands in whether the event's type is `container`, its action,
/// and the actor id (outer `None`: no actor; inner `None`: an actor
/// without id, reported under the placeholder id `Unknown`).
pub fn classify_container_event(
    is_container: bool,
    action: &str,
    actor_id: Option<Option<String>>,
) -> (r: Option<ContainerLifecycle>)
    ensures
        match r {
            Some(ContainerLifecycle::Started(id)) => {
                &&& is_container
                &&& action@ == "start"@
                &&& match actor_id {
                    Some(Some(ref given)) => id@ == given@,
                    Some(None) => id@ == "Unknown"@,
                    None => false,
                }
            },
            Some(ContainerLifecycle::Stopped(id)) => {
                &&& is_container
                &&& (action@ == "stop"@ || action@ == "die"@)
                &&& match actor_id {
                    Some(Some(ref given)) => id@ == given@,
                    Some(None) => id@ == "Unknown"@,
                    None => false,
                }
            },
            None => {
                ||| !is_container
                ||| actor_id is None
                ||| (action@ != "start"@ && action@ != "stop"@ && action@ != "die"@)
            },
        },
{
    if !is_container {
        return None;
    }
    let id: String = match actor_id {
        Some(Some(given)) => given,
        Some(None) => String::from_str("Unknown"),
        None => {
            return None;
        },
    };
    if crate::types::str_eq_str(action, "start") {
        Some(ContainerLifecycle::Started(id))
    } else if crate::types::str_eq_str(action, "stop") || crate::types::str_eq_str(action, "die") {
        Some(ContainerLifecycle::Stopped(id))
    } else {
        None
    }
}

/// The first nonempty string in the list, if any.
pub open spec fn first_nonempty(nets: Seq<Seq<char>>) -> Option<Seq<char>>
    decreases nets.len(),
{
    if nets.len() == 0 {
        None
    } else if nets[0].len() > 0 {
        Some(nets[0])
    } else {
        first_nonempty(nets.drop_first())
    }
}

/// The address string inspection chose: the default network's address
/// if nonempty, otherwise the first nonempty address of the attached
/// networks in their snapshot order.
pub open spec fn chosen_address(
    default_address: Option<Seq<char>>,
    nets: Seq<Seq<char>>,
) -> Option<Seq<char>> {
    match default_address {
        Some(d) => if d.len() > 0 {
            Some(d)
        } else {
            first_nonempty(nets)
        },
        None => first_nonempty(nets),
    }
}

/// An empty prefix of the list leaves the choice to the rest.
proof fn lemma_first_nonempty_skip(nets: Seq<Seq<char>>, i: int)
    requires
        0 <= i <= nets.len(),
        forall|j: int| 0 <= j < i ==> nets[j].len() == 0,
    ensures
        first_nonempty(nets) == first_nonempty(nets.subrange(i, nets.len() as int)),
    decreases i,
{
    if i == 0 {
        assert(nets.subrange(0, nets.len() as int) =~= nets);
    } else {
        assert(nets[0].len() == 0);
        assert(first_nonempty(nets) == first_nonempty(nets.drop_first()));
        let t = nets.drop_first();
        assert(t =~= nets.subrange(1, nets.len() as int));
        lemma_first_nonempty_skip(t, i - 1);
        assert(t.subrange(i - 1, t.len() as int) =~= nets.subrange(i, nets.len() as int));
    }
}

/// Resolves a container's primary address: picks the chosen address
/// string and parses it; an unparseable or absent choice is reported as
/// absent.
pub fn resolve_primary_address(
    default_address: &Option<String>,
    network_addresses: &Vec<String>,
) -> (r: Option<IpAddress>)
    ensures
        r == match chosen_address(default_address.deep_view(), network_addresses.deep_view()) {
            Some(t) => parse_ip_spec(t),
            None => None::<IpAddress>,
        },
{
    match default_address {
        Some(d) => {
            if !d.as_str().is_empty() {
                return parse_ip(d.as_str());
            }
        },
        None => {},
    }
    let n = network_addresses.len();
    let mut i: usize = 0;
    while i < n
        invariant
            n == network_addresses@.len(),
            i <= n,
            forall|j: int| 0 <= j < i ==> network_addresses.deep_view()[j].len() == 0,
            chosen_address(default_address.deep_view(), network_addresses.deep_view())
                == first_nonempty(network_addresses.deep_view()),
        decreases n - i,
    {
        if !network_addresses[i].as_str().is_empty() {
            proof {
                let nets = network_addresses.deep_view();
                lemma_first_nonempty_skip(nets, i as int);
                assert(nets.subrange(i as int, nets.len() as int)[0] == nets[i as int]);
                assert(first_nonempty(nets) == Some(nets[i as int]));
            }
            return parse_ip(network_addresses[i].as_str());
        }
        i += 1;
    }
    proof {
        let nets = network_addresses.deep_view();
        lemma_first_nonempty_skip(nets, n as int);
        assert(nets.subrange(n as int, nets.len() as int).len() == 0);
    }
    None
}

} // verus!
