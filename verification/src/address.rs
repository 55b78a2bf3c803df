//! Where a server can be reached, and how that address is settled: by a port
//! mapping on the gateway if one can be had, else by the host's own public
//! IPv6 address.
//!
//! A mapping is a lease on the gateway. Renewing it is not part of this crate:
//! a server that outlives the lease stays connected to the clients it has, and
//! may become unreachable to new ones.

use crate::error::ReachabilityError;
use vstd::prelude::*;

verus! {

/// An IP address as the number that its bits spell, most significant first.
#[derive(Clone, Copy, Debug, PartialEq, Eq, Structural)]
pub enum IpAddress {
    V4(u32),
    V6(u128),
}

/// An IP address and a port. A session does not change the address it began
/// with.
#[derive(Clone, Copy, Debug, PartialEq, Eq, Structural)]
pub struct Address {
    pub ip: IpAddress,
    pub port: u16,
}

impl Address {
    /// Whether this is an IPv6 address.
    pub fn is_ipv6(&self) -> (six: bool)
        ensures
            six == (self.ip is V6),
    {
        match self.ip {
            IpAddress::V4(_) => false,
            IpAddress::V6(_) => true,
        }
    }
}

/// The address to advertise, and the way it was come by.
#[derive(Clone, Copy, Debug, PartialEq, Eq, Structural)]
pub enum Resolution {
    /// The gateway forwards the port to this host's local address.
    Mapped(Address),
    /// The host's own public address, reachable without a mapping.
    Direct(Address),
}

impl Resolution {
    /// The address to advertise.
    pub fn address(&self) -> (address: Address)
        ensures
            address == match *self {
                Resolution::Mapped(a) => a,
                Resolution::Direct(a) => a,
            },
    {
        match *self {
            Resolution::Mapped(a) => a,
            Resolution::Direct(a) => a,
        }
    }
}

/// How far a resolution has come.
#[derive(Clone, Copy, Debug, PartialEq, Eq, Structural)]
pub enum ResolverPhase {
    /// Nothing has been tried.
    Idle,
    /// The gateway has been asked for a mapping.
    Mapping,
    /// The mapping failed; the public IPv6 address is being looked up.
    Discovering,
    /// An address has been settled.
    Resolved(Resolution),
    /// No address could be settled. No server may be started.
    Failed,
}

/// What has happened outside since the resolver last asked for something.
#[derive(Clone, Copy, Debug, PartialEq, Eq, Structural)]
pub enum ResolverEvent {
    /// Resolution is to begin.
    Start,
    /// The gateway forwards `port` to this host, whose local address is `local`.
    Mapped { local: IpAddress, port: u16 },
    /// The gateway maps, but this host's local address could not be read back.
    LocalAddressUnknown,
    /// The gateway does not map: unsupported, denied or timed out.
    MappingFailed,
    /// The lookup of the public address came back with this address.
    Discovered(IpAddress),
    /// The lookup of the public address failed.
    DiscoveryFailed,
}

/// What the shell is to do next.
#[derive(Clone, Copy, Debug, PartialEq, Eq, Structural)]
pub enum ResolverAction {
    /// Ask the gateway to map this port, and read back the local address.
    RequestMapping(u16),
    /// Look up this host's public IPv6 address.
    DiscoverIpv6,
    /// Resolution is over, with this address.
    Report(Resolution),
    /// Resolution is over, without an address.
    GiveUp(ReachabilityError),
    /// The event does not belong here. Nothing has changed.
    Ignore,
}

/// What the gateway answered to the request for a mapping.
#[derive(Clone, Copy, Debug, PartialEq, Eq, Structural)]
pub enum MappingOutcome {
    /// It maps: this is the host's local address with the mapped port.
    Mapped(Address),
    /// It maps, but the host's local address could not be read back.
    LocalAddressUnknown,
    /// It does not map.
    Unavailable,
}

/// Settles the address of a server that wants to listen on a given port.
#[derive(Clone, Copy, Debug, PartialEq, Eq, Structural)]
pub struct Resolver {
    pub port: u16,
    pub phase: ResolverPhase,
}

/// The phase that follows `phase` on `event`, and what is to be done, for a
/// server that prefers `port`.
pub open spec fn resolver_step(port: u16, phase: ResolverPhase, event: ResolverEvent) -> (
    ResolverPhase,
    ResolverAction,
) {
    match (phase, event) {
        (ResolverPhase::Idle, ResolverEvent::Start) => (
            ResolverPhase::Mapping,
            ResolverAction::RequestMapping(port),
        ),
        (ResolverPhase::Mapping, ResolverEvent::Mapped { local, port: mapped }) => {
            let found = Resolution::Mapped(Address { ip: local, port: mapped });
            (ResolverPhase::Resolved(found), ResolverAction::Report(found))
        },
        (ResolverPhase::Mapping, ResolverEvent::LocalAddressUnknown) => (
            ResolverPhase::Failed,
            ResolverAction::GiveUp(ReachabilityError),
        ),
        (ResolverPhase::Mapping, ResolverEvent::MappingFailed) => (
            ResolverPhase::Discovering,
            ResolverAction::DiscoverIpv6,
        ),
        (ResolverPhase::Discovering, ResolverEvent::Discovered(IpAddress::V6(bits))) => {
            let found = Resolution::Direct(Address { ip: IpAddress::V6(bits), port });
            (ResolverPhase::Resolved(found), ResolverAction::Report(found))
        },
        (ResolverPhase::Discovering, ResolverEvent::Discovered(IpAddress::V4(_))) => (
            ResolverPhase::Failed,
            ResolverAction::GiveUp(ReachabilityError),
        ),
        (ResolverPhase::Discovering, ResolverEvent::DiscoveryFailed) => (
            ResolverPhase::Failed,
            ResolverAction::GiveUp(ReachabilityError),
        ),
        _ => (phase, ResolverAction::Ignore),
    }
}

/// What a whole resolution comes to, given what the gateway and the lookup
/// would answer: the mapped address if the gateway maps and the local address
/// is known; nothing if it maps and the local address is not known, for then
/// there is a mapping and no address to advertise it with; else the public
/// IPv6 address with the preferred port unchanged; else nothing.
pub open spec fn resolved(port: u16, mapping: MappingOutcome, lookup: Option<IpAddress>) -> Result<
    Resolution,
    ReachabilityError,
> {
    match mapping {
        MappingOutcome::Mapped(address) => Ok(Resolution::Mapped(address)),
        MappingOutcome::LocalAddressUnknown => Err(ReachabilityError),
        MappingOutcome::Unavailable => match lookup {
            Some(IpAddress::V6(bits)) => Ok(
                Resolution::Direct(Address { ip: IpAddress::V6(bits), port }),
            ),
            _ => Err(ReachabilityError),
        },
    }
}

/// The event by which the shell reports what the gateway answered.
pub open spec fn mapping_event(mapping: MappingOutcome) -> ResolverEvent {
    match mapping {
        MappingOutcome::Mapped(address) => ResolverEvent::Mapped {
            local: address.ip,
            port: address.port,
        },
        MappingOutcome::LocalAddressUnknown => ResolverEvent::LocalAddressUnknown,
        MappingOutcome::Unavailable => ResolverEvent::MappingFailed,
    }
}

/// The event by which the shell reports what the lookup answered.
pub open spec fn lookup_event(lookup: Option<IpAddress>) -> ResolverEvent {
    match lookup {
        Some(ip) => ResolverEvent::Discovered(ip),
        None => ResolverEvent::DiscoveryFailed,
    }
}

/// Taken step by step, a resolution comes to what `resolved` says: the lookup
/// is asked for only when the gateway does not map, and the last step reports
/// the address or gives up.
pub proof fn lemma_steps_resolve(port: u16, mapping: MappingOutcome, lookup: Option<IpAddress>)
    ensures
        ({
            let begun = resolver_step(port, ResolverPhase::Idle, ResolverEvent::Start);
            let mapped = resolver_step(port, begun.0, mapping_event(mapping));
            let last = if mapping is Unavailable {
                resolver_step(port, mapped.0, lookup_event(lookup))
            } else {
                mapped
            };
            &&& begun.1 == ResolverAction::RequestMapping(port)
            &&& mapping is Unavailable ==> mapped.1 == ResolverAction::DiscoverIpv6
            &&& match resolved(port, mapping, lookup) {
                Ok(found) => last == (
                    ResolverPhase::Resolved(found),
                    ResolverAction::Report(found),
                ),
                Err(fault) => last == (ResolverPhase::Failed, ResolverAction::GiveUp(fault)),
            }
        }),
{
}

/// When the gateway does not map, a lookup that finds an IPv6 address still
/// settles one: resolution does not fail as a whole, and the address it
/// reports is that IPv6 address with the preferred port.
pub proof fn lemma_fallback_reaches_ipv6(port: u16, bits: u128)
    ensures
        ({
            let begun = resolver_step(port, ResolverPhase::Idle, ResolverEvent::Start);
            let denied = resolver_step(port, begun.0, ResolverEvent::MappingFailed);
            let found = resolver_step(
                port,
                denied.0,
                ResolverEvent::Discovered(IpAddress::V6(bits)),
            );
            let address = Address { ip: IpAddress::V6(bits), port };
            &&& begun.1 == ResolverAction::RequestMapping(port)
            &&& denied.1 == ResolverAction::DiscoverIpv6
            &&& found.1 == ResolverAction::Report(Resolution::Direct(address))
            &&& found.0 == ResolverPhase::Resolved(Resolution::Direct(address))
        }),
        resolved(port, MappingOutcome::Unavailable, Some(IpAddress::V6(bits))) == Ok::<
            Resolution,
            ReachabilityError,
        >(
            Resolution::Direct(Address { ip: IpAddress::V6(bits), port }),
        ),
{
}

/// A mapping whose local address cannot be read back ends the resolution
/// without an address: the failure is reported, not passed over.
pub proof fn lemma_unreadable_mapping_gives_up(port: u16, lookup: Option<IpAddress>)
    ensures
        resolver_step(port, ResolverPhase::Mapping, ResolverEvent::LocalAddressUnknown) == (
            ResolverPhase::Failed,
            ResolverAction::GiveUp(ReachabilityError),
        ),
        resolved(port, MappingOutcome::LocalAddressUnknown, lookup) == Err::<
            Resolution,
            ReachabilityError,
        >(ReachabilityError),
{
}

/// Once an address is settled or resolution has failed, nothing changes it.
pub proof fn lemma_resolution_is_final(port: u16, phase: ResolverPhase, event: ResolverEvent)
    requires
        phase is Resolved || phase is Failed,
    ensures
        resolver_step(port, phase, event) == (phase, ResolverAction::Ignore),
{
}

impl Resolver {
    /// A resolver for a server that prefers `port`.
    pub fn new(port: u16) -> (resolver: Resolver)
        ensures
            resolver == (Resolver { port, phase: ResolverPhase::Idle }),
    {
        Resolver { port, phase: ResolverPhase::Idle }
    }

    /// Takes in `event` and tells what is to be done next.
    pub fn step(&mut self, event: ResolverEvent) -> (action: ResolverAction)
        ensures
            final(self).port == old(self).port,
            (final(self).phase, action) == resolver_step(old(self).port, old(self).phase, event),
    {
        let (phase, action) = match (self.phase, event) {
            (ResolverPhase::Idle, ResolverEvent::Start) => (
                ResolverPhase::Mapping,
                ResolverAction::RequestMapping(self.port),
            ),
            (ResolverPhase::Mapping, ResolverEvent::Mapped { local, port }) => {
                let found = Resolution::Mapped(Address { ip: local, port });
                (ResolverPhase::Resolved(found), ResolverAction::Report(found))
            },
            (ResolverPhase::Mapping, ResolverEvent::LocalAddressUnknown) => (
                ResolverPhase::Failed,
                ResolverAction::GiveUp(ReachabilityError),
            ),
            (ResolverPhase::Mapping, ResolverEvent::MappingFailed) => (
                ResolverPhase::Discovering,
                ResolverAction::DiscoverIpv6,
            ),
            (ResolverPhase::Discovering, ResolverEvent::Discovered(IpAddress::V6(bits))) => {
                let address = Address { ip: IpAddress::V6(bits), port: self.port };
                let found = Resolution::Direct(address);
                (ResolverPhase::Resolved(found), ResolverAction::Report(found))
            },
            (ResolverPhase::Discovering, ResolverEvent::Discovered(IpAddress::V4(_))) => (
                ResolverPhase::Failed,
                ResolverAction::GiveUp(ReachabilityError),
            ),
            (ResolverPhase::Discovering, ResolverEvent::DiscoveryFailed) => (
                ResolverPhase::Failed,
                ResolverAction::GiveUp(ReachabilityError),
            ),
            (phase, _) => (phase, ResolverAction::Ignore),
        };
        self.phase = phase;
        action
    }
}

/// Settles the address for a server that prefers `port`, from what the gateway
/// answered and what the lookup of the public address answered.
pub fn resolve(port: u16, mapping: MappingOutcome, lookup: Option<IpAddress>) -> (outcome: Result<
    Resolution,
    ReachabilityError,
>)
    ensures
        outcome == resolved(port, mapping, lookup),
{
    let mut resolver = Resolver::new(port);
    resolver.step(ResolverEvent::Start);
    let event = match mapping {
        MappingOutcome::Mapped(address) => ResolverEvent::Mapped {
            local: address.ip,
            port: address.port,
        },
        MappingOutcome::LocalAddressUnknown => ResolverEvent::LocalAddressUnknown,
        MappingOutcome::Unavailable => ResolverEvent::MappingFailed,
    };
    let mut action = resolver.step(event);
    if let ResolverAction::DiscoverIpv6 = action {
        action = resolver.step(
            match lookup {
                Some(ip) => ResolverEvent::Discovered(ip),
                None => ResolverEvent::DiscoveryFailed,
            },
        );
    }
    match action {
        ResolverAction::Report(found) => Ok(found),
        _ => Err(ReachabilityError),
    }
}

} // verus!
