//! The port and packet protocol: the minimal state exchanged across one
//! connection of a flow graph.
//!
//! A port owns a single-slot buffer in each direction, so at most one
//! message object is in flight per hop and direction. Control messages
//! travel backward (from an input port to the connected output port) and
//! data messages travel forward; either kind may carry a previously used
//! buffer of the opposite kind back to its producer for reuse.

use vstd::prelude::*;

verus! {

/// A message travelling across one connection.
///
/// Within a flow graph the payload in backward direction during the first
/// phase contains a control message; in forward direction during the
/// second phase it contains the actual data message.
#[derive(Debug, Clone, Copy)]
pub struct Packet<P, B> {
    /// The payload
    pub payload: P,

    /// Optional pre-allocated data of the complementary message kind,
    /// returned to the opposite end of the connection for reuse
    pub piggyback: Option<B>,
}

/// An input or output port of a processing node.
///
/// Ports have two generic parameters for packet data:
///   - `I`: incoming data
///   - `O`: outgoing data
///
/// Input ports accept packets with an incoming data payload in forward
/// direction and dispatch packets with an outgoing control payload in
/// backward direction. Output ports accept packets with an incoming
/// control payload in backward direction and dispatch packets with an
/// outgoing data payload in forward direction.
#[derive(Debug, Clone, Copy)]
pub struct Port<I, O> {
    /// A slot (a buffer with capacity 1) for the payload of an
    /// acceptable (incoming) packet
    pub incoming: Option<I>,

    /// A slot (a buffer with capacity 1) for the payload of a
    /// dispatchable (outgoing) packet
    pub outgoing: Option<O>,
}

impl<I, O> Port<I, O> {
    /// True when neither slot of the port holds a pending payload.
    pub open spec fn is_vacant(self) -> bool {
        self.incoming is None && self.outgoing is None
    }

    pub fn new() -> (port: Self)
        ensures
            port.is_vacant(),
    {
        Self { incoming: None, outgoing: None }
    }

    /// Accept a packet with an incoming payload.
    ///
    /// The incoming slot must be vacant: a pending message has to be
    /// fully drained before the next one may be sent across the
    /// connection (single-slot discipline).
    pub fn accept_packet(&mut self, packet: Packet<I, O>)
        requires
            old(self).incoming is None,
        ensures
            final(self).incoming == Some(packet.payload),
            final(self).outgoing == packet.piggyback,
    {
        let Packet { payload: incoming, piggyback: outgoing } = packet;
        self.incoming = Some(incoming);
        self.outgoing = outgoing;
    }

    /// Try to dispatch a packet with an outgoing payload.
    ///
    /// Returns nothing if no outgoing payload is queued; this is the
    /// normal case for a port that currently carries no demand or whose
    /// value is still current. A dispatched packet carries the pending
    /// incoming payload back as its piggyback, emptying both slots.
    pub fn try_dispatch_packet(&mut self) -> (packet: Option<Packet<O, I>>)
        ensures
            match old(self).outgoing {
                Some(payload) => {
                    &&& packet == (Some(Packet { payload, piggyback: old(self).incoming }))
                    &&& final(self).is_vacant()
                }
                None => {
                    &&& packet is None
                    &&& *final(self) == *old(self)
                }
            },
    {
        if let Some(outgoing) = self.outgoing.take() {
            Some(Packet { payload: outgoing, piggyback: self.incoming.take() })
        } else {
            None
        }
    }
}

impl<I, O> Default for Port<I, O> {
    fn default() -> (port: Self)
        ensures
            port.is_vacant(),
    {
        Port::new()
    }
}

/// The 0-based index of an input or output port within a node.
///
/// Whether it denotes an input or an output port is not encoded in the
/// type and implicitly follows from the context.
#[derive(Debug, Clone, Copy, Hash, Eq, PartialEq, Ord, PartialOrd, Structural)]
pub struct PortIndex(usize);

impl View for PortIndex {
    type V = int;

    closed spec fn view(&self) -> int {
        self.0 as int
    }
}

/// A port index is never negative: it is backed by a machine word.
pub broadcast proof fn lemma_port_index_nonnegative(port_index: PortIndex)
    ensures
        0 <= #[trigger] port_index@ < usize::MAX + 1,
{
}

impl PortIndex {
    pub fn new(index: usize) -> (port_index: Self)
        ensures
            port_index@ == index,
    {
        Self(index)
    }

    /// The raw index value.
    pub fn get(self) -> (index: usize)
        ensures
            index == self@,
    {
        self.0
    }
}

/// An indexed collection of ports
pub trait PortBay<I, O> {
    /// The current state of every port in this bay, in index order.
    spec fn bay_view(&self) -> Seq<Port<I, O>>;

    /// The number of ports in this bay
    ///
    /// Port indexes are 0-based in the range 0..num_ports().
    fn num_ports(&self) -> (n: usize)
        ensures
            n == self.bay_view().len(),
    ;

    /// Receive and store an incoming packet for the given port
    fn accept_packet(&mut self, port_index: PortIndex, packet: Packet<I, O>)
        requires
            port_index@ < old(self).bay_view().len(),
            old(self).bay_view()[port_index@].incoming is None,
        ensures
            final(self).bay_view() == old(self).bay_view().update(
                port_index@,
                (Port { incoming: Some(packet.payload), outgoing: packet.piggyback }),
            ),
    ;

    /// Fetch and dispatch an outgoing packet from the given port
    fn try_dispatch_packet(&mut self, port_index: PortIndex) -> (packet: Option<Packet<O, I>>)
        requires
            port_index@ < old(self).bay_view().len(),
        ensures
            match old(self).bay_view()[port_index@].outgoing {
                Some(payload) => {
                    &&& packet == (Some(
                        Packet { payload, piggyback: old(self).bay_view()[port_index@].incoming },
                    ))
                    &&& final(self).bay_view() == old(self).bay_view().update(
                        port_index@,
                        (Port::<I, O> { incoming: None, outgoing: None }),
                    )
                }
                None => {
                    &&& packet is None
                    &&& final(self).bay_view() == old(self).bay_view()
                }
            },
    ;
}

/// A fixed-size collection of ports backed by a vector
#[derive(Debug, Clone)]
pub struct VecPortBay<I, O> {
    ports: Vec<Port<I, O>>,
}

impl<I, O> View for VecPortBay<I, O> {
    type V = Seq<Port<I, O>>;

    closed spec fn view(&self) -> Seq<Port<I, O>> {
        self.ports@
    }
}

impl<I, O> VecPortBay<I, O> {
    pub fn new(num_ports: usize) -> (bay: Self)
        ensures
            bay@.len() == num_ports,
            forall|i: int| 0 <= i < num_ports ==> (#[trigger] bay@[i]).is_vacant(),
    {
        let mut ports: Vec<Port<I, O>> = Vec::with_capacity(num_ports);
        let mut i: usize = 0;
        while i < num_ports
            invariant
                i <= num_ports,
                ports@.len() == i,
                forall|j: int| 0 <= j < i ==> (#[trigger] ports@[j]).is_vacant(),
            decreases num_ports - i,
        {
            ports.push(Port::new());
            i += 1;
        }
        Self { ports }
    }

    /// All ports of the bay, in index order.
    pub fn ports(&self) -> (ports: &Vec<Port<I, O>>)
        ensures
            ports@ == self@,
    {
        &self.ports
    }

    /// Mutable access to all ports of the bay, in index order.
    pub fn ports_mut(&mut self) -> (ports: &mut Vec<Port<I, O>>)
        ensures
            ports@ == old(self)@,
            final(self)@ == final(ports)@,
    {
        &mut self.ports
    }

    pub fn port(&self, port_index: PortIndex) -> (port: &Port<I, O>)
        requires
            port_index@ < self@.len(),
        ensures
            *port == self@[port_index@],
    {
        let index = port_index.get();
        &self.ports[index]
    }

    pub fn port_mut(&mut self, port_index: PortIndex) -> (port: &mut Port<I, O>)
        requires
            port_index@ < old(self)@.len(),
        ensures
            *port == old(self)@[port_index@],
            final(self)@ == old(self)@.update(port_index@, *final(port)),
    {
        let index = port_index.get();
        &mut self.ports[index]
    }
}

impl<I, O> Default for VecPortBay<I, O> {
    fn default() -> (bay: Self)
        ensures
            bay@.len() == 0,
    {
        Self { ports: Vec::new() }
    }
}

impl<I, O> PortBay<I, O> for VecPortBay<I, O> {
    open spec fn bay_view(&self) -> Seq<Port<I, O>> {
        self@
    }

    fn num_ports(&self) -> (n: usize) {
        self.ports.len()
    }

    fn accept_packet(&mut self, port_index: PortIndex, packet: Packet<I, O>) {
        self.port_mut(port_index).accept_packet(packet);
    }

    fn try_dispatch_packet(&mut self, port_index: PortIndex) -> (packet: Option<Packet<O, I>>) {
        self.port_mut(port_index).try_dispatch_packet()
    }
}

impl From<PortIndex> for usize {
    fn from(from: PortIndex) -> (index: usize)
        ensures
            index == from@,
    {
        from.0
    }
}

impl vstd::std_specs::convert::FromSpecImpl<PortIndex> for usize {
    open spec fn obeys_from_spec() -> bool {
        true
    }

    open spec fn from_spec(from: PortIndex) -> usize {
        from@ as usize
    }
}

} // verus!
