//! The server's registry of opened ports, and the handling of requests to
//! open and to close ports.
//!
//! The registry maps a port to the handle of whatever serves it. The library
//! never looks inside a handle: it stores it, and hands it back when the port
//! is closed, for the caller to cancel.

use crate::protocol::{Response, ResponseView};
use std::collections::HashMap;
use vstd::prelude::*;
use vstd::std_specs::hash::*;

verus! {

broadcast use vstd::std_specs::hash::group_hash_axioms;

/// The ports that are open, each with the handle of its listener.
pub struct PortRegistry<H> {
    open_ports: HashMap<u16, H>,
}

impl<H> View for PortRegistry<H> {
    type V = Map<u16, H>;

    closed spec fn view(&self) -> Map<u16, H> {
        self.open_ports@
    }
}

/// The ports that a request to close `ports` reports, given the set `open` of
/// registered ports: each requested port that is registered, in request
/// order, at its first occurrence only.
pub open spec fn closed_list(open: Set<u16>, ports: Seq<u16>) -> Seq<u16>
    decreases ports.len(),
{
    if ports.len() == 0 {
        Seq::empty()
    } else {
        let before = ports.drop_last();
        let port = ports.last();
        if open.contains(port) && !before.contains(port) {
            closed_list(open, before).push(port)
        } else {
            closed_list(open, before)
        }
    }
}

/// What a request to close ports took out of the registry.
pub struct ClosedPorts<H> {
    /// The ports that were registered, in request order.
    pub ports: Vec<u16>,
    /// Their handles, in the same order, for the caller to cancel.
    pub handles: Vec<H>,
}

impl<H> PortRegistry<H> {
    /// A registry with no port open.
    pub fn new() -> (registry: Self)
        ensures
            registry@ == Map::<u16, H>::empty(),
    {
        PortRegistry { open_ports: HashMap::new() }
    }

    /// Whether `port` is registered.
    pub fn is_open(&self, port: u16) -> (open: bool)
        ensures
            open == self@.contains_key(port),
    {
        self.open_ports.contains_key(&port)
    }

    /// How many ports are registered.
    pub fn len(&self) -> (n: usize)
        ensures
            n == self@.len(),
    {
        self.open_ports.len()
    }

    /// Registers `port` with the handle of its listener. A port that is
    /// registered already keeps its listener: the registry is left as it was
    /// and the new handle comes back.
    pub fn register(&mut self, port: u16, handle: H) -> (refused: Option<H>)
        ensures
            old(self)@.contains_key(port) ==> refused == Some(handle) && final(self)@ == old(self)@,
            !old(self)@.contains_key(port) ==> refused is None && final(self)@ == old(self)@.insert(port, handle),
    {
        if self.open_ports.contains_key(&port) {
            Some(handle)
        } else {
            self.open_ports.insert(port, handle);
            None
        }
    }

    /// Takes `port` out of the registry and returns its handle. A port that
    /// is not registered changes nothing and returns none.
    pub fn close(&mut self, port: u16) -> (handle: Option<H>)
        ensures
            final(self)@ == old(self)@.remove(port),
            !old(self)@.contains_key(port) ==> final(self)@ == old(self)@,
            handle == if old(self)@.contains_key(port) {
                Some(old(self)@[port])
            } else {
                None
            },
    {
        let handle = self.open_ports.remove(&port);
        proof {
            if !old(self)@.contains_key(port) {
                assert(old(self)@.remove(port) =~= old(self)@);
            }
        }
        handle
    }

    /// Closes each of `ports` that is registered, in the order given, and
    /// skips the others without complaint.
    pub fn close_ports(&mut self, ports: &Vec<u16>) -> (closed: ClosedPorts<H>)
        ensures
            closed.ports@ == closed_list(old(self)@.dom(), ports@),
            closed.handles@.len() == closed.ports@.len(),
            forall|i: int|
                0 <= i < closed.ports@.len() ==> closed.handles@[i] == old(self)@[closed.ports@[i]],
            final(self)@ == old(self)@.remove_keys(ports@.to_set()),
    {
        let mut closed: Vec<u16> = Vec::new();
        let mut handles: Vec<H> = Vec::new();
        let mut i: usize = 0;
        proof {
            assert(ports@.take(0) =~= Seq::<u16>::empty());
            assert(ports@.take(0).to_set() =~= Set::<u16>::empty());
            assert(self@.remove_keys(Set::<u16>::empty()) =~= self@);
        }
        while i < ports.len()
            invariant
                i <= ports@.len(),
                closed@ == closed_list(old(self)@.dom(), ports@.take(i as int)),
                handles@.len() == closed@.len(),
                forall|k: int| 0 <= k < closed@.len() ==> handles@[k] == old(self)@[closed@[k]],
                self@ == old(self)@.remove_keys(ports@.take(i as int).to_set()),
            decreases ports@.len() - i,
        {
            let port: u16 = ports[i];
            let ghost before = ports@.take(i as int);
            let ghost now = ports@.take(i + 1);
            proof {
                assert(now.drop_last() =~= before);
                assert(now.last() == port);
                assert(before.to_set().contains(port) <==> before.contains(port));
                assert forall|p: u16| now.to_set().contains(p) <==> (before.to_set().contains(p)
                    || p == port) by {
                    if before.contains(p) {
                        let k = choose|k: int| 0 <= k < before.len() && before[k] == p;
                        assert(now[k] == p);
                    }
                    if now.contains(p) && p != port {
                        let k = choose|k: int| 0 <= k < now.len() && now[k] == p;
                        assert(before[k] == p);
                    }
                    if p == port {
                        assert(now[i as int] == p);
                    }
                }
                assert(now.to_set() =~= before.to_set().insert(port));
            }
            match self.close(port) {
                Some(handle) => {
                    closed.push(port);
                    handles.push(handle);
                },
                None => {},
            }
            proof {
                assert(self@ =~= old(self)@.remove_keys(now.to_set()));
            }
            i += 1;
        }
        proof {
            assert(ports@.take(i as int) =~= ports@);
        }
        ClosedPorts { ports: closed, handles }
    }
}

/// The first position at or after `from` whose port is not in `open`; the
/// length of `ports` if every port from there on is in `open`.
pub open spec fn next_unregistered(open: Set<u16>, ports: Seq<u16>, from: int) -> int
    decreases ports.len() - from,
{
    if from < 0 || from >= ports.len() || !open.contains(ports[from]) {
        from
    } else {
        next_unregistered(open, ports, from + 1)
    }
}

/// Opening ports that are all registered already needs no bind: the handling
/// passes over all of them at once.
pub proof fn lemma_registered_ports_need_no_bind(open: Set<u16>, ports: Seq<u16>, from: int)
    requires
        0 <= from <= ports.len(),
        forall|i: int| from <= i < ports.len() ==> open.contains(ports[i]),
    ensures
        next_unregistered(open, ports, from) == ports.len(),
    decreases ports.len() - from,
{
    if from < ports.len() {
        lemma_registered_ports_need_no_bind(open, ports, from + 1);
    }
}

/// What the handling of a request to open ports asks for next.
#[derive(Debug, Clone, Copy, PartialEq, Eq, Structural)]
pub enum OpenStep {
    /// Bind a listener on this port, which is not registered, and report how
    /// it went.
    Bind(u16),
    /// Every requested port has been dealt with.
    Done,
}

/// The handling of one request to open ports: the ports requested, how far
/// the handling has come, and the ports reported as opened so far.
///
/// The caller holds the registry for the whole of the handling and drives it:
/// `advance` names the next port that needs a listener, the caller binds it
/// and reports the outcome with `bound` or `bind_failed`, until `advance`
/// says `Done`.
pub struct OpenPortsJob {
    ports: Vec<u16>,
    next: usize,
    opened: Vec<u16>,
}

impl OpenPortsJob {
    /// The handling has not run past the end of its request.
    pub closed spec fn well_formed(&self) -> bool {
        self.next <= self.ports@.len()
    }

    /// The ports requested, in request order.
    pub closed spec fn requested(&self) -> Seq<u16> {
        self.ports@
    }

    /// How many of the requested ports have been dealt with.
    pub closed spec fn position(&self) -> int {
        self.next as int
    }

    /// The ports reported as opened so far, in request order.
    pub closed spec fn opened(&self) -> Seq<u16> {
        self.opened@
    }

    /// Whether a port is waiting for the outcome of its bind.
    pub open spec fn pending(&self) -> bool {
        self.position() < self.requested().len()
    }

    /// Starts the handling of a request for `ports`.
    pub fn new(ports: Vec<u16>) -> (job: Self)
        ensures
            job.well_formed(),
            job.requested() == ports@,
            job.position() == 0,
            job.opened() == Seq::<u16>::empty(),
    {
        OpenPortsJob { ports, next: 0, opened: Vec::new() }
    }

    /// Moves past every port that is registered already, reporting each as
    /// opened without a second listener, and stops at the first port that is
    /// not registered, or at the end.
    pub fn advance<H>(&mut self, registry: &PortRegistry<H>) -> (step: OpenStep)
        requires
            old(self).well_formed(),
        ensures
            final(self).well_formed(),
            final(self).requested() == old(self).requested(),
            final(self).position() == next_unregistered(
                registry@.dom(),
                old(self).requested(),
                old(self).position(),
            ),
            old(self).position() <= final(self).position() <= old(self).requested().len(),
            forall|i: int|
                old(self).position() <= i < final(self).position() ==> registry@.contains_key(
                    old(self).requested()[i],
                ),
            final(self).opened() == old(self).opened() + old(self).requested().subrange(
                old(self).position(),
                final(self).position(),
            ),
            match step {
                OpenStep::Bind(port) => final(self).pending() && port == old(self).requested()[final(self).position()] && !registry@.contains_key(port),
                OpenStep::Done => !final(self).pending(),
            },
    {
        proof {
            assert(self.opened@ =~= old(self).opened@ + self.ports@.subrange(
                self.next as int,
                self.next as int,
            ));
        }
        let mut next: usize = self.next;
        let mut opened: Vec<u16> = Vec::new();
        while next < self.ports.len() && registry.is_open(self.ports[next])
            invariant
                self.ports@ == old(self).ports@,
                old(self).next <= next <= self.ports@.len(),
                forall|i: int| old(self).next <= i < next ==> registry@.contains_key(self.ports@[i]),
                opened@ == self.ports@.subrange(old(self).next as int, next as int),
                next_unregistered(registry@.dom(), self.ports@, old(self).next as int)
                    == next_unregistered(registry@.dom(), self.ports@, next as int),
            decreases self.ports@.len() - next,
        {
            opened.push(self.ports[next]);
            proof {
                assert(opened@ =~= self.ports@.subrange(old(self).next as int, next + 1));
            }
            next += 1;
        }
        self.opened.append(&mut opened);
        self.next = next;
        if next < self.ports.len() {
            OpenStep::Bind(self.ports[next])
        } else {
            OpenStep::Done
        }
    }

    /// Reports that the pending port now has a listener, with `handle`: the
    /// port is registered and reported as opened. Should the port be
    /// registered already, or no port be pending, the handle comes back.
    pub fn bound<H>(&mut self, registry: &mut PortRegistry<H>, handle: H) -> (refused: Option<H>)
        requires
            old(self).well_formed(),
        ensures
            final(self).well_formed(),
            final(self).requested() == old(self).requested(),
            !old(self).pending() ==> {
                &&& final(self).position() == old(self).position()
                &&& final(self).opened() == old(self).opened()
                &&& final(registry)@ == old(registry)@
                &&& refused == Some(handle)
            },
            old(self).pending() ==> {
                let port = old(self).requested()[old(self).position()];
                &&& final(self).position() == old(self).position() + 1
                &&& final(self).opened() == old(self).opened().push(port)
                &&& old(registry)@.contains_key(port) ==> refused == Some(handle) && final(registry)@ == old(registry)@
                &&& !old(registry)@.contains_key(port) ==> refused is None && final(registry)@
                    == old(registry)@.insert(port, handle)
            },
    {
        if self.next < self.ports.len() {
            let port: u16 = self.ports[self.next];
            self.opened.push(port);
            self.next = self.next + 1;
            registry.register(port, handle)
        } else {
            Some(handle)
        }
    }

    /// Reports that the pending port could not be bound: it is passed over
    /// and not reported.
    pub fn bind_failed(&mut self)
        requires
            old(self).well_formed(),
        ensures
            final(self).well_formed(),
            final(self).requested() == old(self).requested(),
            final(self).opened() == old(self).opened(),
            final(self).position() == if old(self).pending() {
                old(self).position() + 1
            } else {
                old(self).position()
            },
    {
        if self.next < self.ports.len() {
            self.next = self.next + 1;
        }
    }

    /// The answer to the request: the ports reported as opened.
    pub fn finish(self) -> (response: Response)
        ensures
            response@ == (ResponseView::PortsOpened { ports: self.opened() }),
    {
        Response::PortsOpened { ports: self.opened }
    }
}

/// A port is reported closed exactly when it was registered and was asked
/// for: closing a port that is not registered reports nothing.
pub proof fn lemma_closed_list_members(open: Set<u16>, ports: Seq<u16>, port: u16)
    ensures
        closed_list(open, ports).contains(port) <==> open.contains(port) && ports.contains(port),
    decreases ports.len(),
{
    if ports.len() == 0 {
    } else {
        let before = ports.drop_last();
        let last = ports.last();
        lemma_closed_list_members(open, before, port);
        let shorter = closed_list(open, before);
        if ports.contains(port) {
            let k = choose|k: int| 0 <= k < ports.len() && ports[k] == port;
            if k < before.len() {
                assert(before[k] == port);
            }
        }
        if before.contains(port) {
            let k = choose|k: int| 0 <= k < before.len() && before[k] == port;
            assert(ports[k] == port);
        }
        assert(ports[ports.len() - 1] == last);
        if open.contains(last) && !before.contains(last) {
            let longer = shorter.push(last);
            assert(longer[longer.len() - 1] == last);
            if shorter.contains(port) {
                let k = choose|k: int| 0 <= k < shorter.len() && shorter[k] == port;
                assert(longer[k] == port);
            }
            if longer.contains(port) && port != last {
                let k = choose|k: int| 0 <= k < longer.len() && longer[k] == port;
                assert(shorter[k] == port);
            }
        }
    }
}

/// A request to close ports of which none is registered reports nothing and
/// leaves the registry as it was.
pub proof fn lemma_close_unregistered<H>(registry: Map<u16, H>, ports: Seq<u16>)
    requires
        forall|i: int| 0 <= i < ports.len() ==> !registry.contains_key(ports[i]),
    ensures
        closed_list(registry.dom(), ports) == Seq::<u16>::empty(),
        registry.remove_keys(ports.to_set()) == registry,
    decreases ports.len(),
{
    if ports.len() > 0 {
        lemma_close_unregistered(registry, ports.drop_last());
    }
    assert forall|port: u16| ports.to_set().contains(port) implies !registry.contains_key(
        port,
    ) by {
        let k = choose|k: int| 0 <= k < ports.len() && ports[k] == port;
    }
    assert(registry.remove_keys(ports.to_set()) =~= registry);
}

/// No port is reported closed twice, however often it was asked for.
pub proof fn lemma_closed_list_no_duplicates(open: Set<u16>, ports: Seq<u16>)
    ensures
        closed_list(open, ports).no_duplicates(),
    decreases ports.len(),
{
    if ports.len() > 0 {
        let before = ports.drop_last();
        let last = ports.last();
        lemma_closed_list_no_duplicates(open, before);
        lemma_closed_list_members(open, before, last);
        let shorter = closed_list(open, before);
        if open.contains(last) && !before.contains(last) {
            assert forall|i: int, j: int|
                0 <= i < shorter.len() + 1 && 0 <= j < shorter.len() + 1 && i != j implies shorter.push(
                last,
            )[i] != shorter.push(last)[j] by {
                if i < shorter.len() && j < shorter.len() {
                } else if i < shorter.len() {
                    assert(shorter.contains(shorter[i]));
                } else {
                    assert(shorter.contains(shorter[j]));
                }
            }
        }
    }
}

} // verus!
