//! Choosing ports to allocate. The choice depends on which ports the
//! operating system lets us bind right now, so it runs as a machine: it names
//! the next port to probe, is told whether the probe bound it, and finally
//! selects the ports or reports that none are left.
use vstd::prelude::*;
use vstd::string::*;

use crate::error::{PortaError, PortaResult};
use crate::ports::PortSet;
use crate::text::{decimal_string, decimal_text};

verus! {

/// One past the largest port number.
pub const PORT_LIMIT: u32 = 65536;

/// What the selector needs next.
#[derive(Debug)]
pub enum ProbeStep {
    /// Probe `port` by binding it, keeping the probe sockets open. When
    /// `release_held` is set, first close the sockets held so far: the
    /// candidate block they belonged to was abandoned.
    Probe { port: u16, release_held: bool },
    /// These ports are selected; keep their probe sockets until the registry
    /// commits.
    Selected(Vec<u16>),
    /// No selection is possible.
    Failed(PortaError),
}

pub open spec fn is_no_available_ports(error: PortaError) -> bool {
    error.code@ == "no_available_ports"@ && error.exit_code == 1
}

pub open spec fn is_invalid_port(error: PortaError) -> bool {
    error.code@ == "invalid_port"@ && error.exit_code == 2 && error.message@
        == "Port must be between 1 and 65535"@
}

/// The message of a failed search for `count` ports at or above `base`.
pub open spec fn no_available_message(base: u16, count: usize) -> Seq<char> {
    "Could not allocate "@ + decimal_text(count as nat) + " port(s) at or above "@ + decimal_text(
        base as nat,
    )
}

/// The ports `[start, start + len)`.
pub open spec fn block(start: int, len: int) -> Seq<u16> {
    Seq::new(len as nat, |i: int| (start + i) as u16)
}

pub open spec fn strictly_increasing(ports: Seq<u16>) -> bool {
    forall|i: int, j: int| 0 <= i < j < ports.len() ==> ports[i] < ports[j]
}

/// A sparse selection: the first `ports.len()` ports at or above `base` that
/// are neither registered nor answered busy.
pub open spec fn sparse_prefix(
    base: int,
    end: int,
    registered: Set<u16>,
    busy: Set<u16>,
    ports: Seq<u16>,
) -> bool {
    &&& strictly_increasing(ports)
    &&& forall|i: int|
        0 <= i < ports.len() ==> base <= #[trigger] ports[i] < end && !registered.contains(ports[i])
            && !busy.contains(ports[i])
    &&& forall|p: u16|
        base <= p < end && !registered.contains(p) && !busy.contains(p) ==> ports.contains(p)
}

/// Every candidate block start in `[base, start)` was given up because one of
/// its ports, recorded in `witness`, was registered or answered busy while
/// that block was probed.
pub open spec fn blocks_ruled_out(
    base: int,
    start: int,
    count: int,
    registered: Set<u16>,
    busy_in_block: Set<(u32, u16)>,
    witness: Map<u32, u16>,
) -> bool {
    forall|s: u32|
        base <= s < start ==> {
            &&& #[trigger] witness.contains_key(s)
            &&& s <= witness[s] < s + count
            &&& (registered.contains(witness[s]) || busy_in_block.contains((s, witness[s])))
        }
}

pub open spec fn no_available_error(error: PortaError) -> bool {
    is_no_available_ports(error)
}

/// Drives the choice of `count` ports at or above `base`.
pub struct PortSelector {
    base: u16,
    count: usize,
    contiguous: bool,
    registered: PortSet,
    start: u32,
    cursor: u32,
    chosen: Vec<u16>,
    release_pending: bool,
    busy: Ghost<Set<u16>>,
    busy_in_block: Ghost<Set<(u32, u16)>>,
    witness: Ghost<Map<u32, u16>>,
}

impl PortSelector {
    pub closed spec fn spec_base(&self) -> u16 {
        self.base
    }

    pub closed spec fn spec_count(&self) -> usize {
        self.count
    }

    pub closed spec fn spec_contiguous(&self) -> bool {
        self.contiguous
    }

    pub closed spec fn spec_registered(&self) -> Set<u16> {
        self.registered@
    }

    /// Ports answered busy so far (sparse selection).
    pub closed spec fn spec_busy(&self) -> Set<u16> {
        self.busy@
    }

    /// Ports answered busy so far, with the block start they were probed for
    /// (contiguous selection).
    pub closed spec fn spec_busy_in_block(&self) -> Set<(u32, u16)> {
        self.busy_in_block@
    }

    pub closed spec fn spec_witness(&self) -> Map<u32, u16> {
        self.witness@
    }

    pub closed spec fn spec_chosen(&self) -> Seq<u16> {
        self.chosen@
    }

    /// The next port to consider.
    pub closed spec fn spec_cursor(&self) -> u32 {
        self.cursor
    }

    /// The current candidate block start (contiguous selection).
    pub closed spec fn spec_start(&self) -> u32 {
        self.start
    }

    /// The last block start that leaves room for `count` ports.
    pub open spec fn last_start(&self) -> int {
        PORT_LIMIT - self.spec_count()
    }

    pub open spec fn is_done(&self) -> bool {
        self.spec_chosen().len() == self.spec_count()
    }

    pub open spec fn is_exhausted(&self) -> bool {
        !self.is_done() && if self.spec_contiguous() {
            self.spec_start() > self.last_start()
        } else {
            self.spec_cursor() >= PORT_LIMIT
        }
    }

    /// What the selector has established so far.
    pub open spec fn progress_ok(&self) -> bool {
        if self.spec_contiguous() {
            &&& self.spec_base() <= self.spec_start()
            &&& self.spec_chosen() == block(self.spec_start() as int, self.spec_chosen().len() as int)
            &&& self.spec_cursor() == self.spec_start() + self.spec_chosen().len()
            &&& forall|i: int|
                0 <= i < self.spec_chosen().len() ==> !self.spec_registered().contains(
                    #[trigger] self.spec_chosen()[i],
                )
            &&& blocks_ruled_out(
                self.spec_base() as int,
                self.spec_start() as int,
                self.spec_count() as int,
                self.spec_registered(),
                self.spec_busy_in_block(),
                self.spec_witness(),
            )
        } else {
            sparse_prefix(
                self.spec_base() as int,
                self.spec_cursor() as int,
                self.spec_registered(),
                self.spec_busy(),
                self.spec_chosen(),
            )
        }
    }

    /// The selector's internal consistency, kept by every step.
    pub closed spec fn inv(&self) -> bool {
        &&& 1 <= self.base
        &&& 1 <= self.count <= PORT_LIMIT - self.base
        &&& self.base <= self.cursor <= PORT_LIMIT
        &&& self.chosen@.len() <= self.count
        &&& self.contiguous ==> self.start <= PORT_LIMIT - self.count + 1
        &&& self.start <= PORT_LIMIT
        &&& self.progress_ok()
        &&& (!self.is_done() && !self.is_exhausted()) ==> self.cursor < PORT_LIMIT
            && !self.registered@.contains(self.cursor as u16)
        &&& !self.contiguous ==> !self.release_pending
        &&& !self.contiguous ==> forall|p: u16| #[trigger] self.busy@.contains(p) ==> p < self.cursor
    }

    /// The selector waits for the answer of a probe.
    pub open spec fn is_probing(&self) -> bool {
        !self.is_done() && !self.is_exhausted()
    }

    /// Moves past ports that cannot be chosen without probing: registered
    /// ports, and for a contiguous block every start whose block holds one.
    fn settle(&mut self)
        requires
            old(self).inv_except_settled(),
        ensures
            final(self).inv(),
            final(self).spec_base() == old(self).spec_base(),
            final(self).spec_count() == old(self).spec_count(),
            final(self).spec_contiguous() == old(self).spec_contiguous(),
            final(self).spec_registered() == old(self).spec_registered(),
            final(self).spec_busy() == old(self).spec_busy(),
            final(self).spec_busy_in_block() == old(self).spec_busy_in_block(),
            old(self).spec_chosen().len() == old(self).spec_count() ==> final(self).spec_chosen()
                == old(self).spec_chosen(),
            old(self).spec_contiguous() && old(self).release_pending ==> final(self).release_pending,
        decreases PORT_LIMIT + 1 - old(self).start, PORT_LIMIT - old(self).cursor,
    {
        if self.chosen.len() == self.count {
            return;
        }
        if self.contiguous {
            if self.start > PORT_LIMIT - self.count as u32 {
                return;
            }
            if self.registered.contains(self.cursor as u16) {
                let ghost failed = self.start;
                let ghost culprit = self.cursor as u16;
                self.witness = Ghost(self.witness@.insert(failed, culprit));
                self.start = self.start + 1;
                self.cursor = self.start;
                self.chosen = Vec::new();
                self.release_pending = true;
                proof {
                    assert(self.chosen@ =~= block(self.start as int, 0));
                    assert forall|s: u32|
                        self.base <= s < self.start implies {
                        &&& #[trigger] self.witness@.contains_key(s)
                        &&& s <= self.witness@[s] < s + self.count
                        &&& (self.registered@.contains(self.witness@[s])
                            || self.busy_in_block@.contains((s, self.witness@[s])))
                    } by {
                        if s != failed {
                            assert(old(self).witness@.contains_key(s));
                        }
                    }
                }
                self.settle();
            }
        } else {
            if self.cursor >= PORT_LIMIT {
                return;
            }
            if self.registered.contains(self.cursor as u16) {
                let ghost skipped = self.cursor as u16;
                self.cursor = self.cursor + 1;
                proof {
                    assert forall|p: u16|
                        self.base <= p < self.cursor && !self.registered@.contains(p)
                            && !self.busy@.contains(p) implies self.chosen@.contains(p) by {
                        if p != skipped {
                        }
                    }
                }
                self.settle();
            }
        }
    }

    /// Consistency except that the cursor may rest on a registered port.
    closed spec fn inv_except_settled(&self) -> bool {
        &&& 1 <= self.base
        &&& 1 <= self.count <= PORT_LIMIT - self.base
        &&& self.base <= self.cursor <= PORT_LIMIT
        &&& self.chosen@.len() <= self.count
        &&& self.contiguous ==> self.start <= PORT_LIMIT - self.count + 1
        &&& self.start <= PORT_LIMIT
        &&& self.progress_ok()
        &&& (!self.is_done() && !self.is_exhausted()) ==> self.cursor < PORT_LIMIT
        &&& !self.contiguous ==> !self.release_pending
        &&& !self.contiguous ==> forall|p: u16| #[trigger] self.busy@.contains(p) ==> p < self.cursor
    }

    /// A selector for `count` ports at or above `base`, avoiding `registered`.
    /// Fails when `base` is zero (`invalid_port`) or when `count` ports cannot
    /// fit at or above `base` (`no_available_ports`).
    pub fn new(base: u16, count: usize, contiguous: bool, registered: PortSet) -> (result:
        PortaResult<PortSelector>)
        ensures
            match result {
                Ok(selector) => {
                    &&& base >= 1 && 1 <= count <= PORT_LIMIT - base
                    &&& selector.inv()
                    &&& selector.spec_base() == base
                    &&& selector.spec_count() == count
                    &&& selector.spec_contiguous() == contiguous
                    &&& selector.spec_registered() == registered@
                    &&& selector.spec_busy() == Set::<u16>::empty()
                    &&& selector.spec_busy_in_block() == Set::<(u32, u16)>::empty()
                },
                Err(error) => if base == 0 {
                    is_invalid_port(error)
                } else {
                    &&& count == 0 || count > PORT_LIMIT - base
                    &&& is_no_available_ports(error)
                    &&& error.message@ == no_available_message(base, count)
                },
            },
    {
        if base == 0 {
            return Err(
                PortaError::invalid("invalid_port", String::from_str("Port must be between 1 and 65535")),
            );
        }
        if count == 0 || count as u64 > PORT_LIMIT as u64 - base as u64 {
            return Err(no_available(base, count));
        }
        let mut selector = PortSelector {
            base,
            count,
            contiguous,
            registered,
            start: base as u32,
            cursor: base as u32,
            chosen: Vec::new(),
            release_pending: false,
            busy: Ghost(Set::empty()),
            busy_in_block: Ghost(Set::empty()),
            witness: Ghost(Map::empty()),
        };
        assert(selector.chosen@ =~= block(base as int, 0));
        selector.settle();
        Ok(selector)
    }

    /// What the selector needs next.
    pub fn next_step(&self) -> (step: ProbeStep)
        requires
            self.inv(),
        ensures
            self.progress_ok(),
            match step {
                ProbeStep::Probe { port, release_held } => self.is_probing() && port
                    == self.spec_cursor() && !self.spec_registered().contains(port),
                ProbeStep::Selected(ports) => self.is_done() && ports@ == self.spec_chosen(),
                ProbeStep::Failed(error) => {
                    &&& self.is_exhausted()
                    &&& is_no_available_ports(error)
                    &&& error.message@ == no_available_message(
                        self.spec_base(),
                        self.spec_count(),
                    )
                },
            },
    {
        if self.chosen.len() == self.count {
            return ProbeStep::Selected(self.chosen.clone());
        }
        let exhausted = if self.contiguous {
            self.start > PORT_LIMIT - self.count as u32
        } else {
            self.cursor >= PORT_LIMIT
        };
        if exhausted {
            return ProbeStep::Failed(no_available(self.base, self.count));
        }
        ProbeStep::Probe { port: self.cursor as u16, release_held: self.release_pending }
    }

    /// Records whether the probed port was free.
    pub fn observe(&mut self, free: bool)
        requires
            old(self).inv(),
            old(self).is_probing(),
        ensures
            final(self).inv(),
            final(self).spec_base() == old(self).spec_base(),
            final(self).spec_count() == old(self).spec_count(),
            final(self).spec_contiguous() == old(self).spec_contiguous(),
            final(self).spec_registered() == old(self).spec_registered(),
            !old(self).spec_contiguous() ==> final(self).spec_busy() == (if free {
                old(self).spec_busy()
            } else {
                old(self).spec_busy().insert(old(self).spec_cursor() as u16)
            }),
            old(self).spec_contiguous() ==> final(self).spec_busy_in_block() == (if free {
                old(self).spec_busy_in_block()
            } else {
                old(self).spec_busy_in_block().insert(
                    (old(self).spec_start(), old(self).spec_cursor() as u16),
                )
            }),
    {
        let port = self.cursor as u16;
        if self.contiguous {
            if free {
                self.chosen.push(port);
                self.cursor = self.cursor + 1;
                self.release_pending = false;
                proof {
                    assert(self.chosen@ =~= block(self.start as int, self.chosen@.len() as int));
                }
            } else {
                let ghost failed = self.start;
                self.busy_in_block = Ghost(self.busy_in_block@.insert((failed, port)));
                self.witness = Ghost(self.witness@.insert(failed, port));
                self.start = self.start + 1;
                self.cursor = self.start;
                self.chosen = Vec::new();
                self.release_pending = true;
                proof {
                    assert(self.chosen@ =~= block(self.start as int, 0));
                    assert forall|s: u32|
                        self.base <= s < self.start implies {
                        &&& #[trigger] self.witness@.contains_key(s)
                        &&& s <= self.witness@[s] < s + self.count
                        &&& (self.registered@.contains(self.witness@[s])
                            || self.busy_in_block@.contains((s, self.witness@[s])))
                    } by {
                        if s != failed {
                            assert(old(self).witness@.contains_key(s));
                        }
                    }
                }
            }
        } else {
            let ghost before = self.chosen@;
            if free {
                self.chosen.push(port);
            } else {
                self.busy = Ghost(self.busy@.insert(port));
            }
            self.cursor = self.cursor + 1;
            proof {
                assert forall|i: int|
                    0 <= i < self.chosen@.len() implies self.base <= #[trigger] self.chosen@[i]
                    < self.cursor && !self.registered@.contains(self.chosen@[i])
                    && !self.busy@.contains(self.chosen@[i]) by {
                    if i == before.len() {
                        assert(!old(self).busy@.contains(port));
                    }
                    if i < before.len() {
                        assert(self.chosen@[i] == before[i]);
                        assert(old(self).chosen@[i] == before[i]);
                        assert(!old(self).busy@.contains(before[i]));
                        assert(before[i] < port);
                    }
                }
                assert forall|i: int, j: int| 0 <= i < j < self.chosen@.len() implies self.chosen@[i]
                    < self.chosen@[j] by {
                    if free && j == before.len() {
                        assert(before[i] < port);
                    }
                }
                assert forall|p: u16|
                    self.base <= p < self.cursor && !self.registered@.contains(p)
                        && !self.busy@.contains(p) implies self.chosen@.contains(p) by {
                    if p == port {
                        assert(self.chosen@[before.len() as int] == port);
                    } else {
                        assert(before.contains(p));
                        let k = choose|k: int| 0 <= k < before.len() && before[k] == p;
                        assert(self.chosen@[k] == p);
                    }
                }
            }
        }
        self.settle();
    }
}

fn no_available(base: u16, count: usize) -> (error: PortaError)
    ensures
        is_no_available_ports(error),
        error.message@ == no_available_message(base, count),
{
    let mut message = String::from_str("Could not allocate ");
    message.append(decimal_string(count as u64).as_str());
    message.append(" port(s) at or above ");
    message.append(decimal_string(base as u64).as_str());
    PortaError::missing("no_available_ports", message)
}

} // verus!
