//! A set of TCP ports, stored as one mark per port number.
use vstd::prelude::*;

verus! {

pub const PORT_COUNT: usize = 65536;

/// A set of port numbers.
pub struct PortSet {
    marks: Vec<bool>,
}

impl PortSet {
    #[verifier::type_invariant]
    spec fn marks_cover_all_ports(self) -> bool {
        self.marks@.len() == PORT_COUNT
    }

    pub closed spec fn view(&self) -> Set<u16> {
        Set::new(|port: u16| self.marks@[port as int])
    }

    /// The empty set.
    pub fn new() -> (set: PortSet)
        ensures
            set@ == Set::<u16>::empty(),
    {
        let mut marks: Vec<bool> = Vec::new();
        let mut i: usize = 0;
        while i < PORT_COUNT
            invariant
                i <= PORT_COUNT,
                marks@.len() == i,
                forall|j: int| 0 <= j < i ==> !marks@[j],
            decreases PORT_COUNT - i,
        {
            marks.push(false);
            i = i + 1;
        }
        let set = PortSet { marks };
        assert(set@ =~= Set::<u16>::empty());
        set
    }

    pub fn contains(&self, port: u16) -> (present: bool)
        ensures
            present == self@.contains(port),
    {
        proof {
            use_type_invariant(self);
        }
        self.marks[port as usize]
    }

    /// The set with `port` added.
    pub fn insert(self, port: u16) -> (set: PortSet)
        ensures
            set@ == self@.insert(port),
    {
        proof {
            use_type_invariant(&self);
        }
        let PortSet { mut marks } = self;
        marks.set(port as usize, true);
        let set = PortSet { marks };
        assert(set@ =~= self@.insert(port));
        set
    }

    /// The set of the ports in `ports`.
    pub fn from_ports(ports: &Vec<u16>) -> (set: PortSet)
        ensures
            set@ == ports@.to_set(),
    {
        let mut set = PortSet::new();
        let mut i: usize = 0;
        assert(ports@.take(0).to_set() =~= Set::<u16>::empty());
        while i < ports.len()
            invariant
                i <= ports@.len(),
                set@ == ports@.take(i as int).to_set(),
            decreases ports@.len() - i,
        {
            set = set.insert(ports[i]);
            assert(ports@.take(i + 1) =~= ports@.take(i as int).push(ports@[i as int]));
            proof {
                ports@.take(i as int).lemma_push_to_set_commute(ports@[i as int]);
            }
            i = i + 1;
        }
        assert(ports@.take(ports@.len() as int) =~= ports@);
        set
    }
}

} // verus!
