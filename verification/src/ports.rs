//! Serial ports as the program lists and chooses them.

use vstd::prelude::*;

verus! {

/// A serial port as the system lists it: its name, and whether the system knows
/// what kind of port it is.
pub struct PortEntry {
    pub port_name: String,
    pub known_type: bool,
}

/// A port as the dashboard window lists it.
pub struct LeanPort {
    pub port_name: String,
    pub port_exists: bool,
}

/// The ports for the dashboard window, last listed first; a port exists when the
/// system knows its kind.
pub fn lean_ports(ports: Vec<PortEntry>) -> (lean: Vec<LeanPort>)
    ensures
        lean@.len() == ports@.len(),
        forall|i: int|
            0 <= i < lean@.len() ==> {
                &&& (#[trigger] lean@[i]).port_name@ == ports@[ports@.len() - 1 - i].port_name@
                &&& lean@[i].port_exists == ports@[ports@.len() - 1 - i].known_type
            },
{
    let ghost all = ports@;
    let mut rest = ports;
    let mut lean: Vec<LeanPort> = Vec::new();
    while rest.len() > 0
        invariant
            rest@ == all.take(rest@.len() as int),
            lean@.len() + rest@.len() == all.len(),
            forall|i: int|
                0 <= i < lean@.len() ==> {
                    &&& (#[trigger] lean@[i]).port_name@ == all[all.len() - 1 - i].port_name@
                    &&& lean@[i].port_exists == all[all.len() - 1 - i].known_type
                },
        decreases rest.len(),
    {
        let ghost before = rest@;
        match rest.pop() {
            Some(p) => {
                proof {
                    assert(p == all[before.len() - 1]);
                    assert(rest@ =~= all.take(rest@.len() as int));
                }
                lean.push(LeanPort { port_name: p.port_name, port_exists: p.known_type });
            },
            None => {},
        }
    }
    lean
}

/// The names of the ports whose kind is known, in the order listed.
pub open spec fn known_port_names(ports: Seq<PortEntry>) -> Seq<Seq<char>>
    decreases ports.len(),
{
    if ports.len() == 0 {
        Seq::empty()
    } else if ports.last().known_type {
        known_port_names(ports.drop_last()).push(ports.last().port_name@)
    } else {
        known_port_names(ports.drop_last())
    }
}

/// Every port whose kind is known is listed, in the order the ports come, and no
/// other: the names listed are those of the known ports at increasing positions
/// `idx`, and every position of a known port, the first included, is among them.
pub proof fn lemma_known_port_names(ports: Seq<PortEntry>) -> (idx: Seq<int>)
    ensures
        idx.len() == known_port_names(ports).len(),
        forall|j: int|
            0 <= j < idx.len() ==> {
                &&& 0 <= #[trigger] idx[j] < ports.len()
                &&& ports[idx[j]].known_type
                &&& known_port_names(ports)[j] == ports[idx[j]].port_name@
            },
        forall|j: int, k: int| 0 <= j < k < idx.len() ==> idx[j] < idx[k],
        forall|i: int|
            0 <= i < ports.len() && (#[trigger] ports[i]).known_type ==> exists|j: int|
                0 <= j < idx.len() && idx[j] == i,
    decreases ports.len(),
{
    if ports.len() == 0 {
        Seq::empty()
    } else {
        let init = ports.drop_last();
        let last = ports.len() - 1;
        let idx0 = lemma_known_port_names(init);
        let idx = if ports.last().known_type {
            idx0.push(last)
        } else {
            idx0
        };
        assert forall|j: int| 0 <= j < idx.len() implies {
            &&& 0 <= #[trigger] idx[j] < ports.len()
            &&& ports[idx[j]].known_type
            &&& known_port_names(ports)[j] == ports[idx[j]].port_name@
        } by {
            if j < idx0.len() {
                assert(idx[j] == idx0[j]);
                assert(init[idx0[j]] == ports[idx0[j]]);
            }
        }
        assert forall|i: int| 0 <= i < ports.len() && (#[trigger] ports[i]).known_type implies exists|
            j: int,
        | 0 <= j < idx.len() && idx[j] == i by {
            if i < last {
                assert(init[i] == ports[i]);
                let j = choose|j: int| 0 <= j < idx0.len() && idx0[j] == i;
                assert(idx[j] == i);
            } else {
                assert(idx[idx.len() - 1] == i);
            }
        }
        idx
    }
}

/// The names of the ports the receiver may use: those whose kind is known.
pub fn usable_ports(ports: &Vec<PortEntry>) -> (names: Vec<String>)
    ensures
        names@.map_values(|s: String| s@) == known_port_names(ports@),
{
    let mut names: Vec<String> = Vec::new();
    let mut i: usize = 0;
    while i < ports.len()
        invariant
            i <= ports.len(),
            names@.map_values(|s: String| s@) == known_port_names(ports@.take(i as int)),
        decreases ports.len() - i,
    {
        proof {
            assert(ports@.take(i + 1).drop_last() =~= ports@.take(i as int));
        }
        if ports[i].known_type {
            let name = ports[i].port_name.clone();
            proof {
                assert(ports@.take(i + 1).last() == ports@[i as int]);
            }
            names.push(name);
            proof {
                assert(names@.map_values(|s: String| s@) =~= known_port_names(ports@.take(i as int)).push(
                    ports@[i as int].port_name@,
                ));
            }
        }
        i += 1;
    }
    proof {
        assert(ports@.take(i as int) =~= ports@);
    }
    names
}

/// How a port is picked from those found.
#[derive(Clone, Copy, Debug, PartialEq, Eq, Structural)]
pub enum PortSelection {
    /// No port was found.
    NoPort,
    /// Exactly one port was found, and it is used.
    OnlyPort,
    /// Several were found; the user picks one by its position.
    AskUser,
}

/// Picks how to choose among `count` ports.
pub fn port_selection(count: usize) -> (s: PortSelection)
    ensures
        count == 0 ==> s == PortSelection::NoPort,
        count == 1 ==> s == PortSelection::OnlyPort,
        count > 1 ==> s == PortSelection::AskUser,
{
    if count == 0 {
        PortSelection::NoPort
    } else if count == 1 {
        PortSelection::OnlyPort
    } else {
        PortSelection::AskUser
    }
}

} // verus!
