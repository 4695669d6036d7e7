//! The netlist data model: components, the immutable `Network`, and the
//! builder that counts distinct non-ground nodes and voltage sources.

use vstd::prelude::*;

verus! {

/// The reserved ground node: it has no row in the system.
pub const GND: usize = 0;

/// A two-terminal component. All values are binary64 bit patterns.
#[derive(Debug, Clone, Copy)]
pub enum Component {
    /// A resistor between `a` and `b` with resistance `r`; the terminals are
    /// interchangeable.
    Resistor { a: usize, b: usize, r: u64 },
    /// An ideal current source: a constant current `i` flows from `n`
    /// through the source into `p`.
    CurrentSource { n: usize, p: usize, i: u64 },
    /// An ideal voltage source enforcing `V(p) - V(n) = v`; it contributes
    /// one extra unknown, its branch current.
    VoltageSource { n: usize, p: usize, v: u64 },
    /// A Shockley diode with anode `p` and cathode `n`, saturation current
    /// `isat` and temperature `t` (accepted but not used by the
    /// linearisation, which hard-codes the thermal voltage).
    Diode { n: usize, p: usize, isat: u64, t: u64 },
}

/// The number of voltage sources among `s[t..]`.
pub open spec fn vsrc_count_from(s: Seq<Component>, t: int) -> int
    decreases s.len() - t,
{
    if 0 <= t < s.len() {
        (if s[t] is VoltageSource {
            1int
        } else {
            0int
        }) + vsrc_count_from(s, t + 1)
    } else {
        0
    }
}

/// There are at most as many voltage sources in `s[t..]` as components, and
/// never a negative number of them.
pub proof fn lemma_vsrc_count_bounds(s: Seq<Component>, t: int)
    ensures
        0 <= vsrc_count_from(s, t) <= s.len() - t || vsrc_count_from(s, t) == 0,
        t >= 0 ==> 0 <= vsrc_count_from(s, t) <= s.len() - t || s.len() <= t,
    decreases s.len() - t,
{
    if 0 <= t < s.len() {
        lemma_vsrc_count_bounds(s, t + 1);
    }
}

/// Appending a component extends the count by one exactly for a voltage
/// source.
pub proof fn lemma_vsrc_count_push(s: Seq<Component>, c: Component, t: int)
    requires
        0 <= t <= s.len(),
    ensures
        vsrc_count_from(s.push(c), t) == vsrc_count_from(s, t) + (if c is VoltageSource {
            1int
        } else {
            0int
        }),
    decreases s.len() - t,
{
    if t < s.len() {
        lemma_vsrc_count_push(s, c, t + 1);
    } else {
        assert(s.push(c)[t] == c);
        assert(vsrc_count_from(s.push(c), t + 1) == 0);
        assert(vsrc_count_from(s, t) == 0);
    }
}

/// Every terminal of `c` is ground or one of the rows `1..=nn`.
pub open spec fn comp_nodes_ok(c: Component, nn: int) -> bool {
    match c {
        Component::Resistor { a, b, .. } => (a == 0 || a <= nn) && (b == 0 || b <= nn),
        Component::CurrentSource { n, p, .. } => (n == 0 || n <= nn) && (p == 0 || p <= nn),
        Component::VoltageSource { n, p, .. } => (n == 0 || n <= nn) && (p == 0 || p <= nn),
        Component::Diode { n, p, .. } => (n == 0 || n <= nn) && (p == 0 || p <= nn),
    }
}

/// The two terminals a component connects, in the order the builder
/// records them.
pub open spec fn terminal_pair(c: Component) -> (usize, usize) {
    match c {
        Component::Resistor { a, b, .. } => (a, b),
        Component::CurrentSource { n, p, .. } => (p, n),
        Component::VoltageSource { n, p, .. } => (p, n),
        Component::Diode { n, p, .. } => (p, n),
    }
}

/// A netlist: an ordered sequence of components plus the counts the stamper
/// needs. Immutable once built.
pub struct Network {
    /// The components, in netlist order.
    pub components: Vec<Component>,
    /// The number of distinct non-ground nodes.
    pub num_nodes: usize,
    /// The number of ideal voltage sources.
    pub num_vsrc: usize,
}

impl Network {
    /// The counts are consistent with the components, every referenced node
    /// id maps to a row (the non-ground ids form `1..=num_nodes`, see the
    /// builder), and the system built from the network fits in memory.
    pub open spec fn wf(self) -> bool {
        &&& self.num_vsrc == vsrc_count_from(self.components@, 0)
        &&& forall|t: int|
            0 <= t < self.components@.len() ==> comp_nodes_ok(
                #[trigger] self.components@[t],
                self.num_nodes as int,
            )
        &&& self.num_nodes + self.num_vsrc <= usize::MAX
        &&& (self.num_nodes + self.num_vsrc) * (self.num_nodes + self.num_vsrc + 1) <= usize::MAX
    }

    /// The components, in netlist order.
    pub fn iter(&self) -> (r: &Vec<Component>)
        ensures
            r@ == self.components@,
    {
        &self.components
    }

    /// Decide [`Network::wf`] at run time, for callers outside the verified
    /// world.
    pub fn check_well_formed(&self) -> (b: bool)
        ensures
            b == self.wf(),
    {
        let len: usize = self.components.len();
        let mut vcount: usize = 0;
        let mut nodes_ok: bool = true;
        let mut t: usize = 0;
        while t < len
            invariant
                len == self.components@.len(),
                t <= len,
                vcount <= t,
                vcount + vsrc_count_from(self.components@, t as int) == vsrc_count_from(
                    self.components@,
                    0,
                ),
                nodes_ok == forall|q: int|
                    0 <= q < t ==> comp_nodes_ok(
                        #[trigger] self.components@[q],
                        self.num_nodes as int,
                    ),
            decreases len - t,
        {
            let c: Component = self.components[t];
            let ok: bool = match c {
                Component::Resistor { a, b, .. } => (a == 0 || a <= self.num_nodes) && (b == 0 || b
                    <= self.num_nodes),
                Component::CurrentSource { n, p, .. } => (n == 0 || n <= self.num_nodes) && (p == 0
                    || p <= self.num_nodes),
                Component::VoltageSource { n, p, .. } => {
                    vcount = vcount + 1;
                    (n == 0 || n <= self.num_nodes) && (p == 0 || p <= self.num_nodes)
                },
                Component::Diode { n, p, .. } => (n == 0 || n <= self.num_nodes) && (p == 0 || p
                    <= self.num_nodes),
            };
            nodes_ok = nodes_ok && ok;
            t = t + 1;
        }
        proof {
            lemma_vsrc_count_bounds(self.components@, 0);
        }
        let counts_ok: bool = self.num_vsrc == vcount;
        let nn128: u128 = self.num_nodes as u128 + self.num_vsrc as u128;
        let fits: bool = if nn128 <= usize::MAX as u128 {
            proof {
                assert(nn128 * (nn128 + 1) < u128::MAX) by (nonlinear_arith)
                    requires
                        nn128 <= 0xFFFF_FFFF_FFFF_FFFFu128,
                ;
            }
            nn128 * (nn128 + 1) <= usize::MAX as u128
        } else {
            false
        };
        counts_ok && nodes_ok && fits
    }
}

/// Builds a [`Network`] one component at a time, keeping the set of node
/// ids seen so far (ground pre-seeded) and the running counts.
pub struct NetworkBuilder {
    /// The components added so far, in order.
    pub components: Vec<Component>,
    /// The distinct node ids seen, ground first.
    pub nodes: Vec<usize>,
    /// The number of distinct non-ground node ids seen.
    pub num_nodes: usize,
    /// The number of voltage sources added.
    pub num_vsrc: usize,
}

impl NetworkBuilder {
    /// The node list is duplicate-free, starts with ground, and the counts
    /// track it and the components.
    pub open spec fn wf(self) -> bool {
        &&& self.nodes@.len() == self.num_nodes + 1
        &&& self.nodes@[0] == 0
        &&& forall|p: int, q: int|
            0 <= p < q < self.nodes@.len() ==> self.nodes@[p] != self.nodes@[q]
        &&& self.num_vsrc == vsrc_count_from(self.components@, 0)
    }

    /// An empty builder: no components, only ground seen.
    pub fn new() -> (b: NetworkBuilder)
        ensures
            b.wf(),
            b.components@.len() == 0,
            b.num_nodes == 0,
            b.num_vsrc == 0,
            b.nodes@ =~= seq![GND],
            b.nodes@.to_set() == set![GND],
    {
        let mut nodes: Vec<usize> = Vec::new();
        nodes.push(GND);
        let b = NetworkBuilder { components: Vec::new(), nodes, num_nodes: 0, num_vsrc: 0 };
        proof {
            assert(b.nodes@.to_set() =~= set![GND]) by {
                assert(b.nodes@[0] == GND);
                assert(b.nodes@.contains(GND));
                assert forall|x: usize| b.nodes@.to_set().contains(x) implies x == GND by {
                    let w = choose|w: int| 0 <= w < b.nodes@.len() && b.nodes@[w] == x;
                    assert(b.nodes@[w] == x);
                }
            }
        }
        b
    }

    /// Whether `x` was seen before.
    fn contains_node(&self, x: usize) -> (b: bool)
        ensures
            b == self.nodes@.contains(x),
    {
        let len: usize = self.nodes.len();
        let mut t: usize = 0;
        while t < len
            invariant
                len == self.nodes@.len(),
                t <= len,
                forall|q: int| 0 <= q < t ==> self.nodes@[q] != x,
            decreases len - t,
        {
            if self.nodes[t] == x {
                return true;
            }
            t = t + 1;
        }
        proof {
            assert(!self.nodes@.contains(x));
        }
        false
    }

    /// Record the two terminals of a component, counting each node id the
    /// first time it appears.
    fn update_node_pair(&mut self, a: usize, b: usize)
        requires
            old(self).wf(),
        ensures
            final(self).wf(),
            final(self).components@ == old(self).components@,
            final(self).num_vsrc == old(self).num_vsrc,
            final(self).nodes@.to_set() == old(self).nodes@.to_set().insert(a).insert(b),
            final(self).num_nodes == old(self).num_nodes + (if old(self).nodes@.to_set().contains(
                a,
            ) {
                0int
            } else {
                1int
            }) + (if old(self).nodes@.to_set().insert(a).contains(b) {
                0int
            } else {
                1int
            }),
    {
        let ghost before = self.nodes@;
        if !self.contains_node(a) {
            self.nodes.push(a);
            let l: usize = self.nodes.len();
            self.num_nodes = l - 1;
            proof {
                assert forall|p: int, q: int|
                    0 <= p < q < self.nodes@.len() implies self.nodes@[p] != self.nodes@[q] by {
                    if q == self.nodes@.len() - 1 {
                        assert(before.contains(self.nodes@[p]) == false || true);
                        assert(self.nodes@[p] == before[p]);
                    }
                }
            }
        }
        proof {
            assert(self.nodes@.to_set() =~= before.to_set().insert(a)) by {
                if before.contains(a) {
                    assert(self.nodes@ == before);
                    assert(before.to_set().contains(a));
                    assert(self.nodes@.to_set() =~= before.to_set().insert(a));
                } else {
                    assert(self.nodes@ == before.push(a));
                    assert forall|x: usize| self.nodes@.to_set().contains(x) implies before.to_set()
                        .insert(a).contains(x) by {
                        let w = choose|w: int| 0 <= w < self.nodes@.len() && self.nodes@[w] == x;
                        assert(self.nodes@.contains(x));
                        let wi = choose|wi: int|
                            0 <= wi < self.nodes@.len() && self.nodes@[wi] == x;
                        if wi < before.len() {
                            assert(before[wi] == x);
                            assert(before.contains(x));
                        }
                    }
                    assert forall|x: usize| before.to_set().insert(a).contains(x) implies self
                        .nodes@.to_set().contains(x) by {
                        if x == a {
                            assert(self.nodes@[self.nodes@.len() - 1] == a);
                            assert(self.nodes@.contains(a));
                        } else {
                            assert(before.contains(x));
                            let wi = choose|wi: int| 0 <= wi < before.len() && before[wi] == x;
                            assert(self.nodes@[wi] == x);
                            assert(self.nodes@.contains(x));
                        }
                    }
                }
            }
        }
        let ghost mid = self.nodes@;
        if !self.contains_node(b) {
            self.nodes.push(b);
            let l: usize = self.nodes.len();
            self.num_nodes = l - 1;
            proof {
                assert forall|p: int, q: int|
                    0 <= p < q < self.nodes@.len() implies self.nodes@[p] != self.nodes@[q] by {
                    if q == self.nodes@.len() - 1 {
                        assert(self.nodes@[p] == mid[p]);
                    }
                }
            }
        }
        proof {
            assert(self.nodes@.to_set() =~= mid.to_set().insert(b)) by {
                if mid.contains(b) {
                    assert(self.nodes@ == mid);
                    assert(self.nodes@.to_set() =~= mid.to_set().insert(b));
                } else {
                    assert(self.nodes@ == mid.push(b));
                    assert forall|x: usize| self.nodes@.to_set().contains(x) implies mid.to_set()
                        .insert(b).contains(x) by {
                        let wi = choose|wi: int|
                            0 <= wi < self.nodes@.len() && self.nodes@[wi] == x;
                        if wi < mid.len() {
                            assert(mid[wi] == x);
                            assert(mid.contains(x));
                        }
                    }
                    assert forall|x: usize| mid.to_set().insert(b).contains(x) implies self.nodes@
                        .to_set().contains(x) by {
                        if x == b {
                            assert(self.nodes@[self.nodes@.len() - 1] == b);
                            assert(self.nodes@.contains(b));
                        } else {
                            assert(mid.contains(x));
                            let wi = choose|wi: int| 0 <= wi < mid.len() && mid[wi] == x;
                            assert(self.nodes@[wi] == x);
                            assert(self.nodes@.contains(x));
                        }
                    }
                }
            }
        }
    }

    /// Add one component: record its terminals, count it if it is a voltage
    /// source, and append it. The node set grows by exactly the component's
    /// two terminals, and `num_nodes` by the number of them not seen before
    /// (ground was seen from the start, so it is never counted).
    pub fn add_component(self, component: Component) -> (r: NetworkBuilder)
        requires
            self.wf(),
        ensures
            r.wf(),
            r.components@ == self.components@.push(component),
            r.num_vsrc == self.num_vsrc + (if component is VoltageSource {
                1int
            } else {
                0int
            }),
            r.nodes@.to_set() == self.nodes@.to_set().insert(terminal_pair(component).0).insert(
                terminal_pair(component).1,
            ),
            r.num_nodes == self.num_nodes + (if self.nodes@.to_set().contains(
                terminal_pair(component).0,
            ) {
                0int
            } else {
                1int
            }) + (if self.nodes@.to_set().insert(terminal_pair(component).0).contains(
                terminal_pair(component).1,
            ) {
                0int
            } else {
                1int
            }),
    {
        let mut b = self;
        match component {
            Component::Resistor { a: ta, b: tb, .. } => {
                b.update_node_pair(ta, tb);
            },
            Component::Diode { p, n, .. } => {
                b.update_node_pair(p, n);
            },
            Component::CurrentSource { p, n, .. } => {
                b.update_node_pair(p, n);
            },
            Component::VoltageSource { p, n, .. } => {
                b.update_node_pair(p, n);
            },
        }
        let ghost comps0 = b.components@;
        b.components.push(component);
        proof {
            lemma_vsrc_count_push(comps0, component, 0);
        }
        if matches!(component, Component::VoltageSource { .. }) {
            let l: usize = b.components.len();
            proof {
                lemma_vsrc_count_bounds(b.components@, 0);
            }
            b.num_vsrc = b.num_vsrc + 1;
        }
        b
    }

    /// Freeze the builder into a network.
    pub fn build(self) -> (net: Network)
        requires
            self.wf(),
        ensures
            net.components@ == self.components@,
            net.num_nodes == self.num_nodes,
            net.num_vsrc == self.num_vsrc,
            net.num_vsrc == vsrc_count_from(net.components@, 0),
    {
        Network {
            components: self.components,
            num_nodes: self.num_nodes,
            num_vsrc: self.num_vsrc,
        }
    }
}

} // verus!
