use vstd::prelude::*;

use vstd::std_specs::convert::FromSpecImpl;

use crate::fluid_properties::InvalidFluidId;

verus! {

/// Whether an edge between two volumes lets fluid flow one way or both ways.
#[derive(Clone, Copy, Debug, PartialEq, Eq, Hash, Structural)]
pub enum EdgeDirectionality {
    Uni,
    Bi,
}

impl EdgeDirectionality {
    /// The directed flow edges that an edge from `a` to `b` makes: always
    /// `(a, b)`, and also `(b, a)` when the edge is bidirectional.
    pub fn directed_pairs<K: Copy>(self, a: K, b: K) -> (pairs: Vec<(K, K)>)
        ensures
            self == EdgeDirectionality::Uni ==> pairs@ == seq![(a, b)],
            self == EdgeDirectionality::Bi ==> pairs@ == seq![(a, b), (b, a)],
    {
        let mut pairs: Vec<(K, K)> = Vec::new();
        pairs.push((a, b));
        match self {
            EdgeDirectionality::Bi => pairs.push((b, a)),
            EdgeDirectionality::Uni => {},
        }
        pairs
    }
}

/// An error that one of the queries of a simulation returned.
#[derive(Debug)]
pub struct FlowQueryError<E>(pub E);

/// What can go wrong while stepping a flow simulation.
#[derive(Debug)]
pub enum FlowSimulationError<K, E> {
    QueryError(FlowQueryError<E>),
    InvalidFluidId(InvalidFluidId),
    InvalidVolumeId(K),
}

impl<K, E> From<FlowQueryError<E>> for FlowSimulationError<K, E> {
    fn from(error: FlowQueryError<E>) -> (result: Self) {
        FlowSimulationError::QueryError(error)
    }
}

impl<K, E> FromSpecImpl<FlowQueryError<E>> for FlowSimulationError<K, E> {
    open spec fn obeys_from_spec() -> bool {
        true
    }

    open spec fn from_spec(v: FlowQueryError<E>) -> Self {
        FlowSimulationError::QueryError(v)
    }
}

impl<K, E> From<InvalidFluidId> for FlowSimulationError<K, E> {
    fn from(error: InvalidFluidId) -> (result: Self) {
        FlowSimulationError::InvalidFluidId(error)
    }
}

impl<K, E> FromSpecImpl<InvalidFluidId> for FlowSimulationError<K, E> {
    open spec fn obeys_from_spec() -> bool {
        true
    }

    open spec fn from_spec(v: InvalidFluidId) -> Self {
        FlowSimulationError::InvalidFluidId(v)
    }
}

/// `s` is sorted in ascending order (equal neighbours allowed).
pub open spec fn sorted_ascending(s: Seq<usize>) -> bool {
    forall|i: int, j: int| 0 <= i <= j < s.len() ==> s[i] <= s[j]
}

/// `a` and `b` have an element in common.
pub open spec fn have_common_element(a: Seq<usize>, b: Seq<usize>) -> bool {
    exists|i: int, j: int| 0 <= i < a.len() && 0 <= j < b.len() && a[i] == b[j]
}

/// Checks if `a` and `b` have common elements assuming they are sorted.
///
/// A `true` answer always names a real common element; on sorted input the
/// answer is exact.
pub fn does_common_edge_exist(a: &[usize], b: &[usize]) -> (common: bool)
    ensures
        common ==> have_common_element(a@, b@),
        sorted_ascending(a@) && sorted_ascending(b@) ==> (common <==> have_common_element(
            a@,
            b@,
        )),
{
    // `a@.take(a_len)` and `b@.take(b_len)` are what is left to search.
    let mut a_len: usize = a.len();
    let mut b_len: usize = b.len();
    loop
        invariant
            a_len <= a@.len(),
            b_len <= b@.len(),
            sorted_ascending(a@) && sorted_ascending(b@) ==> forall|i: int, j: int|
                0 <= i < a@.len() && 0 <= j < b@.len() && (i >= a_len || j >= b_len) ==> a@[i]
                    != b@[j],
        decreases a_len + b_len,
    {
        if a_len == 0 {
            return false;
        }
        if b_len == 0 {
            return false;
        }
        let a_last = a[a_len - 1];
        let b_last = b[b_len - 1];
        if a_last == b_last {
            return true;
        } else if a_last < b_last {
            // `a_last` is smaller than `b_last`, so `b_last` is in no common
            // pair: shrink `b` to get a smaller element.
            b_len = b_len - 1;
        } else {
            // `a_last` is greater than `b_last`: shrink `a`.
            a_len = a_len - 1;
        }
    }
}

/// The flow edges between the volumes of a simulation, with the volumes
/// named by their index in the order they were added.
///
/// Each flow edge goes from one volume to another. Each volume lists, in
/// ascending order, the edges that send fluid from it and those that send
/// fluid to it. Diffusion edges join two volumes in both directions.
pub struct FlowTopology {
    flow_edges: Vec<(usize, usize)>,
    send_edges: Vec<Vec<usize>>,
    receive_edges: Vec<Vec<usize>>,
    diffusion_edges: Vec<(usize, usize)>,
}

/// The edge lists of each volume, as sequences.
pub open spec fn edge_lists(lists: Seq<Vec<usize>>) -> Seq<Seq<usize>> {
    lists.map_values(|list: Vec<usize>| list@)
}

/// `s` is strictly ascending.
pub open spec fn strictly_ascending(s: Seq<usize>) -> bool {
    forall|i: int, j: int| 0 <= i < j < s.len() ==> s[i] < s[j]
}

/// The flow edges, the send lists and the receive lists of the volumes agree:
/// every edge joins two volumes; a volume's send list holds exactly the
/// edges that leave it, its receive list exactly those that enter it, both in
/// strictly ascending order; and every diffusion edge joins two volumes.
pub open spec fn topology_consistent(
    edges: Seq<(usize, usize)>,
    sends: Seq<Seq<usize>>,
    receives: Seq<Seq<usize>>,
    diffusion: Seq<(usize, usize)>,
) -> bool {
    &&& sends.len() == receives.len()
    &&& forall|e: int|
        0 <= e < edges.len() ==> (#[trigger] edges[e]).0 < sends.len() && edges[e].1 < sends.len()
    &&& forall|e: int|
        0 <= e < edges.len() ==> sends[edges[e].0 as int].contains(e as usize) && receives[edges[
            e
        ].1 as int].contains(e as usize)
    &&& forall|v: int|
        0 <= v < sends.len() ==> {
            &&& strictly_ascending(#[trigger] sends[v])
            &&& strictly_ascending(receives[v])
            &&& forall|k: int|
                0 <= k < sends[v].len() ==> #[trigger] sends[v][k] < edges.len() && edges[sends[v][k] as int].0
                    == v
            &&& forall|k: int|
                0 <= k < receives[v].len() ==> #[trigger] receives[v][k] < edges.len()
                    && edges[receives[v][k] as int].1 == v
        }
    &&& forall|d: int|
        0 <= d < diffusion.len() ==> (#[trigger] diffusion[d]).0 < sends.len() && diffusion[d].1
            < sends.len()
}

impl FlowTopology {
    #[verifier::type_invariant]
    spec fn consistent(self) -> bool {
        topology_consistent(
            self.flow_edges@,
            edge_lists(self.send_edges@),
            edge_lists(self.receive_edges@),
            self.diffusion_edges@,
        )
    }

    /// The flow edges, as (sending volume, receiving volume), by edge index.
    pub closed spec fn edges(&self) -> Seq<(usize, usize)> {
        self.flow_edges@
    }

    /// For each volume, the indices of the edges that send fluid from it.
    pub closed spec fn sends(&self) -> Seq<Seq<usize>> {
        edge_lists(self.send_edges@)
    }

    /// For each volume, the indices of the edges that send fluid to it.
    pub closed spec fn receives(&self) -> Seq<Seq<usize>> {
        edge_lists(self.receive_edges@)
    }

    /// The diffusion edges.
    pub closed spec fn diffusion(&self) -> Seq<(usize, usize)> {
        self.diffusion_edges@
    }

    /// A topology of no volumes and no edges.
    pub fn new() -> (topology: Self)
        ensures
            topology.edges() == Seq::<(usize, usize)>::empty(),
            topology.sends() == Seq::<Seq<usize>>::empty(),
            topology.receives() == Seq::<Seq<usize>>::empty(),
            topology.diffusion() == Seq::<(usize, usize)>::empty(),
            topology_consistent(topology.edges(), topology.sends(), topology.receives(), topology.diffusion()),
    {
        let topology = FlowTopology {
            flow_edges: Vec::new(),
            send_edges: Vec::new(),
            receive_edges: Vec::new(),
            diffusion_edges: Vec::new(),
        };
        assert(edge_lists(topology.send_edges@) =~= Seq::<Seq<usize>>::empty());
        assert(edge_lists(topology.receive_edges@) =~= Seq::<Seq<usize>>::empty());
        topology
    }

    /// The number of volumes.
    pub fn volume_count(&self) -> (count: usize)
        ensures
            count == self.sends().len(),
            count == self.receives().len(),
    {
        proof {
            use_type_invariant(self);
        }
        self.send_edges.len()
    }

    /// The number of flow edges.
    pub fn flow_edge_count(&self) -> (count: usize)
        ensures
            count == self.edges().len(),
    {
        self.flow_edges.len()
    }

    /// The volumes that a flow edge joins: (sending, receiving).
    pub fn flow_edge(&self, edge: usize) -> (ends: (usize, usize))
        requires
            edge < self.edges().len(),
        ensures
            ends == self.edges()[edge as int],
    {
        self.flow_edges[edge]
    }

    /// The edges that send fluid from a volume, in ascending order.
    pub fn send_edges(&self, volume: usize) -> (edges: &[usize])
        requires
            volume < self.sends().len(),
        ensures
            edges@ == self.sends()[volume as int],
    {
        self.send_edges[volume].as_slice()
    }

    /// The edges that send fluid to a volume, in ascending order.
    pub fn receive_edges(&self, volume: usize) -> (edges: &[usize])
        requires
            volume < self.receives().len(),
        ensures
            edges@ == self.receives()[volume as int],
    {
        proof {
            use_type_invariant(self);
        }
        self.receive_edges[volume].as_slice()
    }

    /// The diffusion edges, in the order they were added.
    pub fn diffusion_edges(&self) -> (edges: &[(usize, usize)])
        ensures
            edges@ == self.diffusion(),
    {
        self.diffusion_edges.as_slice()
    }
}

impl FlowTopology {
    /// Move the topology out, leaving an empty one in its place.
    fn take(&mut self) -> (taken: Self)
        ensures
            taken == *old(self),
            topology_consistent(taken.flow_edges@, edge_lists(taken.send_edges@), edge_lists(taken.receive_edges@), taken.diffusion_edges@),
    {
        let mut taken = FlowTopology::new();
        std::mem::swap(&mut taken, self);
        proof {
            use_type_invariant(&taken);
        }
        taken
    }

    /// Add a volume with no edges; its index is the number of volumes before.
    pub fn add_volume(&mut self) -> (volume: usize)
        ensures
            volume == old(self).sends().len(),
            final(self).edges() == old(self).edges(),
            final(self).sends() == old(self).sends().push(Seq::<usize>::empty()),
            topology_consistent(final(self).edges(), final(self).sends(), final(self).receives(), final(self).diffusion()),
            final(self).receives() == old(self).receives().push(Seq::<usize>::empty()),
            final(self).diffusion() == old(self).diffusion(),
    {
        let FlowTopology {
            flow_edges: edges,
            send_edges: mut sends,
            receive_edges: mut receives,
            diffusion_edges: diffusion,
        } = self.take();
        let ghost old_sends = sends@;
        let ghost old_receives = receives@;
        let volume = sends.len();
        sends.push(Vec::new());
        receives.push(Vec::new());
        proof {
            assert(edge_lists(sends@) =~= edge_lists(old_sends).push(Seq::<usize>::empty()));
            assert(edge_lists(receives@) =~= edge_lists(old_receives).push(
                Seq::<usize>::empty(),
            ));
            let edges = edges@;
            let s = edge_lists(sends@);
            let r = edge_lists(receives@);
            assert forall|e: int| 0 <= e < edges.len() implies s[edges[e].0 as int].contains(
                e as usize,
            ) && r[edges[e].1 as int].contains(e as usize) by {
                assert(s[edges[e].0 as int] == edge_lists(old_sends)[edges[e].0 as int]);
                assert(r[edges[e].1 as int] == edge_lists(old_receives)[edges[e].1 as int]);
            }
            assert forall|v: int| 0 <= v < s.len() implies {
                &&& strictly_ascending(#[trigger] s[v])
                &&& strictly_ascending(r[v])
                &&& forall|k: int|
                    0 <= k < s[v].len() ==> #[trigger] s[v][k] < edges.len() && edges[s[v][k] as int].0
                        == v
                &&& forall|k: int|
                    0 <= k < r[v].len() ==> #[trigger] r[v][k] < edges.len() && edges[r[v][k] as int].1
                        == v
            } by {
                if v < old_sends.len() {
                    assert(s[v] == edge_lists(old_sends)[v]);
                    assert(r[v] == edge_lists(old_receives)[v]);
                }
            }
            assert(topology_consistent(edges, s, r, diffusion@));
        }
        *self = FlowTopology {
            flow_edges: edges,
            send_edges: sends,
            receive_edges: receives,
            diffusion_edges: diffusion,
        };
        volume
    }

    /// Remove every flow edge, keeping the volumes and the diffusion edges.
    pub fn clear_flow_edges(&mut self)
        ensures
            final(self).edges() == Seq::<(usize, usize)>::empty(),
            final(self).sends() == Seq::new(old(self).sends().len(), |v: int| Seq::<usize>::empty()),
            final(self).receives() == Seq::new(
                old(self).receives().len(),
                |v: int| Seq::<usize>::empty(),
            ),
            final(self).diffusion() == old(self).diffusion(),
            topology_consistent(final(self).edges(), final(self).sends(), final(self).receives(), final(self).diffusion()),
    {
        let FlowTopology {
            flow_edges: _,
            send_edges: old_sends,
            receive_edges: _,
            diffusion_edges: diffusion,
        } = self.take();
        let n = old_sends.len();
        let mut sends: Vec<Vec<usize>> = Vec::new();
        let mut receives: Vec<Vec<usize>> = Vec::new();
        for v in 0..n
            invariant
                sends@.len() == v,
                receives@.len() == v,
                forall|k: int| 0 <= k < v ==> (#[trigger] sends@[k])@ == Seq::<usize>::empty(),
                forall|k: int| 0 <= k < v ==> (#[trigger] receives@[k])@ == Seq::<usize>::empty(),
        {
            sends.push(Vec::new());
            receives.push(Vec::new());
        }
        let mut edges: Vec<(usize, usize)> = Vec::new();
        proof {
            assert(edge_lists(sends@) =~= Seq::new(n as nat, |v: int| Seq::<usize>::empty()));
            assert(edge_lists(receives@) =~= Seq::new(n as nat, |v: int| Seq::<usize>::empty()));
        }
        *self = FlowTopology {
            flow_edges: edges,
            send_edges: sends,
            receive_edges: receives,
            diffusion_edges: diffusion,
        };
    }

    /// Add a flow edge from one volume to another. Its index is the number of
    /// flow edges before, and it joins the end of the sending volume's send
    /// list and of the receiving volume's receive list.
    pub fn add_flow_edge(&mut self, from: usize, to: usize) -> (edge: usize)
        requires
            from < old(self).sends().len(),
            to < old(self).sends().len(),
        ensures
            edge == old(self).edges().len(),
            final(self).edges() == old(self).edges().push((from, to)),
            final(self).sends() == old(self).sends().update(
                from as int,
                old(self).sends()[from as int].push(edge),
            ),
            final(self).receives() == old(self).receives().update(
                to as int,
                old(self).receives()[to as int].push(edge),
            ),
            final(self).diffusion() == old(self).diffusion(),
            topology_consistent(final(self).edges(), final(self).sends(), final(self).receives(), final(self).diffusion()),
    {
        let FlowTopology {
            flow_edges: mut edges,
            send_edges: mut sends,
            receive_edges: mut receives,
            diffusion_edges: diffusion,
        } = self.take();
        let ghost old_edges = edges@;
        let ghost old_s = edge_lists(sends@);
        let ghost old_r = edge_lists(receives@);
        let edge = edges.len();
        edges.push((from, to));
        let mut send_list: Vec<usize> = Vec::new();
        std::mem::swap(&mut send_list, &mut sends[from]);
        send_list.push(edge);
        sends.set(from, send_list);
        let mut receive_list: Vec<usize> = Vec::new();
        std::mem::swap(&mut receive_list, &mut receives[to]);
        receive_list.push(edge);
        receives.set(to, receive_list);
        proof {
            let s = edge_lists(sends@);
            let r = edge_lists(receives@);
            assert(s =~= old_s.update(from as int, old_s[from as int].push(edge)));
            assert(r =~= old_r.update(to as int, old_r[to as int].push(edge)));
            let edges_now = edges@;
            assert forall|e: int| 0 <= e < edges_now.len() implies s[edges_now[e].0 as int].contains(
                e as usize,
            ) && r[edges_now[e].1 as int].contains(e as usize) by {
                if e < old_edges.len() {
                    assert(edges_now[e] == old_edges[e]);
                    assert(old_s[old_edges[e].0 as int].contains(e as usize));
                    assert(old_r[old_edges[e].1 as int].contains(e as usize));
                    let i = choose|i: int|
                        0 <= i < old_s[old_edges[e].0 as int].len() && old_s[old_edges[e].0 as int][i]
                            == e as usize;
                    assert(s[edges_now[e].0 as int][i] == e as usize);
                    let j = choose|j: int|
                        0 <= j < old_r[old_edges[e].1 as int].len() && old_r[old_edges[e].1 as int][j]
                            == e as usize;
                    assert(r[edges_now[e].1 as int][j] == e as usize);
                } else {
                    assert(s[from as int].last() == edge);
                    assert(r[to as int].last() == edge);
                }
            }
            assert forall|v: int| 0 <= v < s.len() implies {
                &&& strictly_ascending(#[trigger] s[v])
                &&& strictly_ascending(r[v])
                &&& forall|k: int|
                    0 <= k < s[v].len() ==> #[trigger] s[v][k] < edges_now.len()
                        && edges_now[s[v][k] as int].0 == v
                &&& forall|k: int|
                    0 <= k < r[v].len() ==> #[trigger] r[v][k] < edges_now.len()
                        && edges_now[r[v][k] as int].1 == v
            } by {
                assert(strictly_ascending(old_s[v]));
                assert(strictly_ascending(old_r[v]));
                assert forall|k: int| 0 <= k < old_s[v].len() implies #[trigger] old_s[v][k]
                    < old_edges.len() && old_edges[old_s[v][k] as int].0 == v by {}
                assert forall|k: int| 0 <= k < old_r[v].len() implies #[trigger] old_r[v][k]
                    < old_edges.len() && old_edges[old_r[v][k] as int].1 == v by {}
            }
        }
        *self = FlowTopology {
            flow_edges: edges,
            send_edges: sends,
            receive_edges: receives,
            diffusion_edges: diffusion,
        };
        edge
    }

    /// Add a diffusion edge between two volumes.
    pub fn add_diffusion_edge(&mut self, a: usize, b: usize)
        requires
            a < old(self).sends().len(),
            b < old(self).sends().len(),
        ensures
            final(self).edges() == old(self).edges(),
            final(self).sends() == old(self).sends(),
            final(self).receives() == old(self).receives(),
            final(self).diffusion() == old(self).diffusion().push((a, b)),
            topology_consistent(final(self).edges(), final(self).sends(), final(self).receives(), final(self).diffusion()),
    {
        proof {
            use_type_invariant(&*self);
        }
        let mut diffusion: Vec<(usize, usize)> = Vec::new();
        std::mem::swap(&mut diffusion, &mut self.diffusion_edges);
        diffusion.push((a, b));
        self.diffusion_edges = diffusion;
    }
}

/// The edge lists of a consistent topology are sorted, so
/// `does_common_edge_exist` answers exactly on them; and the send list of one
/// volume shares an edge with the receive list of another exactly when a flow
/// edge goes from the first volume to the second.
pub proof fn lemma_common_edge_is_flow_edge(
    edges: Seq<(usize, usize)>,
    sends: Seq<Seq<usize>>,
    receives: Seq<Seq<usize>>,
    diffusion: Seq<(usize, usize)>,
    from: usize,
    to: usize,
)
    requires
        topology_consistent(edges, sends, receives, diffusion),
        from < sends.len(),
        to < sends.len(),
    ensures
        sorted_ascending(sends[from as int]),
        sorted_ascending(receives[to as int]),
        have_common_element(sends[from as int], receives[to as int]) <==> exists|e: int|
            0 <= e < edges.len() && #[trigger] edges[e] == (from, to),
{
    let s = sends[from as int];
    let r = receives[to as int];
    assert(strictly_ascending(s));
    assert(strictly_ascending(sends[to as int]));
    assert(strictly_ascending(r));
    assert forall|i: int, j: int| 0 <= i <= j < s.len() implies s[i] <= s[j] by {
        if i < j {
            assert(s[i] < s[j]);
        }
    }
    assert forall|i: int, j: int| 0 <= i <= j < r.len() implies r[i] <= r[j] by {
        if i < j {
            assert(r[i] < r[j]);
        }
    }
    if have_common_element(s, r) {
        let (i, j) = choose|i: int, j: int| 0 <= i < s.len() && 0 <= j < r.len() && s[i] == r[j];
        let e = s[i] as int;
        assert(edges[s[i] as int].0 == from);
        assert(r[j] < edges.len() && edges[r[j] as int].1 == to);
        assert(edges[e] == (from, to));
    }
    if exists|e: int| 0 <= e < edges.len() && #[trigger] edges[e] == (from, to) {
        let e = choose|e: int| 0 <= e < edges.len() && #[trigger] edges[e] == (from, to);
        assert(sends[edges[e].0 as int].contains(e as usize));
        assert(receives[edges[e].1 as int].contains(e as usize));
        let i = choose|i: int| 0 <= i < s.len() && s[i] == e as usize;
        let j = choose|j: int| 0 <= j < r.len() && r[j] == e as usize;
        assert(s[i] == r[j]);
    }
}

} // verus!
