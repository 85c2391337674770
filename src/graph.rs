use vstd::prelude::*;
use crate::driver::{Dispatch, OpKind};
use crate::node::{zero_buffer, BDRVReopenState, BdrvChild, BdrvChildRole, BlockDriverState, BlockReopenQueue, NodeState};
use crate::perm::{
    check_perms, edge_perms, edge_within_child, perms_compatible, perms_ok, perm_subset,
    read_only_flags, siblings_agree, allowed_for,
};
use crate::registry::DriverRegistry;
use crate::types::{AioContext, Error, QDict};

verus! {

/// Open flag: the node is opened for writing.
pub const BDRV_O_RDWR: i32 = 2;

/// An arena of device nodes and the edges between them, addressed by stable
/// handles (indices that are never reused).
pub struct BlockGraph {
    nodes: Vec<BlockDriverState>,
    edges: Vec<BdrvChild>,
}

/// `n` with draining switched on.
pub open spec fn drained_node(n: BlockDriverState) -> BlockDriverState {
    BlockDriverState { drained: true, ..n }
}

/// The nodes after a drain of node `h`.
pub open spec fn drain_spec(nodes: Seq<BlockDriverState>, h: int) -> Seq<BlockDriverState> {
    nodes.update(h, drained_node(nodes[h]))
}

/// The edges after the node `h` released every edge it is the parent of.
pub open spec fn release_edges_of(edges: Seq<BdrvChild>, h: int) -> Seq<BdrvChild> {
    Seq::new(
        edges.len(),
        |i: int|
            if edges[i].attached && edges[i].parent == h {
                BdrvChild { attached: false, perm: 0, shared_perm: 0, ..edges[i] }
            } else {
                edges[i]
            },
    )
}

/// A request for new permissions on one edge.
#[derive(PartialEq, Eq, Structural, Clone, Copy, Debug)]
pub struct PermRequest {
    pub edge: usize,
    pub perm: u64,
    pub shared_perm: u64,
}

/// The permission pairs `p` after the requests are applied in order.
pub open spec fn apply_requests(p: Seq<(u64, u64)>, reqs: Seq<PermRequest>) -> Seq<(u64, u64)>
    decreases reqs.len(),
{
    if reqs.len() == 0 {
        p
    } else {
        let q = reqs.last();
        let prev = apply_requests(p, reqs.drop_last());
        if q.edge < prev.len() {
            prev.update(q.edge as int, (q.perm, q.shared_perm))
        } else {
            prev
        }
    }
}

/// Each request names an attached edge.
pub open spec fn requests_valid(edges: Seq<BdrvChild>, reqs: Seq<PermRequest>) -> bool {
    forall|k: int| 0 <= k < reqs.len() ==> (#[trigger] reqs[k]).edge < edges.len() && edges[reqs[k].edge as int].attached
}

/// `a` and `b` are the same edges, but for their permissions.
pub open spec fn same_but_perms(a: Seq<BdrvChild>, b: Seq<BdrvChild>) -> bool {
    &&& a.len() == b.len()
    &&& forall|i: int| 0 <= i < a.len() ==> {
        &&& (#[trigger] a[i]).parent == b[i].parent
        &&& a[i].bs == b[i].bs
        &&& a[i].name == b[i].name
        &&& a[i].role == b[i].role
        &&& a[i].attached == b[i].attached
    }
}

proof fn lemma_apply_len(p: Seq<(u64, u64)>, reqs: Seq<PermRequest>)
    ensures
        apply_requests(p, reqs).len() == p.len(),
    decreases reqs.len(),
{
    if reqs.len() > 0 {
        lemma_apply_len(p, reqs.drop_last());
    }
}

/// Compatibility depends on the edges only through their ends and whether they
/// are attached.
proof fn lemma_perms_ok_same_shape(ro: Seq<bool>, a: Seq<BdrvChild>, b: Seq<BdrvChild>, p: Seq<(u64, u64)>)
    requires
        same_but_perms(a, b),
        perms_ok(ro, a, p),
    ensures
        perms_ok(ro, b, p),
{
    assert forall|i: int| 0 <= i < b.len() implies #[trigger] edge_within_child(ro, b, p, i) by {
        assert(edge_within_child(ro, a, p, i));
    }
    assert forall|i: int, j: int| 0 <= i < b.len() && 0 <= j < b.len() implies #[trigger] siblings_agree(b, p, i, j) by {
        assert(siblings_agree(a, p, i, j));
        assert(a[i].bs == b[i].bs && a[j].bs == b[j].bs);
    }
}

/// The steps of a batch that must be undone when its steps ran in order and
/// the one at index `k` failed: those before it, latest first.
pub open spec fn rollback_spec(k: int) -> Seq<usize> {
    Seq::new(k as nat, |i: int| (k - 1 - i) as usize)
}

/// Given the outcome of each step of a batch, run in order until the first
/// failure, the steps to undo (abort) in order: those that succeeded before
/// the first failure, latest first. Empty when no step failed.
pub fn rollback_order(results: &Vec<bool>) -> (r: Vec<usize>)
    ensures
        (forall|k: int| 0 <= k < results@.len() ==> #[trigger] results@[k]) ==> r@.len() == 0,
        forall|k: int| 0 <= k < results@.len() && !results@[k]
            && (forall|m: int| 0 <= m < k ==> #[trigger] results@[m]) ==> r@ == rollback_spec(k),
{
    let mut k: usize = 0;
    while k < results.len()
        invariant
            k <= results@.len(),
            forall|m: int| 0 <= m < k ==> #[trigger] results@[m],
        decreases results@.len() - k,
    {
        if !results[k] {
            let mut r: Vec<usize> = Vec::new();
            let mut j: usize = k;
            while j > 0
                invariant
                    j <= k,
                    r@ == rollback_spec(k as int).take((k - j) as int),
                decreases j,
            {
                j = j - 1;
                r.push(j);
                assert(r@ =~= rollback_spec(k as int).take((k - j) as int));
            }
            assert(r@ =~= rollback_spec(k as int));
            return r;
        }
        k = k + 1;
    }
    Vec::new()
}

/// Edge `k` is attached, propagates draining, leads to node `i`, and its
/// parent is in `reached`.
pub open spec fn feeds(edges: Seq<BdrvChild>, reached: Seq<bool>, k: int, i: int) -> bool {
    &&& edges[k].attached
    &&& edges[k].role.propagates_drain
    &&& edges[k].bs == i
    &&& edges[k].parent < reached.len()
    &&& reached[edges[k].parent as int]
}

/// If edge `k` feeds a live child from `reached`, the child is in `reached`.
pub open spec fn closes(nodes: Seq<BlockDriverState>, edges: Seq<BdrvChild>, reached: Seq<bool>, k: int) -> bool {
    (feeds(edges, reached, k, edges[k].bs as int) && nodes[edges[k].bs as int].state != NodeState::Closed)
        ==> reached[edges[k].bs as int]
}

/// Every node of `reached` is `h` or is fed by an edge from `reached`.
pub open spec fn justified(edges: Seq<BdrvChild>, reached: Seq<bool>, h: int) -> bool {
    forall|i: int| 0 <= i < reached.len() && #[trigger] reached[i]
        ==> i == h || exists|k: int| 0 <= k < edges.len() && #[trigger] feeds(edges, reached, k, i)
}

/// The nodes, with those of `reached` drained.
pub open spec fn drain_reached(nodes: Seq<BlockDriverState>, reached: Seq<bool>) -> Seq<BlockDriverState> {
    Seq::new(nodes.len(), |i: int| if reached[i] { drained_node(nodes[i]) } else { nodes[i] })
}

/// How many entries of `s` are false.
pub open spec fn count_false(s: Seq<bool>) -> nat
    decreases s.len(),
{
    if s.len() == 0 {
        0
    } else {
        count_false(s.drop_last()) + if s.last() { 0nat } else { 1nat }
    }
}

proof fn lemma_count_false_update(s: Seq<bool>, i: int)
    requires
        0 <= i < s.len(),
        !s[i],
    ensures
        count_false(s.update(i, true)) < count_false(s),
    decreases s.len(),
{
    let t = s.update(i, true);
    if i == s.len() - 1 {
        assert(t.drop_last() =~= s.drop_last());
    } else {
        assert(t.drop_last() =~= s.drop_last().update(i, true));
        lemma_count_false_update(s.drop_last(), i);
    }
}

/// Each entry of a reopen batch names an open node, and no node twice.
pub open spec fn queue_valid(nodes: Seq<BlockDriverState>, q: Seq<BDRVReopenState>) -> bool {
    &&& forall|k: int| 0 <= k < q.len() ==> (#[trigger] q[k]).bs < nodes.len()
        && nodes[q[k].bs as int].state == NodeState::Open
    &&& forall|k: int, m: int| 0 <= k < q.len() && 0 <= m < q.len() && k != m ==> (#[trigger] q[k]).bs != (#[trigger] q[m]).bs
}

/// Whether flags open a node read-only.
pub open spec fn flags_read_only(flags: i32) -> bool {
    flags & BDRV_O_RDWR == 0
}

/// The nodes once the reopen entries `q` are committed, in order.
pub open spec fn apply_reopen(nodes: Seq<BlockDriverState>, q: Seq<BDRVReopenState>) -> Seq<BlockDriverState>
    decreases q.len(),
{
    if q.len() == 0 {
        nodes
    } else {
        let e = q.last();
        let prev = apply_reopen(nodes, q.drop_last());
        if e.bs < prev.len() {
            prev.update(e.bs as int, BlockDriverState {
                open_flags: e.flags,
                read_only: flags_read_only(e.flags),
                options: e.options,
                ..prev[e.bs as int]
            })
        } else {
            prev
        }
    }
}

/// The read-only flags once the reopen entries `q` are committed, in order.
pub open spec fn reopen_ro(ro: Seq<bool>, q: Seq<BDRVReopenState>) -> Seq<bool>
    decreases q.len(),
{
    if q.len() == 0 {
        ro
    } else {
        let e = q.last();
        let prev = reopen_ro(ro, q.drop_last());
        if e.bs < prev.len() {
            prev.update(e.bs as int, flags_read_only(e.flags))
        } else {
            prev
        }
    }
}

proof fn lemma_reopen_ro(nodes: Seq<BlockDriverState>, q: Seq<BDRVReopenState>)
    ensures
        apply_reopen(nodes, q).len() == nodes.len(),
        read_only_flags(apply_reopen(nodes, q)) == reopen_ro(read_only_flags(nodes), q),
    decreases q.len(),
{
    if q.len() > 0 {
        lemma_reopen_ro(nodes, q.drop_last());
        let e = q.last();
        let prev = apply_reopen(nodes, q.drop_last());
        if e.bs < prev.len() {
            assert(read_only_flags(apply_reopen(nodes, q)) =~= read_only_flags(prev).update(
                e.bs as int, flags_read_only(e.flags)));
        }
    }
}

proof fn lemma_reopen_ro_len(ro: Seq<bool>, q: Seq<BDRVReopenState>)
    ensures
        reopen_ro(ro, q).len() == ro.len(),
    decreases q.len(),
{
    if q.len() > 0 {
        lemma_reopen_ro_len(ro, q.drop_last());
    }
}

impl BlockGraph {
    pub closed spec fn nodes(&self) -> Seq<BlockDriverState> {
        self.nodes@
    }

    pub closed spec fn edges(&self) -> Seq<BdrvChild> {
        self.edges@
    }

    /// Every edge joins two nodes of the graph, and the permissions of the
    /// edges are compatible.
    pub open spec fn wf(&self) -> bool {
        &&& forall|i: int|
            0 <= i < self.edges().len() ==> (#[trigger] self.edges()[i]).parent < self.nodes().len()
                && self.edges()[i].bs < self.nodes().len()
        &&& perms_compatible(self.nodes(), self.edges())
    }

    /// `h` names a node that is open.
    pub open spec fn is_open(&self, h: int) -> bool {
        0 <= h < self.nodes().len() && self.nodes()[h].state == NodeState::Open
    }

    /// An empty graph.
    pub fn new() -> (r: BlockGraph)
        ensures
            r.wf(),
            r.nodes().len() == 0,
            r.edges().len() == 0,
    {
        BlockGraph { nodes: Vec::new(), edges: Vec::new() }
    }

    pub fn node_count(&self) -> (r: usize)
        ensures
            r == self.nodes().len(),
    {
        self.nodes.len()
    }

    pub fn edge_count(&self) -> (r: usize)
        ensures
            r == self.edges().len(),
    {
        self.edges.len()
    }

    /// The node under handle `h`.
    pub fn node(&self, h: usize) -> (r: &BlockDriverState)
        requires
            h < self.nodes().len(),
        ensures
            *r == self.nodes()[h as int],
    {
        &self.nodes[h]
    }

    /// The edge under handle `e`.
    pub fn edge(&self, e: usize) -> (r: &BdrvChild)
        requires
            e < self.edges().len(),
        ensures
            *r == self.edges()[e as int],
    {
        &self.edges[e]
    }

    /// Opens a node on the driver registered as `name`. Fails with `NotFound`
    /// if there is none, with `Unsupported` if it lacks `open`, with
    /// `InvalidOption` if it needs a file name and `options` has no
    /// "filename", and with the error that the driver's own open routine gave
    /// (`driver_open`). On success the new node is open, bound to that driver,
    /// with a zeroed private-state block of the descriptor's size; it is
    /// read-only unless `flags` holds `BDRV_O_RDWR`. On failure nothing changes.
    pub fn bdrv_open(
        &mut self,
        reg: &DriverRegistry,
        name: &String,
        options: QDict,
        flags: i32,
        driver_open: Result<(), Error>,
    ) -> (r: Result<usize, Error>)
        requires
            old(self).wf(),
            reg.wf(),
        ensures
            final(self).wf(),
            final(self).edges() == old(self).edges(),
            !reg.has_name(name@) ==> r == Err::<usize, Error>(Error::NotFound),
            forall|d: int| 0 <= d < reg@.len() && (#[trigger] reg@[d]).format_name@ == name@ ==> {
                let drv = reg@[d];
                let missing = drv.bdrv_needs_filename && !options.contains_key("filename"@);
                &&& !drv.supports(OpKind::Open) ==> r == Err::<usize, Error>(Error::Unsupported)
                &&& drv.supports(OpKind::Open) && missing ==> r == Err::<usize, Error>(Error::InvalidOption)
                &&& drv.supports(OpKind::Open) && !missing && driver_open.is_err()
                    ==> r == Err::<usize, Error>(driver_open.unwrap_err())
                &&& drv.supports(OpKind::Open) && !missing && driver_open.is_ok()
                    ==> r.is_ok()
            },
            r.is_err() ==> final(self).nodes() == old(self).nodes(),
            r.is_ok() ==> {
                let h = r.unwrap() as int;
                let n = final(self).nodes()[h];
                &&& h == old(self).nodes().len()
                &&& final(self).nodes().len() == h + 1
                &&& final(self).nodes().take(h) == old(self).nodes()
                &&& n.drv < reg@.len()
                &&& reg@[n.drv as int].format_name@ == name@
                &&& n.state == NodeState::Open
                &&& n.open_flags == flags
                &&& n.read_only == (flags & BDRV_O_RDWR == 0)
                &&& !n.encrypted && !n.valid_key && !n.sg && !n.probed
                &&& n.options == options
                &&& n.opaque@.len() == (if reg@[n.drv as int].instance_size > 0 { reg@[n.drv as int].instance_size as int } else { 0 })
                &&& forall|i: int| 0 <= i < n.opaque@.len() ==> n.opaque@[i] == 0
                &&& n.aio_context.is_none()
                &&& n.in_flight == 0
                &&& !n.drained
            },
    {
        let d = match reg.lookup(name) {
            Ok(d) => d,
            Err(e) => {
                return Err(e);
            },
        };
        let drv = reg.get(d);
        if !drv.implements(OpKind::Open) {
            return Err(Error::Unsupported);
        }
        let filename_key = "filename".to_owned();
        if drv.bdrv_needs_filename && !options.has_key(&filename_key) {
            return Err(Error::InvalidOption);
        }
        match driver_open {
            Err(e) => {
                return Err(e);
            },
            Ok(()) => {},
        }
        let size: usize = if drv.instance_size > 0 { drv.instance_size as usize } else { 0 };
        let node = BlockDriverState {
            open_flags: flags,
            read_only: flags & BDRV_O_RDWR == 0,
            encrypted: false,
            valid_key: false,
            sg: false,
            probed: false,
            drv: d,
            opaque: zero_buffer(size),
            aio_context: None,
            options,
            state: NodeState::Open,
            in_flight: 0,
            drained: false,
        };
        let h = self.nodes.len();
        self.nodes.push(node);
        proof {
            let ro0 = read_only_flags(old(self).nodes());
            let ro1 = read_only_flags(self.nodes());
            let p = edge_perms(self.edges());
            assert forall|i: int| 0 <= i < self.edges().len()
                implies #[trigger] edge_within_child(ro1, self.edges(), p, i) by {
                assert(edge_within_child(ro0, self.edges(), p, i));
                if self.edges()[i].attached {
                    assert(ro1[self.edges()[i].bs as int] == ro0[self.edges()[i].bs as int]);
                }
            }
            assert forall|i: int, j: int| 0 <= i < self.edges().len() && 0 <= j < self.edges().len()
                implies #[trigger] siblings_agree(self.edges(), p, i, j) by {
                assert(siblings_agree(old(self).edges(), p, i, j));
            }
            assert(self.nodes().take(h as int) =~= old(self).nodes());
            assert forall|i: int| 0 <= i < self.edges().len()
                implies (#[trigger] self.edges()[i]).parent < self.nodes().len()
                    && self.edges()[i].bs < self.nodes().len() by {
                assert(old(self).edges()[i] == self.edges()[i]);
            }
        }
        Ok(h)
    }

    /// Closes node `h`: releases every edge it is the parent of, detaches it
    /// from its execution context, and marks it closed. Fails with `Fatal`,
    /// changing nothing, if `h` is not a live node or has operations in flight.
    pub fn bdrv_close(&mut self, h: usize) -> (r: Result<(), Error>)
        requires
            old(self).wf(),
        ensures
            final(self).wf(),
            r.is_err() <==> (h >= old(self).nodes().len() || old(self).nodes()[h as int].state == NodeState::Closed
                || old(self).nodes()[h as int].in_flight > 0),
            r.is_err() ==> r == Err::<(), Error>(Error::Fatal) && final(self).nodes() == old(self).nodes()
                && final(self).edges() == old(self).edges(),
            r.is_ok() ==> final(self).nodes() == old(self).nodes().update(h as int, BlockDriverState {
                state: NodeState::Closed, aio_context: None, drained: false, ..old(self).nodes()[h as int] }),
            r.is_ok() ==> final(self).edges() == release_edges_of(old(self).edges(), h as int),
    {
        if h >= self.nodes.len() || self.nodes[h].state == NodeState::Closed || self.nodes[h].in_flight > 0 {
            return Err(Error::Fatal);
        }
        let n = self.edges.len();
        let mut i: usize = 0;
        while i < n
            invariant
                n == self.edges@.len(),
                n == old(self).edges@.len(),
                i <= n,
                self.nodes@ == old(self).nodes@,
                forall|k: int| 0 <= k < i ==> self.edges@[k] == release_edges_of(old(self).edges@, h as int)[k],
                forall|k: int| i <= k < n ==> self.edges@[k] == old(self).edges@[k],
            decreases n - i,
        {
            if self.edges[i].attached && self.edges[i].parent == h {
                self.edges[i].attached = false;
                self.edges[i].perm = 0;
                self.edges[i].shared_perm = 0;
            }
            i = i + 1;
        }
        self.nodes[h].state = NodeState::Closed;
        self.nodes[h].aio_context = None;
        self.nodes[h].drained = false;
        proof {
            assert(self.edges@ =~= release_edges_of(old(self).edges@, h as int));
            let e0 = old(self).edges();
            let e1 = self.edges();
            let ro0 = read_only_flags(old(self).nodes());
            let ro1 = read_only_flags(self.nodes());
            assert(ro0 =~= ro1);
            let p0 = edge_perms(e0);
            let p1 = edge_perms(e1);
            assert forall|k: int| 0 <= k < e1.len() implies #[trigger] edge_within_child(ro1, e1, p1, k) by {
                assert(edge_within_child(ro0, e0, p0, k));
            }
            assert forall|k: int, j: int| 0 <= k < e1.len() && 0 <= j < e1.len()
                implies #[trigger] siblings_agree(e1, p1, k, j) by {
                assert(siblings_agree(e0, p0, k, j));
            }
            assert forall|k: int| 0 <= k < e1.len()
                implies (#[trigger] e1[k]).parent < self.nodes().len() && e1[k].bs < self.nodes().len() by {
                assert(e0[k].parent == e1[k].parent);
            }
            assert(self.nodes@ =~= old(self).nodes().update(h as int, BlockDriverState {
                state: NodeState::Closed, aio_context: None, drained: false, ..old(self).nodes()[h as int] }));
        }
        Ok(())
    }

    /// Admits an operation `op` on node `h`. Fails with `Fatal` if `h` is not
    /// an open node or its driver handle is not in `reg`, with `Busy` if the
    /// node is drained (or its in-flight count is full), and with
    /// `Unsupported` if the driver lacks `op` and doing nothing would be
    /// wrong. Returns `NoOp` when the driver lacks `op` and doing nothing is
    /// correct, and `Call` when the driver is to run it: then the node counts
    /// one more operation in flight until `end_io`.
    pub fn begin_io(&mut self, reg: &DriverRegistry, h: usize, op: OpKind) -> (r: Result<Dispatch, Error>)
        requires
            old(self).wf(),
        ensures
            final(self).wf(),
            final(self).edges() == old(self).edges(),
            !old(self).is_open(h as int) || old(self).nodes()[h as int].drv >= reg@.len()
                ==> r == Err::<Dispatch, Error>(Error::Fatal),
            old(self).is_open(h as int) && old(self).nodes()[h as int].drv < reg@.len() ==> {
                let n = old(self).nodes()[h as int];
                let drv = reg@[n.drv as int];
                &&& n.drained ==> r == Err::<Dispatch, Error>(Error::Busy)
                &&& !n.drained && !drv.supports(op) && !crate::driver::absent_is_noop(op)
                    ==> r == Err::<Dispatch, Error>(Error::Unsupported)
                &&& !n.drained && !drv.supports(op) && crate::driver::absent_is_noop(op)
                    ==> r == Ok::<Dispatch, Error>(Dispatch::NoOp)
                &&& !n.drained && drv.supports(op) && n.in_flight < u64::MAX
                    ==> r == Ok::<Dispatch, Error>(Dispatch::Call)
                &&& !n.drained && drv.supports(op) && n.in_flight == u64::MAX
                    ==> r == Err::<Dispatch, Error>(Error::Busy)
            },
            r == Ok::<Dispatch, Error>(Dispatch::Call) ==> final(self).nodes() == old(self).nodes().update(
                h as int, BlockDriverState { in_flight: (old(self).nodes()[h as int].in_flight + 1) as u64,
                    ..old(self).nodes()[h as int] }),
            r != Ok::<Dispatch, Error>(Dispatch::Call) ==> final(self).nodes() == old(self).nodes(),
    {
        if h >= self.nodes.len() || self.nodes[h].state != NodeState::Open || self.nodes[h].drv >= reg.len() {
            return Err(Error::Fatal);
        }
        if self.nodes[h].drained {
            return Err(Error::Busy);
        }
        let drv = reg.get(self.nodes[h].drv);
        match drv.dispatch(op) {
            Err(e) => Err(e),
            Ok(Dispatch::NoOp) => Ok(Dispatch::NoOp),
            Ok(Dispatch::Call) => {
                if self.nodes[h].in_flight == u64::MAX {
                    return Err(Error::Busy);
                }
                self.nodes[h].in_flight = self.nodes[h].in_flight + 1;
                proof {
                    assert(self.nodes@ =~= old(self).nodes().update(h as int, BlockDriverState {
                        in_flight: (old(self).nodes()[h as int].in_flight + 1) as u64, ..old(self).nodes()[h as int] }));
                    lemma_wf_frame(*old(self), *self);
                }
                Ok(Dispatch::Call)
            },
        }
    }

    /// Records the completion of one operation admitted on node `h`.
    pub fn end_io(&mut self, h: usize)
        requires
            old(self).wf(),
            h < old(self).nodes().len(),
            old(self).nodes()[h as int].in_flight > 0,
        ensures
            final(self).wf(),
            final(self).edges() == old(self).edges(),
            final(self).nodes() == old(self).nodes().update(h as int, BlockDriverState {
                in_flight: (old(self).nodes()[h as int].in_flight - 1) as u64, ..old(self).nodes()[h as int] }),
    {
        self.nodes[h].in_flight = self.nodes[h].in_flight - 1;
        proof {
            assert(self.nodes@ =~= old(self).nodes().update(h as int, BlockDriverState {
                in_flight: (old(self).nodes()[h as int].in_flight - 1) as u64, ..old(self).nodes()[h as int] }));
            lemma_wf_frame(*old(self), *self);
        }
    }

    /// Drains node `h`: from now on no new operation is admitted on it.
    /// Returns whether it is quiescent, that is whether no operation is in
    /// flight. Fails with `Fatal`, changing nothing, if `h` is not a live node.
    pub fn drain(&mut self, h: usize) -> (r: Result<bool, Error>)
        requires
            old(self).wf(),
        ensures
            final(self).wf(),
            final(self).edges() == old(self).edges(),
            (h >= old(self).nodes().len() || old(self).nodes()[h as int].state == NodeState::Closed)
                ==> r == Err::<bool, Error>(Error::Fatal) && final(self).nodes() == old(self).nodes(),
            (h < old(self).nodes().len() && old(self).nodes()[h as int].state != NodeState::Closed) ==> {
                &&& r == Ok::<bool, Error>(old(self).nodes()[h as int].in_flight == 0)
                &&& final(self).nodes() == drain_spec(old(self).nodes(), h as int)
            },
    {
        if h >= self.nodes.len() || self.nodes[h].state == NodeState::Closed {
            return Err(Error::Fatal);
        }
        self.nodes[h].drained = true;
        proof {
            assert(self.nodes@ =~= drain_spec(old(self).nodes(), h as int));
            lemma_wf_frame(*old(self), *self);
        }
        Ok(self.nodes[h].in_flight == 0)
    }

    /// Ends the drained section of node `h`: operations are admitted again.
    pub fn drain_end(&mut self, h: usize) -> (r: Result<(), Error>)
        requires
            old(self).wf(),
        ensures
            final(self).wf(),
            final(self).edges() == old(self).edges(),
            h >= old(self).nodes().len() ==> r == Err::<(), Error>(Error::Fatal)
                && final(self).nodes() == old(self).nodes(),
            h < old(self).nodes().len() ==> r.is_ok() && final(self).nodes() == old(self).nodes().update(
                h as int, BlockDriverState { drained: false, ..old(self).nodes()[h as int] }),
    {
        if h >= self.nodes.len() {
            return Err(Error::Fatal);
        }
        self.nodes[h].drained = false;
        proof {
            assert(self.nodes@ =~= old(self).nodes().update(h as int, BlockDriverState {
                drained: false, ..old(self).nodes()[h as int] }));
            lemma_wf_frame(*old(self), *self);
        }
        Ok(())
    }

    /// The read-only flag of each node.
    fn ro_table(&self) -> (r: Vec<bool>)
        ensures
            r@ == read_only_flags(self.nodes()),
    {
        let mut r: Vec<bool> = Vec::new();
        let mut i: usize = 0;
        while i < self.nodes.len()
            invariant
                i <= self.nodes@.len(),
                r@ == read_only_flags(self.nodes@).take(i as int),
            decreases self.nodes@.len() - i,
        {
            r.push(self.nodes[i].read_only);
            i = i + 1;
            assert(r@ =~= read_only_flags(self.nodes@).take(i as int));
        }
        assert(read_only_flags(self.nodes@).take(i as int) =~= read_only_flags(self.nodes@));
        r
    }

    /// The `(perm, shared_perm)` pair of each edge.
    fn perm_table(&self) -> (r: Vec<(u64, u64)>)
        ensures
            r@ == edge_perms(self.edges()),
    {
        let mut r: Vec<(u64, u64)> = Vec::new();
        let mut i: usize = 0;
        while i < self.edges.len()
            invariant
                i <= self.edges@.len(),
                r@ == edge_perms(self.edges@).take(i as int),
            decreases self.edges@.len() - i,
        {
            r.push((self.edges[i].perm, self.edges[i].shared_perm));
            i = i + 1;
            assert(r@ =~= edge_perms(self.edges@).take(i as int));
        }
        assert(edge_perms(self.edges@).take(i as int) =~= edge_perms(self.edges@));
        r
    }

    /// Attaches a new edge named `name` from `parent` to `child`, asking for
    /// the permissions `perm` and sharing `shared`. Fails with `Fatal` unless
    /// both are distinct open nodes and the parent's driver (in `reg`)
    /// implements the permission operations; with `PermissionConflict` if the new edge
    /// would not be compatible with the child and its other parents; and with
    /// `PermissionRejected` if the child's driver refused the permissions in
    /// its check step (`check_ok`). On success the edge is appended and its
    /// handle returned; on failure nothing changes.
    pub fn add_child(
        &mut self,
        reg: &DriverRegistry,
        parent: usize,
        child: usize,
        name: String,
        role: BdrvChildRole,
        perm: u64,
        shared: u64,
        check_ok: bool,
    ) -> (r: Result<usize, Error>)
        requires
            old(self).wf(),
        ensures
            final(self).wf(),
            final(self).nodes() == old(self).nodes(),
            !(old(self).is_open(parent as int) && old(self).is_open(child as int) && parent != child
                && old(self).nodes()[parent as int].drv < reg@.len()
                && reg@[old(self).nodes()[parent as int].drv as int].manages_children())
                ==> r == Err::<usize, Error>(Error::Fatal),
            old(self).is_open(parent as int) && old(self).is_open(child as int) && parent != child
                && old(self).nodes()[parent as int].drv < reg@.len()
                && reg@[old(self).nodes()[parent as int].drv as int].manages_children() ==> {
                let es = old(self).edges().push(BdrvChild { parent, bs: child, name, role, perm,
                    shared_perm: shared, attached: true });
                &&& !perms_compatible(old(self).nodes(), es)
                    ==> r == Err::<usize, Error>(Error::PermissionConflict)
                &&& perms_compatible(old(self).nodes(), es) && !check_ok
                    ==> r == Err::<usize, Error>(Error::PermissionRejected)
                &&& perms_compatible(old(self).nodes(), es) && check_ok ==> {
                    &&& r == Ok::<usize, Error>(old(self).edges().len() as usize)
                    &&& final(self).edges() == es
                }
            },
            r.is_err() ==> final(self).edges() == old(self).edges(),
    {
        if parent >= self.nodes.len() || child >= self.nodes.len() || parent == child
            || self.nodes[parent].state != NodeState::Open || self.nodes[child].state != NodeState::Open
            || self.nodes[parent].drv >= reg.len() || !reg.get(self.nodes[parent].drv).can_have_children() {
            return Err(Error::Fatal);
        }
        let idx = self.edges.len();
        self.edges.push(BdrvChild { parent, bs: child, name, role, perm, shared_perm: shared, attached: true });
        let ro = self.ro_table();
        let p = self.perm_table();
        if !check_perms(&ro, &self.edges, &p) {
            self.edges.pop();
            assert(self.edges@ =~= old(self).edges@);
            return Err(Error::PermissionConflict);
        }
        if !check_ok {
            self.edges.pop();
            assert(self.edges@ =~= old(self).edges@);
            return Err(Error::PermissionRejected);
        }
        proof {
            assert forall|k: int| 0 <= k < self.edges().len()
                implies (#[trigger] self.edges()[k]).parent < self.nodes().len()
                    && self.edges()[k].bs < self.nodes().len() by {
                if k < idx {
                    assert(old(self).edges()[k] == self.edges()[k]);
                }
            }
        }
        Ok(idx)
    }

    /// Removes edge `e`: its permissions are released and it stays detached.
    /// Fails with `Fatal`, changing nothing, unless `e` is an attached edge.
    pub fn del_child(&mut self, e: usize) -> (r: Result<(), Error>)
        requires
            old(self).wf(),
        ensures
            final(self).wf(),
            final(self).nodes() == old(self).nodes(),
            !(e < old(self).edges().len() && old(self).edges()[e as int].attached)
                ==> r == Err::<(), Error>(Error::Fatal) && final(self).edges() == old(self).edges(),
            e < old(self).edges().len() && old(self).edges()[e as int].attached ==> r.is_ok()
                && final(self).edges() == old(self).edges().update(e as int, BdrvChild {
                    attached: false, perm: 0, shared_perm: 0, ..old(self).edges()[e as int] }),
    {
        if e >= self.edges.len() || !self.edges[e].attached {
            return Err(Error::Fatal);
        }
        self.edges[e].attached = false;
        self.edges[e].perm = 0;
        self.edges[e].shared_perm = 0;
        proof {
            let e0 = old(self).edges();
            let e1 = self.edges();
            assert(e1 =~= e0.update(e as int, BdrvChild {
                attached: false, perm: 0, shared_perm: 0, ..e0[e as int] }));
            let ro = read_only_flags(self.nodes());
            let p0 = edge_perms(e0);
            let p1 = edge_perms(e1);
            assert forall|k: int| 0 <= k < e1.len() implies #[trigger] edge_within_child(ro, e1, p1, k) by {
                assert(edge_within_child(ro, e0, p0, k));
            }
            assert forall|k: int, j: int| 0 <= k < e1.len() && 0 <= j < e1.len()
                implies #[trigger] siblings_agree(e1, p1, k, j) by {
                assert(siblings_agree(e0, p0, k, j));
            }
            assert forall|k: int| 0 <= k < e1.len()
                implies (#[trigger] e1[k]).parent < self.nodes().len() && e1[k].bs < self.nodes().len() by {
                assert(e0[k].parent == e1[k].parent);
            }
        }
        Ok(())
    }

    /// Hands node `h` off: an open node becomes inactive. Fails with `Fatal`,
    /// changing nothing, unless `h` is an open node.
    pub fn inactivate(&mut self, h: usize) -> (r: Result<(), Error>)
        requires
            old(self).wf(),
        ensures
            final(self).wf(),
            final(self).edges() == old(self).edges(),
            !old(self).is_open(h as int) ==> r == Err::<(), Error>(Error::Fatal)
                && final(self).nodes() == old(self).nodes(),
            old(self).is_open(h as int) ==> r.is_ok() && final(self).nodes() == old(self).nodes().update(
                h as int, BlockDriverState { state: NodeState::Inactive, ..old(self).nodes()[h as int] }),
    {
        if h >= self.nodes.len() || self.nodes[h].state != NodeState::Open {
            return Err(Error::Fatal);
        }
        self.nodes[h].state = NodeState::Inactive;
        proof {
            assert(self.nodes@ =~= old(self).nodes().update(h as int, BlockDriverState {
                state: NodeState::Inactive, ..old(self).nodes()[h as int] }));
            lemma_wf_frame(*old(self), *self);
        }
        Ok(())
    }

    /// Takes node `h` back after a hand-off. An open node stays as it is. An
    /// inactive node becomes open if the driver's own routine succeeded
    /// (`driver_result`); if it failed, the node is left closed (unusable) and
    /// its error returned. Fails with `Fatal`, changing nothing, if `h` is not
    /// a live node.
    pub fn invalidate_cache(&mut self, h: usize, driver_result: Result<(), Error>) -> (r: Result<(), Error>)
        requires
            old(self).wf(),
        ensures
            final(self).wf(),
            final(self).edges() == old(self).edges(),
            (h >= old(self).nodes().len() || old(self).nodes()[h as int].state == NodeState::Closed)
                ==> r == Err::<(), Error>(Error::Fatal) && final(self).nodes() == old(self).nodes(),
            old(self).is_open(h as int) ==> r.is_ok() && final(self).nodes() == old(self).nodes(),
            h < old(self).nodes().len() && old(self).nodes()[h as int].state == NodeState::Inactive ==> {
                &&& r == driver_result
                &&& final(self).nodes() == old(self).nodes().update(h as int, BlockDriverState {
                    state: if driver_result.is_ok() { NodeState::Open } else { NodeState::Closed },
                    ..old(self).nodes()[h as int] })
            },
    {
        if h >= self.nodes.len() || self.nodes[h].state == NodeState::Closed {
            return Err(Error::Fatal);
        }
        if self.nodes[h].state == NodeState::Open {
            return Ok(());
        }
        let ghost st = if driver_result.is_ok() { NodeState::Open } else { NodeState::Closed };
        match driver_result {
            Ok(()) => {
                self.nodes[h].state = NodeState::Open;
            },
            Err(_) => {
                self.nodes[h].state = NodeState::Closed;
            },
        }
        proof {
            assert(self.nodes@ =~= old(self).nodes().update(h as int, BlockDriverState {
                state: st, ..old(self).nodes()[h as int] }));
            lemma_wf_frame(*old(self), *self);
        }
        driver_result
    }

    /// Moves node `h` to the execution context `ctx` (`None` detaches it).
    /// Fails with `Fatal`, changing nothing, if `h` is not a live node, and
    /// with `Busy` unless it is drained with nothing in flight.
    pub fn set_aio_context(&mut self, h: usize, ctx: Option<AioContext>) -> (r: Result<(), Error>)
        requires
            old(self).wf(),
        ensures
            final(self).wf(),
            final(self).edges() == old(self).edges(),
            (h >= old(self).nodes().len() || old(self).nodes()[h as int].state == NodeState::Closed)
                ==> r == Err::<(), Error>(Error::Fatal),
            h < old(self).nodes().len() && old(self).nodes()[h as int].state != NodeState::Closed
                && !(old(self).nodes()[h as int].drained && old(self).nodes()[h as int].in_flight == 0)
                ==> r == Err::<(), Error>(Error::Busy),
            r.is_err() ==> final(self).nodes() == old(self).nodes(),
            r.is_ok() ==> final(self).nodes() == old(self).nodes().update(h as int, BlockDriverState {
                aio_context: ctx, ..old(self).nodes()[h as int] }),
    {
        if h >= self.nodes.len() || self.nodes[h].state == NodeState::Closed {
            return Err(Error::Fatal);
        }
        if !(self.nodes[h].drained && self.nodes[h].in_flight == 0) {
            return Err(Error::Busy);
        }
        self.nodes[h].aio_context = ctx;
        proof {
            assert(self.nodes@ =~= old(self).nodes().update(h as int, BlockDriverState {
                aio_context: ctx, ..old(self).nodes()[h as int] }));
            lemma_wf_frame(*old(self), *self);
        }
        Ok(())
    }

    /// Runs one permission negotiation batch: the requests `reqs` are
    /// applied in order to the permissions of their edges. Fails with `Fatal`
    /// if a request names no attached edge; with `PermissionConflict` if the
    /// resulting permissions are not compatible; with `PermissionRejected` if
    /// the driver of some request's child refused in its check step
    /// (`check_results`, one per request). Only when all of that passes are
    /// the new permissions committed, all together; on failure no edge
    /// changes.
    pub fn update_perms(&mut self, reqs: &Vec<PermRequest>, check_results: &Vec<bool>) -> (r: Result<(), Error>)
        requires
            old(self).wf(),
            check_results@.len() == reqs@.len(),
        ensures
            final(self).wf(),
            final(self).nodes() == old(self).nodes(),
            !requests_valid(old(self).edges(), reqs@) ==> r == Err::<(), Error>(Error::Fatal),
            requests_valid(old(self).edges(), reqs@) && !perms_ok(read_only_flags(old(self).nodes()),
                old(self).edges(), apply_requests(edge_perms(old(self).edges()), reqs@))
                ==> r == Err::<(), Error>(Error::PermissionConflict),
            requests_valid(old(self).edges(), reqs@) && perms_ok(read_only_flags(old(self).nodes()),
                old(self).edges(), apply_requests(edge_perms(old(self).edges()), reqs@))
                ==> (r.is_ok() <==> forall|k: int| 0 <= k < check_results@.len() ==> #[trigger] check_results@[k]),
            r.is_err() && r != Err::<(), Error>(Error::Fatal) && r != Err::<(), Error>(Error::PermissionConflict)
                ==> r == Err::<(), Error>(Error::PermissionRejected),
            r.is_err() ==> final(self).edges() == old(self).edges(),
            (exists|k: int| 0 <= k < check_results@.len() && !(#[trigger] check_results@[k])) ==> final(self).edges() == old(self).edges(),
            r.is_ok() ==> same_but_perms(old(self).edges(), final(self).edges())
                && edge_perms(final(self).edges()) == apply_requests(edge_perms(old(self).edges()), reqs@),
    {
        let mut k: usize = 0;
        while k < reqs.len()
            invariant
                k <= reqs@.len(),
                old(self).wf(),
                self.edges@ == old(self).edges@,
                self.nodes@ == old(self).nodes@,
                forall|m: int| 0 <= m < k ==> (#[trigger] reqs@[m]).edge < self.edges@.len()
                    && self.edges@[reqs@[m].edge as int].attached,
            decreases reqs@.len() - k,
        {
            let q = reqs[k];
            if q.edge >= self.edges.len() || !self.edges[q.edge].attached {
                return Err(Error::Fatal);
            }
            k = k + 1;
        }
        let mut p = self.perm_table();
        let ghost p0 = p@;
        let mut k: usize = 0;
        while k < reqs.len()
            invariant
                k <= reqs@.len(),
                old(self).wf(),
                self.edges@ == old(self).edges@,
                self.nodes@ == old(self).nodes@,
                requests_valid(self.edges@, reqs@),
                p@ == apply_requests(p0, reqs@.take(k as int)),
                p0.len() == self.edges@.len(),
            decreases reqs@.len() - k,
        {
            let q = reqs[k];
            proof {
                lemma_apply_len(p0, reqs@.take(k as int));
                assert(reqs@.take(k + 1).drop_last() =~= reqs@.take(k as int));
            }
            p.set(q.edge, (q.perm, q.shared_perm));
            k = k + 1;
        }
        proof {
            assert(reqs@.take(k as int) =~= reqs@);
            lemma_apply_len(p0, reqs@);
        }
        let ro = self.ro_table();
        if !check_perms(&ro, &self.edges, &p) {
            return Err(Error::PermissionConflict);
        }
        let mut k: usize = 0;
        while k < check_results.len()
            invariant
                k <= check_results@.len(),
                old(self).wf(),
                self.edges@ == old(self).edges@,
                self.nodes@ == old(self).nodes@,
                p@.len() == self.edges@.len(),
                requests_valid(self.edges@, reqs@),
                p@ == apply_requests(p0, reqs@),
                p0 == edge_perms(old(self).edges@),
                ro@ == read_only_flags(self.nodes@),
                perms_ok(ro@, self.edges@, p@),
                forall|m: int| 0 <= m < k ==> #[trigger] check_results@[m],
            decreases check_results@.len() - k,
        {
            if !check_results[k] {
                return Err(Error::PermissionRejected);
            }
            k = k + 1;
        }
        let n = self.edges.len();
        let mut i: usize = 0;
        while i < n
            invariant
                n == self.edges@.len(),
                n == p@.len(),
                i <= n,
                self.nodes@ == old(self).nodes@,
                same_but_perms(old(self).edges@, self.edges@),
                forall|m: int| 0 <= m < i ==> (#[trigger] self.edges@[m]).perm == p@[m].0
                    && self.edges@[m].shared_perm == p@[m].1,
                forall|m: int| i <= m < n ==> #[trigger] self.edges@[m] == old(self).edges@[m],
            decreases n - i,
        {
            let (np, ns) = p[i];
            self.edges[i].perm = np;
            self.edges[i].shared_perm = ns;
            i = i + 1;
        }
        proof {
            assert(edge_perms(self.edges@) =~= p@);
            lemma_perms_ok_same_shape(ro@, old(self).edges(), self.edges(), p@);
            assert forall|m: int| 0 <= m < self.edges().len()
                implies (#[trigger] self.edges()[m]).parent < self.nodes().len()
                    && self.edges()[m].bs < self.nodes().len() by {
                assert(old(self).edges()[m].parent == self.edges()[m].parent);
            }
        }
        Ok(())
    }

    /// Runs a reopen transaction over the batch `queue`. `prepared` holds,
    /// per entry, what the driver's prepare step gave. Fails with `Fatal` if
    /// an entry names no open node or a node twice. If some prepare failed,
    /// the batch is aborted with the first failure and every node keeps its
    /// flags and options. Else, if the edges' permissions would not be
    /// compatible with the new read-only flags, the batch is aborted with
    /// `PermissionConflict`. Else every entry is committed: its node takes the
    /// new flags and options. The edges never change.
    pub fn reopen(&mut self, queue: BlockReopenQueue, prepared: &Vec<Result<(), Error>>) -> (r: Result<(), Error>)
        requires
            old(self).wf(),
            prepared@.len() == queue.entries@.len(),
        ensures
            final(self).wf(),
            final(self).edges() == old(self).edges(),
            !queue_valid(old(self).nodes(), queue.entries@) ==> r == Err::<(), Error>(Error::Fatal),
            queue_valid(old(self).nodes(), queue.entries@) && (exists|k: int| 0 <= k < prepared@.len()
                && (#[trigger] prepared@[k]).is_err()) ==> exists|k: int| 0 <= k < prepared@.len()
                && r == #[trigger] prepared@[k] && r.is_err()
                && forall|m: int| 0 <= m < k ==> (#[trigger] prepared@[m]).is_ok(),
            queue_valid(old(self).nodes(), queue.entries@)
                && (forall|k: int| 0 <= k < prepared@.len() ==> (#[trigger] prepared@[k]).is_ok()) ==> {
                let ro = reopen_ro(read_only_flags(old(self).nodes()), queue.entries@);
                &&& !perms_ok(ro, old(self).edges(), edge_perms(old(self).edges()))
                    ==> r == Err::<(), Error>(Error::PermissionConflict)
                &&& perms_ok(ro, old(self).edges(), edge_perms(old(self).edges())) ==> r.is_ok()
            },
            (exists|k: int| 0 <= k < prepared@.len() && (#[trigger] prepared@[k]).is_err())
                ==> final(self).nodes() == old(self).nodes(),
            r.is_err() ==> final(self).nodes() == old(self).nodes(),
            r.is_ok() ==> final(self).nodes() == apply_reopen(old(self).nodes(), queue.entries@),
    {
        let ghost q0 = queue.entries@;
        let n = queue.entries.len();
        let mut k: usize = 0;
        while k < n
            invariant
                n == q0.len(),
                k <= n,
                queue.entries@ == q0,
                old(self).wf(),
                self.nodes@ == old(self).nodes@,
                self.edges@ == old(self).edges@,
                forall|a: int| 0 <= a < k ==> (#[trigger] q0[a]).bs < self.nodes@.len()
                    && self.nodes@[q0[a].bs as int].state == NodeState::Open,
                forall|a: int, b: int| 0 <= a < k && 0 <= b < n && a != b ==> (#[trigger] q0[a]).bs != (#[trigger] q0[b]).bs,
            decreases n - k,
        {
            let bs = queue.entries[k].bs;
            if bs >= self.nodes.len() || self.nodes[bs].state != NodeState::Open {
                return Err(Error::Fatal);
            }
            let mut m: usize = 0;
            while m < n
                invariant
                    n == q0.len(),
                    k < n,
                    m <= n,
                    queue.entries@ == q0,
                    old(self).wf(),
                    self.nodes@ == old(self).nodes@,
                    self.edges@ == old(self).edges@,
                    bs == q0[k as int].bs,
                    forall|b: int| 0 <= b < m && b != k ==> (#[trigger] q0[b]).bs != bs,
                decreases n - m,
            {
                if m != k && queue.entries[m].bs == bs {
                    return Err(Error::Fatal);
                }
                m = m + 1;
            }
            k = k + 1;
        }
        let mut k: usize = 0;
        while k < n
            invariant
                n == prepared@.len(),
                n == q0.len(),
                k <= n,
                queue.entries@ == q0,
                queue_valid(self.nodes@, q0),
                old(self).wf(),
                self.nodes@ == old(self).nodes@,
                self.edges@ == old(self).edges@,
                forall|m: int| 0 <= m < k ==> (#[trigger] prepared@[m]).is_ok(),
            decreases n - k,
        {
            match prepared[k] {
                Err(e) => {
                    return Err(e);
                },
                Ok(()) => {},
            }
            k = k + 1;
        }
        let mut ro = self.ro_table();
        let ghost ro0 = ro@;
        let mut k: usize = 0;
        while k < n
            invariant
                n == q0.len(),
                k <= n,
                queue.entries@ == q0,
                queue_valid(self.nodes@, q0),
                old(self).wf(),
                self.nodes@ == old(self).nodes@,
                self.edges@ == old(self).edges@,
                forall|m: int| 0 <= m < n ==> (#[trigger] prepared@[m]).is_ok(),
                ro0 == read_only_flags(self.nodes@),
                ro0.len() == self.nodes@.len(),
                ro@ == reopen_ro(ro0, q0.take(k as int)),
            decreases n - k,
        {
            proof {
                lemma_reopen_ro_len(ro0, q0.take(k as int));
                assert(q0.take(k + 1).drop_last() =~= q0.take(k as int));
            }
            let bs = queue.entries[k].bs;
            let flags = queue.entries[k].flags;
            ro.set(bs, flags & BDRV_O_RDWR == 0);
            k = k + 1;
        }
        proof {
            assert(q0.take(n as int) =~= q0);
        }
        if !check_perms(&ro, &self.edges, &self.perm_table()) {
            return Err(Error::PermissionConflict);
        }
        let mut entries = queue.entries;
        let mut k: usize = 0;
        while k < n
            invariant
                n == q0.len(),
                k <= n,
                entries@ == q0.skip(k as int),
                queue_valid(old(self).nodes@, q0),
                self.edges@ == old(self).edges@,
                self.nodes@ == apply_reopen(old(self).nodes@, q0.take(k as int)),
            decreases n - k,
        {
            proof {
                lemma_reopen_ro(old(self).nodes@, q0.take(k as int));
                assert(q0.take(k + 1).drop_last() =~= q0.take(k as int));
                assert(entries@[0] == q0[k as int]);
            }
            let e = entries.remove(0);
            let BDRVReopenState { bs, flags, options, .. } = e;
            self.nodes[bs].open_flags = flags;
            self.nodes[bs].read_only = flags & BDRV_O_RDWR == 0;
            self.nodes[bs].options = options;
            k = k + 1;
            proof {
                assert(entries@ =~= q0.skip(k as int));
                assert(self.nodes@ =~= apply_reopen(old(self).nodes@, q0.take(k as int)));
            }
        }
        proof {
            assert(q0.take(n as int) =~= q0);
            lemma_reopen_ro(old(self).nodes@, q0);
            assert forall|m: int| 0 <= m < self.edges().len()
                implies (#[trigger] self.edges()[m]).parent < self.nodes().len()
                    && self.edges()[m].bs < self.nodes().len() by {
                assert(old(self).edges()[m] == self.edges()[m]);
            }
        }
        Ok(())
    }

    /// Drains node `h` and, through every attached edge whose role
    /// propagates draining, each live node below it. Returns whether every
    /// node so reached is quiescent, and which nodes were reached. Fails with
    /// `Fatal`, changing nothing, if `h` is not a live node.
    pub fn drain_subtree(&mut self, h: usize) -> (r: Result<(bool, Vec<bool>), Error>)
        requires
            old(self).wf(),
        ensures
            final(self).wf(),
            final(self).edges() == old(self).edges(),
            (h >= old(self).nodes().len() || old(self).nodes()[h as int].state == NodeState::Closed)
                ==> r.is_err() && r.unwrap_err() == Error::Fatal && final(self).nodes() == old(self).nodes(),
            (h < old(self).nodes().len() && old(self).nodes()[h as int].state != NodeState::Closed) ==> r.is_ok(),
            r.is_ok() ==> {
                let reached = r.unwrap().1@;
                &&& reached.len() == old(self).nodes().len()
                &&& reached[h as int]
                &&& forall|k: int| 0 <= k < old(self).edges().len()
                    ==> #[trigger] closes(old(self).nodes(), old(self).edges(), reached, k)
                &&& justified(old(self).edges(), reached, h as int)
                &&& r.unwrap().0 == forall|i: int| 0 <= i < reached.len() && #[trigger] reached[i]
                    ==> old(self).nodes()[i].in_flight == 0
                &&& final(self).nodes() == drain_reached(old(self).nodes(), reached)
            },
    {
        if h >= self.nodes.len() || self.nodes[h].state == NodeState::Closed {
            return Err(Error::Fatal);
        }
        let n = self.nodes.len();
        let mut reached: Vec<bool> = Vec::new();
        let mut i: usize = 0;
        while i < n
            invariant
                i <= n,
                reached@.len() == i,
                forall|k: int| 0 <= k < i ==> !reached@[k],
            decreases n - i,
        {
            reached.push(false);
            i = i + 1;
        }
        reached.set(h, true);
        let ghost nodes = self.nodes@;
        let ghost edges = self.edges@;
        let m = self.edges.len();
        let mut changed = true;
        while changed
            invariant
                old(self).wf(),
                self.nodes@ == old(self).nodes@,
                self.edges@ == old(self).edges@,
                nodes == self.nodes@,
                edges == self.edges@,
                m == edges.len(),
                n == nodes.len(),
                h < n,
                reached@.len() == n,
                reached@[h as int],
                justified(edges, reached@, h as int),
                !changed ==> forall|k: int| 0 <= k < m ==> #[trigger] closes(nodes, edges, reached@, k),
            decreases count_false(reached@) + if changed { 1nat } else { 0nat },
        {
            changed = false;
            let ghost start = reached@;
            let mut j: usize = 0;
            while j < m
                invariant
                    old(self).wf(),
                    self.nodes@ == old(self).nodes@,
                    self.edges@ == old(self).edges@,
                    nodes == self.nodes@,
                    edges == self.edges@,
                    m == edges.len(),
                    n == nodes.len(),
                    h < n,
                    j <= m,
                    reached@.len() == n,
                    reached@[h as int],
                    justified(edges, reached@, h as int),
                    !changed ==> reached@ == start,
                    changed ==> count_false(reached@) < count_false(start),
                    !changed ==> forall|k: int| 0 <= k < j ==> #[trigger] closes(nodes, edges, reached@, k),
                decreases m - j,
            {
                let e = &self.edges[j];
                proof {
                    assert(edges[j as int].parent < n && edges[j as int].bs < n);
                }
                if e.attached && e.role.propagates_drain && reached[e.parent] && !reached[e.bs]
                    && self.nodes[e.bs].state != NodeState::Closed {
                    let ghost before = reached@;
                    let c = e.bs;
                    proof {
                        lemma_count_false_update(before, c as int);
                    }
                    reached.set(c, true);
                    proof {
                        assert(feeds(edges, reached@, j as int, c as int));
                        assert forall|x: int| 0 <= x < reached@.len() && #[trigger] reached@[x]
                            implies x == h || exists|k: int| 0 <= k < edges.len() && #[trigger] feeds(edges, reached@, k, x) by {
                            if x != c && x != h {
                                assert(before[x]);
                                let k = choose|k: int| 0 <= k < edges.len() && #[trigger] feeds(edges, before, k, x);
                                assert(feeds(edges, reached@, k, x));
                            }
                        }
                    }
                    changed = true;
                }
                j = j + 1;
            }
        }
        let mut quiesced = true;
        let mut i: usize = 0;
        while i < n
            invariant
                old(self).wf(),
                self.edges@ == old(self).edges@,
                nodes == old(self).nodes@,
                n == nodes.len(),
                i <= n,
                reached@.len() == n,
                self.nodes@.len() == n,
                forall|k: int| 0 <= k < i ==> self.nodes@[k] == drain_reached(nodes, reached@)[k],
                forall|k: int| i <= k < n ==> self.nodes@[k] == nodes[k],
                quiesced == forall|k: int| 0 <= k < i && #[trigger] reached@[k] ==> nodes[k].in_flight == 0,
            decreases n - i,
        {
            if reached[i] {
                if self.nodes[i].in_flight != 0 {
                    quiesced = false;
                }
                self.nodes[i].drained = true;
            }
            i = i + 1;
        }
        proof {
            assert(self.nodes@ =~= drain_reached(nodes, reached@));
            lemma_wf_frame(*old(self), *self);
        }
        Ok((quiesced, reached))
    }
}

/// Changing nodes without touching their read-only flags, their number or the
/// edges keeps a graph well formed.
proof fn lemma_wf_frame(g0: BlockGraph, g1: BlockGraph)
    requires
        g0.wf(),
        g1.edges() == g0.edges(),
        g1.nodes().len() == g0.nodes().len(),
        forall|i: int| 0 <= i < g0.nodes().len() ==> #[trigger] g1.nodes()[i].read_only == g0.nodes()[i].read_only,
    ensures
        g1.wf(),
{
    assert(read_only_flags(g0.nodes()) =~= read_only_flags(g1.nodes()));
}

/// Draining is idempotent: a second drain of a drained node leaves the nodes
/// as the first left them, and finds the node as quiescent as the first did.
pub proof fn lemma_drain_idempotent(nodes: Seq<BlockDriverState>, h: int)
    requires
        0 <= h < nodes.len(),
    ensures
        drain_spec(drain_spec(nodes, h), h) == drain_spec(nodes, h),
        drain_spec(nodes, h)[h].in_flight == nodes[h].in_flight,
        drain_spec(nodes, h)[h].state == nodes[h].state,
{
    assert(drain_spec(drain_spec(nodes, h), h) =~= drain_spec(nodes, h));
}

/// In a well-formed graph (which every operation keeps, a successful
/// negotiation batch included) every attached edge uses only what its child
/// can grant, and any two attached edges into the same child each use only
/// what the other shares.
pub proof fn lemma_negotiated_perms_consistent(g: BlockGraph, i: int, j: int)
    requires
        g.wf(),
        0 <= i < g.edges().len(),
        0 <= j < g.edges().len(),
    ensures
        g.edges()[i].attached ==> perm_subset(g.edges()[i].perm, allowed_for(g.nodes()[g.edges()[i].bs as int].read_only)),
        i != j && g.edges()[i].attached && g.edges()[j].attached && g.edges()[i].bs == g.edges()[j].bs ==> {
            &&& perm_subset(g.edges()[i].perm, g.edges()[j].shared_perm)
            &&& perm_subset(g.edges()[j].perm, g.edges()[i].shared_perm)
        },
{
    let ro = read_only_flags(g.nodes());
    let p = edge_perms(g.edges());
    assert(edge_within_child(ro, g.edges(), p, i));
    assert(siblings_agree(g.edges(), p, i, j));
    assert(siblings_agree(g.edges(), p, j, i));
}

} // verus!
