use vstd::prelude::*;
use crate::node::{BdrvChild, BlockDriverState};

verus! {

/// The parent reads and gets consistent data.
pub const PERM_CONSISTENT_READ: u64 = 1;
/// The parent writes.
pub const PERM_WRITE: u64 = 2;
/// The parent writes data that leaves the visible content unchanged.
pub const PERM_WRITE_UNCHANGED: u64 = 4;
/// The parent changes the size of the child.
pub const PERM_RESIZE: u64 = 8;
/// The parent changes the graph below the child.
pub const PERM_GRAPH_MOD: u64 = 16;
/// Every permission bit.
pub const PERM_ALL: u64 = 31;
/// The permissions a read-only node can still grant.
pub const PERM_READ_ONLY_ALLOWED: u64 = 21;

/// Every bit of `a` is set in `b`.
pub open spec fn perm_subset(a: u64, b: u64) -> bool {
    a & b == a
}

/// Whether every bit of `a` is set in `b`.
pub fn is_perm_subset(a: u64, b: u64) -> (r: bool)
    ensures
        r == perm_subset(a, b),
{
    a & b == a
}

/// The permissions that a node can grant to all its parents together.
pub open spec fn allowed_for(read_only: bool) -> u64 {
    if read_only {
        PERM_READ_ONLY_ALLOWED
    } else {
        PERM_ALL
    }
}

/// The permissions that a node can grant to all its parents together.
pub fn allowed_perms(read_only: bool) -> (r: u64)
    ensures
        r == allowed_for(read_only),
{
    if read_only {
        PERM_READ_ONLY_ALLOWED
    } else {
        PERM_ALL
    }
}

/// The read-only flag of each node.
pub open spec fn read_only_flags(nodes: Seq<BlockDriverState>) -> Seq<bool> {
    Seq::new(nodes.len(), |i: int| nodes[i].read_only)
}

/// The `(perm, shared_perm)` pair of each edge.
pub open spec fn edge_perms(edges: Seq<BdrvChild>) -> Seq<(u64, u64)> {
    Seq::new(edges.len(), |i: int| (edges[i].perm, edges[i].shared_perm))
}

/// With the permissions `p`, edge `i` (if attached) leads to a node of `ro`
/// and stays within what that node can grant.
pub open spec fn edge_within_child(ro: Seq<bool>, edges: Seq<BdrvChild>, p: Seq<(u64, u64)>, i: int) -> bool {
    edges[i].attached ==> {
        &&& edges[i].bs < ro.len()
        &&& perm_subset(p[i].0, allowed_for(ro[edges[i].bs as int]))
    }
}

/// With the permissions `p`, if edges `i` and `j` are distinct attached edges
/// into the same child, then `i` uses only what `j` shares.
pub open spec fn siblings_agree(edges: Seq<BdrvChild>, p: Seq<(u64, u64)>, i: int, j: int) -> bool {
    (i != j && edges[i].attached && edges[j].attached && edges[i].bs == edges[j].bs)
        ==> perm_subset(p[i].0, p[j].1)
}

/// With the permissions `p`, every attached edge stays within what its child
/// can grant, and no two parents of one child use a permission that the other
/// does not share.
pub open spec fn perms_ok(ro: Seq<bool>, edges: Seq<BdrvChild>, p: Seq<(u64, u64)>) -> bool {
    &&& p.len() == edges.len()
    &&& forall|i: int| 0 <= i < edges.len() ==> #[trigger] edge_within_child(ro, edges, p, i)
    &&& forall|i: int, j: int|
        0 <= i < edges.len() && 0 <= j < edges.len() ==> #[trigger] siblings_agree(edges, p, i, j)
}

/// The edges, with the permissions they carry, are compatible with each other
/// and with their children.
pub open spec fn perms_compatible(nodes: Seq<BlockDriverState>, edges: Seq<BdrvChild>) -> bool {
    perms_ok(read_only_flags(nodes), edges, edge_perms(edges))
}

/// Whether the edges, given the permissions `p`, would be compatible with each
/// other and with nodes whose read-only flags are `ro`.
pub fn check_perms(ro: &Vec<bool>, edges: &Vec<BdrvChild>, p: &Vec<(u64, u64)>) -> (r: bool)
    requires
        p@.len() == edges@.len(),
    ensures
        r == perms_ok(ro@, edges@, p@),
{
    let n = edges.len();
    let mut i: usize = 0;
    while i < n
        invariant
            n == edges@.len(),
            n == p@.len(),
            i <= n,
            forall|k: int| 0 <= k < i ==> #[trigger] edge_within_child(ro@, edges@, p@, k),
            forall|k: int, j: int| 0 <= k < i && 0 <= j < n ==> #[trigger] siblings_agree(edges@, p@, k, j),
        decreases n - i,
    {
        let e = &edges[i];
        if e.attached {
            if e.bs >= ro.len() {
                assert(!edge_within_child(ro@, edges@, p@, i as int));
                return false;
            }
            let allowed = allowed_perms(ro[e.bs]);
            if !is_perm_subset(p[i].0, allowed) {
                assert(!edge_within_child(ro@, edges@, p@, i as int));
                return false;
            }
        }
        let mut j: usize = 0;
        while j < n
            invariant
                n == edges@.len(),
                n == p@.len(),
                i < n,
                j <= n,
                *e == edges@[i as int],
                forall|k: int| 0 <= k < i ==> #[trigger] edge_within_child(ro@, edges@, p@, k),
                forall|k: int, m: int| 0 <= k < i && 0 <= m < n ==> #[trigger] siblings_agree(edges@, p@, k, m),
                edge_within_child(ro@, edges@, p@, i as int),
                forall|k: int| 0 <= k < j ==> #[trigger] siblings_agree(edges@, p@, i as int, k),
            decreases n - j,
        {
            let f = &edges[j];
            if i != j && e.attached && f.attached && e.bs == f.bs && !is_perm_subset(p[i].0, p[j].1) {
                assert(!siblings_agree(edges@, p@, i as int, j as int));
                return false;
            }
            j = j + 1;
        }
        i = i + 1;
    }
    true
}

} // verus!
