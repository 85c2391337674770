use vstd::prelude::*;
use crate::types::{AioContext, QDict};

verus! {

/// Life-cycle state of a device node.
#[derive(PartialEq, Eq, Structural, Clone, Copy, Debug)]
pub enum NodeState {
    Open,
    /// Handed off (for migration); returns to `Open` through `invalidate_cache`.
    Inactive,
    /// Closed, or made unusable by a failed cache invalidation.
    Closed,
}

/// Runtime state of one device node.
pub struct BlockDriverState {
    pub open_flags: i32,
    pub read_only: bool,
    pub encrypted: bool,
    pub valid_key: bool,
    pub sg: bool,
    pub probed: bool,
    /// Index of the node's driver in the registry; fixed at open time.
    pub drv: usize,
    /// Driver-private state block, sized by the driver's descriptor.
    pub opaque: Vec<u8>,
    /// Identifier of the I/O execution context servicing the node, if any.
    pub aio_context: Option<AioContext>,
    pub options: QDict,
    pub state: NodeState,
    /// Number of operations admitted and not yet completed.
    pub in_flight: u64,
    /// While set, no new operation is admitted.
    pub drained: bool,
}

/// A buffer of `len` zero bytes.
pub fn zero_buffer(len: usize) -> (r: Vec<u8>)
    ensures
        r@.len() == len,
        forall|i: int| 0 <= i < len ==> r@[i] == 0,
{
    let mut v: Vec<u8> = Vec::with_capacity(len);
    let mut i: usize = 0;
    while i < len
        invariant
            i <= len,
            v@.len() == i,
            forall|k: int| 0 <= k < i ==> v@[k] == 0,
        decreases len - i,
    {
        v.push(0);
        i = i + 1;
    }
    v
}

/// How a parent node reacts to events on one of its children.
#[derive(PartialEq, Eq, Structural, Clone, Copy, Debug)]
pub struct BdrvChildRole {
    /// The parent stays attached to this very node when the graph changes.
    pub stay_at_node: bool,
    /// The parent propagates draining to what it wraps.
    pub propagates_drain: bool,
}

/// A directed edge from a parent node to a child node.
pub struct BdrvChild {
    pub parent: usize,
    /// The child node.
    pub bs: usize,
    /// Name of the relationship, such as "backing" or "file".
    pub name: String,
    pub role: BdrvChildRole,
    /// Operations the parent performs on the child.
    pub perm: u64,
    /// Operations the parent lets other parents of the child perform.
    pub shared_perm: u64,
    /// False once the edge has been removed; its handle is never reused.
    pub attached: bool,
}

} // verus!

verus! {

/// Pending reconfiguration of one node, between prepare and commit or abort.
pub struct BDRVReopenState {
    /// The node to reconfigure.
    pub bs: usize,
    pub flags: i32,
    pub options: QDict,
    /// The options the user gave explicitly, as opposed to defaults.
    pub explicit_options: QDict,
    /// The driver's staging area.
    pub opaque: Vec<u8>,
}

/// A batch of nodes to reconfigure together.
pub struct BlockReopenQueue {
    pub entries: Vec<BDRVReopenState>,
}

} // verus!
