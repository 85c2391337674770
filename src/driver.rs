use vstd::prelude::*;
use crate::types::QemuOptsList;

verus! {

/// The operations a driver may implement.
#[derive(PartialEq, Eq, Structural, Clone, Copy, Debug)]
pub enum OpKind {
    Open,
    FileOpen,
    Close,
    Create,
    Read,
    Write,
    Flush,
    FlushToDisk,
    FlushToOs,
    Discard,
    WriteZeroes,
    GetBlockStatus,
    Truncate,
    SnapshotCreate,
    SnapshotGoto,
    SnapshotDelete,
    SnapshotList,
    Check,
    ReopenPrepare,
    ReopenCommit,
    ReopenAbort,
    AddChild,
    DelChild,
    ChildPerm,
    CheckPerm,
    SetPerm,
    AbortPermUpdate,
    DebugBreakpoint,
    AttachAioContext,
    DetachAioContext,
    IoPlug,
    IoUnplug,
    ProbeBlocksizes,
    InvalidateCache,
    Inactivate,
}

/// Operations whose absence is a successful no-op rather than `Unsupported`:
/// flushing (nothing to flush), block status (all allocated), the reopen
/// phases (no staging), execution-context changes (any context is fine), and
/// plugging.
pub open spec fn absent_is_noop(op: OpKind) -> bool {
    match op {
        OpKind::Flush | OpKind::FlushToDisk | OpKind::FlushToOs | OpKind::GetBlockStatus
        | OpKind::ReopenPrepare | OpKind::ReopenCommit | OpKind::ReopenAbort
        | OpKind::AttachAioContext | OpKind::DetachAioContext | OpKind::IoPlug
        | OpKind::IoUnplug => true,
        _ => false,
    }
}

/// What a dispatch of an operation to a driver comes to.
#[derive(PartialEq, Eq, Structural, Clone, Copy, Debug)]
pub enum Dispatch {
    /// The driver implements the operation: call it.
    Call,
    /// The driver does not, and doing nothing is the correct outcome.
    NoOp,
}

/// Capability descriptor of a driver type: its identity, static properties,
/// and the set of operations it implements.
pub struct BlockDriver {
    pub format_name: String,
    pub instance_size: i32,
    pub is_filter: bool,
    pub supports_backing: bool,
    pub bdrv_needs_filename: bool,
    pub has_variable_length: bool,
    /// Empty for an image-format driver.
    pub protocol_name: String,
    pub create_opts: Option<QemuOptsList>,
    pub ops: Vec<OpKind>,
}

impl BlockDriver {
    pub open spec fn supports(&self, op: OpKind) -> bool {
        self.ops@.contains(op)
    }

    /// The driver implements every operation that a node needs to have
    /// children: computing, checking, setting and rolling back permissions.
    pub open spec fn manages_children(&self) -> bool {
        &&& self.supports(OpKind::ChildPerm)
        &&& self.supports(OpKind::CheckPerm)
        &&& self.supports(OpKind::SetPerm)
        &&& self.supports(OpKind::AbortPermUpdate)
    }

    /// Whether the driver implements every operation that a node needs to
    /// have children.
    pub fn can_have_children(&self) -> (r: bool)
        ensures
            r == self.manages_children(),
    {
        self.implements(OpKind::ChildPerm) && self.implements(OpKind::CheckPerm)
            && self.implements(OpKind::SetPerm) && self.implements(OpKind::AbortPermUpdate)
    }

    /// A descriptor with the given name and private-state size, no static
    /// property set, and no operation.
    pub fn new(name: &str, instance_size: i32) -> (r: BlockDriver)
        ensures
            r.format_name@ == name@,
            r.instance_size == instance_size,
            !r.is_filter,
            !r.supports_backing,
            !r.bdrv_needs_filename,
            !r.has_variable_length,
            r.protocol_name@.len() == 0,
            r.create_opts.is_none(),
            r.ops@.len() == 0,
    {
        BlockDriver {
            format_name: name.to_owned(),
            instance_size,
            is_filter: false,
            supports_backing: false,
            bdrv_needs_filename: false,
            has_variable_length: false,
            protocol_name: String::new(),
            create_opts: None,
            ops: Vec::new(),
        }
    }

    /// Whether the driver implements `op`.
    pub fn implements(&self, op: OpKind) -> (r: bool)
        ensures
            r == self.supports(op),
    {
        let mut i: usize = 0;
        while i < self.ops.len()
            invariant
                i <= self.ops@.len(),
                forall|k: int| 0 <= k < i ==> self.ops@[k] != op,
            decreases self.ops@.len() - i,
        {
            if self.ops[i] == op {
                return true;
            }
            i = i + 1;
        }
        false
    }

    /// Declares that the driver implements `op`.
    pub fn add_op(&mut self, op: OpKind)
        ensures
            forall|k: OpKind| final(self).supports(k) <==> (old(self).supports(k) || k == op),
            final(self).format_name == old(self).format_name,
            final(self).instance_size == old(self).instance_size,
            final(self).is_filter == old(self).is_filter,
            final(self).supports_backing == old(self).supports_backing,
            final(self).bdrv_needs_filename == old(self).bdrv_needs_filename,
            final(self).has_variable_length == old(self).has_variable_length,
            final(self).protocol_name == old(self).protocol_name,
            final(self).create_opts == old(self).create_opts,
    {
        if !self.implements(op) {
            self.ops.push(op);
            proof {
                let n = old(self).ops@.len();
                assert forall|k: OpKind| self.ops@.contains(k) <==> (old(self).ops@.contains(k) || k == op) by {
                    if old(self).ops@.contains(k) {
                        let i = choose|i: int| 0 <= i < n && old(self).ops@[i] == k;
                        assert(self.ops@[i] == k);
                    }
                    if k == op {
                        assert(self.ops@[n as int] == op);
                    }
                    if self.ops@.contains(k) {
                        let i = choose|i: int| 0 <= i < n + 1 && self.ops@[i] == k;
                        if i < n {
                            assert(old(self).ops@[i] == k);
                        }
                    }
                }
            }
        }
    }

    /// How a call of `op` on a node of this driver is to be served: by the
    /// driver, as a no-op, or not at all.
    pub fn dispatch(&self, op: OpKind) -> (r: Result<Dispatch, crate::types::Error>)
        ensures
            self.supports(op) ==> r == Ok::<Dispatch, crate::types::Error>(Dispatch::Call),
            !self.supports(op) && absent_is_noop(op) ==> r == Ok::<Dispatch, crate::types::Error>(Dispatch::NoOp),
            !self.supports(op) && !absent_is_noop(op) ==> r == Err::<Dispatch, crate::types::Error>(crate::types::Error::Unsupported),
    {
        if self.implements(op) {
            Ok(Dispatch::Call)
        } else {
            match op {
                OpKind::Flush | OpKind::FlushToDisk | OpKind::FlushToOs | OpKind::GetBlockStatus
                | OpKind::ReopenPrepare | OpKind::ReopenCommit | OpKind::ReopenAbort
                | OpKind::AttachAioContext | OpKind::DetachAioContext | OpKind::IoPlug
                | OpKind::IoUnplug => Ok(Dispatch::NoOp),
                _ => Err(crate::types::Error::Unsupported),
            }
        }
    }
}

} // verus!
