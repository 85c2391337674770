use vstd::prelude::*;
use crate::driver::{BlockDriver, OpKind};
use crate::node::zero_buffer;
use crate::registry::DriverRegistry;
use crate::types::Error;

verus! {

/// Reports the error message `message` through the slot `errp`. The slot
/// holds at most one message: one already there is kept.
pub fn error_setg(errp: &mut Option<String>, message: String)
    ensures
        old(errp).is_none() ==> *final(errp) == Some(message),
        old(errp).is_some() ==> *final(errp) == *old(errp),
{
    if errp.is_none() {
        *errp = Some(message);
    }
}

/// Open routine of the stub image-format driver: it never opens anything,
/// and reports why through `errp`.
pub fn qcow2_open(errp: &mut Option<String>) -> (r: Result<(), Error>)
    ensures
        r == Err::<(), Error>(Error::Unsupported),
        old(errp).is_none() ==> final(errp).is_some() && final(errp).unwrap()@ == "Thank you for using Rust"@,
        old(errp).is_some() ==> *final(errp) == *old(errp),
{
    error_setg(errp, "Thank you for using Rust".to_owned());
    Err(Error::Unsupported)
}

/// Close routine of the stub image-format driver: nothing to release.
pub fn qcow2_close() {
}

/// The descriptor of the stub image-format driver "qcow2-rust": it
/// implements `open` and `close` only.
pub fn qcow2_rust_driver() -> (r: BlockDriver)
    ensures
        r.format_name@ == "qcow2-rust"@,
        r.instance_size == 0,
        forall|k: OpKind| r.supports(k) <==> (k == OpKind::Open || k == OpKind::Close),
        !r.is_filter && !r.supports_backing && !r.bdrv_needs_filename && !r.has_variable_length,
{
    let mut bdrv = BlockDriver::new("qcow2-rust", 0);
    bdrv.add_op(OpKind::Open);
    bdrv.add_op(OpKind::Close);
    bdrv
}

/// Registers the stub image-format driver "qcow2-rust".
pub fn bdrv_qcow2_rust_init(reg: &mut DriverRegistry) -> (r: Result<(), Error>)
    requires
        old(reg).wf(),
    ensures
        final(reg).wf(),
        old(reg).has_name("qcow2-rust"@) ==> r == Err::<(), Error>(Error::DuplicateName)
            && final(reg)@ == old(reg)@,
        !old(reg).has_name("qcow2-rust"@) ==> r.is_ok() && final(reg)@.len() == old(reg)@.len() + 1
            && final(reg)@.take(old(reg)@.len() as int) == old(reg)@
            && final(reg)@.last().format_name@ == "qcow2-rust"@,
{
    let bdrv = qcow2_rust_driver();
    let ghost d = bdrv;
    let r = crate::registry::bdrv_register(reg, bdrv);
    proof {
        assert(d.supports(OpKind::Open) && d.supports(OpKind::Close));
        if r.is_ok() {
            assert(final(reg)@.take(old(reg)@.len() as int) =~= old(reg)@);
        }
    }
    r
}

/// The descriptor of the null driver "null": it implements `open`, `close`
/// and `read`, and reads back zeroes.
pub fn null_driver() -> (r: BlockDriver)
    ensures
        r.format_name@ == "null"@,
        r.instance_size == 0,
        forall|k: OpKind| r.supports(k) <==> (k == OpKind::Open || k == OpKind::Close || k == OpKind::Read),
        !r.is_filter && !r.supports_backing && !r.bdrv_needs_filename && !r.has_variable_length,
{
    let mut bdrv = BlockDriver::new("null", 0);
    bdrv.add_op(OpKind::Open);
    bdrv.add_op(OpKind::Close);
    bdrv.add_op(OpKind::Read);
    bdrv
}

/// Read routine of the null driver: `bytes` zero bytes, and the byte count.
pub fn null_co_preadv(_offset: u64, bytes: usize) -> (r: (Vec<u8>, usize))
    ensures
        r.1 == bytes,
        r.0@.len() == bytes,
        forall|i: int| 0 <= i < bytes ==> r.0@[i] == 0,
{
    (zero_buffer(bytes), bytes)
}

} // verus!
