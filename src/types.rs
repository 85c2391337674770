use vstd::prelude::*;

verus! {

/// An I/O execution context.
#[derive(PartialEq, Eq, Structural, Clone, Copy, Debug)]
pub enum AioContext {
    /// The main loop.
    Main,
    /// A dedicated I/O thread, by identifier.
    IoThread(u64),
}

/// One `key=value` entry of an option mapping.
pub struct OptionEntry {
    pub key: String,
    pub value: String,
}

/// An option mapping, in display order.
pub struct QDict {
    pub entries: Vec<OptionEntry>,
}

impl QDict {
    /// Some entry has the key `key`.
    pub open spec fn contains_key(&self, key: Seq<char>) -> bool {
        exists|k: int| 0 <= k < self.entries@.len() && (#[trigger] self.entries@[k]).key@ == key
    }

    /// An empty mapping.
    pub fn new() -> (r: QDict)
        ensures
            r.entries@.len() == 0,
    {
        QDict { entries: Vec::new() }
    }

    /// Appends the entry `key=value`.
    pub fn put(&mut self, key: String, value: String)
        ensures
            final(self).entries@.len() == old(self).entries@.len() + 1,
            final(self).entries@.drop_last() == old(self).entries@,
            final(self).entries@.last().key == key,
            final(self).entries@.last().value == value,
    {
        self.entries.push(OptionEntry { key, value });
    }

    /// Whether some entry has the key `key`.
    pub fn has_key(&self, key: &String) -> (r: bool)
        ensures
            r == self.contains_key(key@),
    {
        let mut i: usize = 0;
        while i < self.entries.len()
            invariant
                i <= self.entries@.len(),
                forall|k: int| 0 <= k < i ==> self.entries@[k].key@ != key@,
            decreases self.entries@.len() - i,
        {
            if self.entries[i].key == *key {
                return true;
            }
            i = i + 1;
        }
        false
    }
}

/// A parsed option group.
pub struct QemuOpts {
    pub entries: Vec<OptionEntry>,
}

/// The description of an option group: its name and the keys it accepts.
pub struct QemuOptsList {
    pub name: String,
    pub keys: Vec<String>,
}

/// Physical and logical block sizes of a device, in bytes.
pub struct BlockSizes {
    pub phys: u32,
    pub log: u32,
}

/// Disk geometry of a device.
pub struct HDGeometry {
    pub heads: u32,
    pub sectors: u32,
    pub cylinders: u32,
}

/// Snapshot descriptor: fixed-width identifier and name, the size of the saved
/// machine state, a (seconds, nanoseconds) timestamp and a monotonic clock value.
pub struct QEMUSnapshotInfo {
    pub id_str: [u8; 128],
    pub name: [u8; 256],
    pub vm_state_size: u64,
    pub date_sec: u32,
    pub date_nsec: u32,
    pub vm_clock_nsec: u64,
}

/// Findings of a consistency check. Corruptions are data, not a failure.
pub struct BdrvCheckResult {
    pub corruptions: i32,
    pub leaks: i32,
    pub check_errors: i32,
    pub corruptions_fixed: i32,
    pub leaks_fixed: i32,
    pub image_end_offset: i64,
    pub bfi: i32,
}

/// Static information a driver reports about an open image.
pub struct BlockDriverInfo {
    pub cluster_size: i32,
    pub vm_state_offset: i64,
    pub is_dirty: bool,
    pub unallocated_blocks_are_zero: bool,
    pub can_write_zeroes_with_unmap: bool,
    pub needs_compressed_writes: bool,
}

/// One buffer segment of a transfer: its address and its length in bytes.
#[allow(non_camel_case_types)]
#[derive(PartialEq, Eq, Structural, Clone, Copy, Debug)]
pub struct iovec {
    pub iov_base: u64,
    pub iov_len: usize,
}

/// Total length of the segments.
pub open spec fn iov_total(iov: Seq<iovec>) -> int
    decreases iov.len(),
{
    if iov.len() == 0 {
        0
    } else {
        iov_total(iov.drop_last()) + iov.last().iov_len
    }
}

/// An I/O vector: a sequence of buffer segments and their cached total size,
/// the unit of transfer of reads and writes.
pub struct QEMUIOVector {
    iov: Vec<iovec>,
    size: usize,
}

impl QEMUIOVector {
    pub closed spec fn segments(&self) -> Seq<iovec> {
        self.iov@
    }

    /// The cached size is the total length of the segments.
    pub closed spec fn wf(&self) -> bool {
        self.size == iov_total(self.iov@)
    }

    /// An empty vector.
    pub fn new() -> (r: QEMUIOVector)
        ensures
            r.wf(),
            r.segments().len() == 0,
    {
        QEMUIOVector { iov: Vec::new(), size: 0 }
    }

    /// The total size of the segments.
    pub fn size(&self) -> (r: usize)
        requires
            self.wf(),
        ensures
            r == iov_total(self.segments()),
    {
        self.size
    }

    /// The number of segments.
    pub fn niov(&self) -> (r: usize)
        ensures
            r == self.segments().len(),
    {
        self.iov.len()
    }

    /// Appends the segment of `len` bytes at `base`. Fails with
    /// `InvalidOption`, changing nothing, if the total size would overflow.
    pub fn add(&mut self, base: u64, len: usize) -> (r: Result<(), Error>)
        requires
            old(self).wf(),
        ensures
            final(self).wf(),
            iov_total(old(self).segments()) + len > usize::MAX ==> r == Err::<(), Error>(Error::InvalidOption)
                && final(self).segments() == old(self).segments(),
            iov_total(old(self).segments()) + len <= usize::MAX ==> r.is_ok()
                && final(self).segments() == old(self).segments().push(iovec { iov_base: base, iov_len: len }),
    {
        if len > usize::MAX - self.size {
            return Err(Error::InvalidOption);
        }
        self.iov.push(iovec { iov_base: base, iov_len: len });
        self.size = self.size + len;
        proof {
            assert(self.iov@.drop_last() =~= old(self).iov@);
        }
        Ok(())
    }
}

/// The kinds of failure the framework reports.
#[derive(PartialEq, Eq, Structural, Clone, Copy, Debug)]
pub enum Error {
    /// No driver is registered under the requested format name.
    NotFound,
    /// A driver is already registered under that format name.
    DuplicateName,
    /// The driver does not implement the requested operation.
    Unsupported,
    /// The requested permissions cannot be granted together.
    PermissionConflict,
    /// A driver refused the new permissions in its check step.
    PermissionRejected,
    /// An option is missing or not acceptable.
    InvalidOption,
    /// The underlying transfer failed, with a system-style error number.
    IOFailure(i32),
    /// The node is drained: no new operation is admitted.
    Busy,
    /// A programming error: the handle is stale, closed, or still has
    /// operations in flight.
    Fatal,
}

} // verus!
