use vstd::prelude::*;
use crate::driver::{BlockDriver, OpKind};
use crate::types::Error;

verus! {

/// Append-only catalog of driver descriptors, keyed by unique format name.
pub struct DriverRegistry {
    drivers: Vec<BlockDriver>,
}

/// Some entry of `drivers` carries the format name `name`.
pub open spec fn names_in(drivers: Seq<BlockDriver>, name: Seq<char>) -> bool {
    exists|i: int| 0 <= i < drivers.len() && (#[trigger] drivers[i]).format_name@ == name
}

impl View for DriverRegistry {
    type V = Seq<BlockDriver>;

    closed spec fn view(&self) -> Seq<BlockDriver> {
        self.drivers@
    }
}

impl DriverRegistry {
    /// No two entries share a format name.
    pub open spec fn wf(&self) -> bool {
        forall|i: int, j: int|
            0 <= i < self@.len() && 0 <= j < self@.len() && i != j
                ==> (#[trigger] self@[i]).format_name@ != (#[trigger] self@[j]).format_name@
    }

    pub open spec fn has_name(&self, name: Seq<char>) -> bool {
        names_in(self@, name)
    }

    /// An empty registry.
    pub fn new() -> (r: DriverRegistry)
        ensures
            r.wf(),
            r@.len() == 0,
    {
        DriverRegistry { drivers: Vec::new() }
    }

    /// Number of registered drivers.
    pub fn len(&self) -> (r: usize)
        ensures
            r == self@.len(),
    {
        self.drivers.len()
    }

    /// The descriptor under handle `i`.
    pub fn get(&self, i: usize) -> (r: &BlockDriver)
        requires
            i < self@.len(),
        ensures
            *r == self@[i as int],
    {
        &self.drivers[i]
    }

    /// Adds a descriptor. Fails with `DuplicateName` if its format name is
    /// taken, else with `Unsupported` if it lacks `open` or `close`. On
    /// success the descriptor is appended and its handle returned; on failure
    /// the registry is unchanged.
    pub fn register(&mut self, drv: BlockDriver) -> (r: Result<usize, Error>)
        requires
            old(self).wf(),
        ensures
            final(self).wf(),
            old(self).has_name(drv.format_name@) ==> r == Err::<usize, Error>(Error::DuplicateName),
            !old(self).has_name(drv.format_name@) && !(drv.supports(OpKind::Open) && drv.supports(OpKind::Close))
                ==> r == Err::<usize, Error>(Error::Unsupported),
            !old(self).has_name(drv.format_name@) && drv.supports(OpKind::Open) && drv.supports(OpKind::Close)
                ==> r == Ok::<usize, Error>(old(self)@.len() as usize),
            r.is_ok() ==> final(self)@ == old(self)@.push(drv),
            r.is_err() ==> final(self)@ == old(self)@,
    {
        match self.lookup(&drv.format_name) {
            Ok(_) => {
                return Err(Error::DuplicateName);
            },
            Err(_) => {},
        }
        if !(drv.implements(OpKind::Open) && drv.implements(OpKind::Close)) {
            return Err(Error::Unsupported);
        }
        let idx = self.drivers.len();
        self.drivers.push(drv);
        proof {
            assert forall|i: int, j: int|
                0 <= i < self@.len() && 0 <= j < self@.len() && i != j
                    implies (#[trigger] self@[i]).format_name@ != (#[trigger] self@[j]).format_name@ by {
                if i < idx && j < idx {
                    assert(old(self)@[i] == self@[i] && old(self)@[j] == self@[j]);
                } else if i < idx {
                    assert(old(self)@[i] == self@[i]);
                } else {
                    assert(old(self)@[j] == self@[j]);
                }
            }
        }
        Ok(idx)
    }

    /// The handle of the descriptor registered under `name`, or `NotFound`.
    pub fn lookup(&self, name: &String) -> (r: Result<usize, Error>)
        ensures
            match r {
                Ok(i) => i < self@.len() && self@[i as int].format_name@ == name@,
                Err(e) => e == Error::NotFound && !self.has_name(name@),
            },
    {
        let mut i: usize = 0;
        while i < self.drivers.len()
            invariant
                i <= self@.len(),
                self@ == self.drivers@,
                forall|k: int| 0 <= k < i ==> self@[k].format_name@ != name@,
            decreases self@.len() - i,
        {
            if self.drivers[i].format_name == *name {
                return Ok(i);
            }
            i = i + 1;
        }
        Err(Error::NotFound)
    }
}

/// Registers a driver descriptor; see `DriverRegistry::register`.
pub fn bdrv_register(reg: &mut DriverRegistry, bdrv: BlockDriver) -> (r: Result<(), Error>)
    requires
        old(reg).wf(),
    ensures
        final(reg).wf(),
        old(reg).has_name(bdrv.format_name@) ==> r == Err::<(), Error>(Error::DuplicateName),
        !old(reg).has_name(bdrv.format_name@) && !(bdrv.supports(OpKind::Open) && bdrv.supports(OpKind::Close))
            ==> r == Err::<(), Error>(Error::Unsupported),
        !old(reg).has_name(bdrv.format_name@) && bdrv.supports(OpKind::Open) && bdrv.supports(OpKind::Close)
            ==> r.is_ok(),
        r.is_ok() ==> final(reg)@ == old(reg)@.push(bdrv),
        r.is_err() ==> final(reg)@ == old(reg)@,
{
    match reg.register(bdrv) {
        Ok(_) => Ok(()),
        Err(e) => Err(e),
    }
}

/// A well-formed registry, which every registration keeps well formed, holds
/// at most one entry under any format name.
pub proof fn lemma_one_entry_per_name(reg: DriverRegistry, name: Seq<char>, i: int, j: int)
    requires
        reg.wf(),
        0 <= i < reg@.len(),
        0 <= j < reg@.len(),
        reg@[i].format_name@ == name,
        reg@[j].format_name@ == name,
    ensures
        i == j,
{
}

} // verus!
