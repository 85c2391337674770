use blockdrv::driver::{BlockDriver, Dispatch, OpKind};
use blockdrv::drivers::{
    bdrv_qcow2_rust_init, error_setg, null_co_preadv, null_driver, qcow2_close, qcow2_open,
    qcow2_rust_driver,
};
use blockdrv::graph::{BlockGraph, PermRequest, BDRV_O_RDWR};
use blockdrv::node::{BDRVReopenState, BdrvChildRole, BlockReopenQueue, NodeState};
use blockdrv::perm::{
    check_perms, is_perm_subset, PERM_ALL, PERM_CONSISTENT_READ, PERM_READ_ONLY_ALLOWED,
    PERM_RESIZE, PERM_WRITE,
};
use blockdrv::registry::{bdrv_register, DriverRegistry};
use blockdrv::types::{AioContext, Error, QDict};

fn role() -> BdrvChildRole {
    BdrvChildRole { stay_at_node: false, propagates_drain: true }
}

fn name(s: &str) -> String {
    s.to_string()
}

fn registry_with_null() -> DriverRegistry {
    let mut reg = DriverRegistry::new();
    let mut d = null_driver();
    d.add_op(OpKind::ChildPerm);
    d.add_op(OpKind::CheckPerm);
    d.add_op(OpKind::SetPerm);
    d.add_op(OpKind::AbortPermUpdate);
    assert_eq!(reg.register(d), Ok(0));
    reg
}

fn open_rw(g: &mut BlockGraph, reg: &DriverRegistry) -> usize {
    g.bdrv_open(reg, &name("null"), QDict::new(), BDRV_O_RDWR, Ok(())).unwrap()
}

#[test]
fn duplicate_registration_keeps_one_entry() {
    let mut reg = DriverRegistry::new();
    assert_eq!(reg.register(null_driver()), Ok(0));
    assert_eq!(reg.register(null_driver()), Err(Error::DuplicateName));
    assert_eq!(reg.len(), 1);
    assert_eq!(reg.lookup(&name("null")), Ok(0));
}

#[test]
fn register_needs_open_and_close() {
    let mut reg = DriverRegistry::new();
    let mut d = BlockDriver::new("bare", 0);
    d.add_op(OpKind::Open);
    assert_eq!(bdrv_register(&mut reg, d), Err(Error::Unsupported));
    assert_eq!(reg.len(), 0);
}

#[test]
fn lookup_missing_is_not_found() {
    let reg = registry_with_null();
    assert_eq!(reg.lookup(&name("raw")), Err(Error::NotFound));
}

#[test]
fn qcow2_stub_registers_and_refuses_open() {
    let mut reg = DriverRegistry::new();
    assert_eq!(bdrv_qcow2_rust_init(&mut reg), Ok(()));
    assert_eq!(bdrv_qcow2_rust_init(&mut reg), Err(Error::DuplicateName));
    assert_eq!(reg.get(0).format_name, "qcow2-rust");
    let mut errp: Option<String> = None;
    let res = qcow2_open(&mut errp);
    assert_eq!(res, Err(Error::Unsupported));
    assert_eq!(errp.unwrap(), "Thank you for using Rust");
    qcow2_close();
    let mut g = BlockGraph::new();
    let mut errp2: Option<String> = None;
    let r = g.bdrv_open(&reg, &name("qcow2-rust"), QDict::new(), 0, qcow2_open(&mut errp2));
    assert_eq!(r, Err(Error::Unsupported));
    assert_eq!(g.node_count(), 0);
}

#[test]
fn qcow2_descriptor_has_open_and_close_only() {
    let d = qcow2_rust_driver();
    assert!(d.implements(OpKind::Open));
    assert!(d.implements(OpKind::Close));
    assert!(!d.implements(OpKind::Read));
    assert_eq!(d.instance_size, 0);
}

#[test]
fn error_slot_keeps_first_error() {
    let mut errp: Option<String> = None;
    error_setg(&mut errp, name("first"));
    error_setg(&mut errp, name("second"));
    assert_eq!(errp.unwrap(), "first");
}

#[test]
fn add_op_is_idempotent() {
    let mut d = BlockDriver::new("x", 16);
    d.add_op(OpKind::Read);
    d.add_op(OpKind::Read);
    assert_eq!(d.ops.len(), 1);
    assert_eq!(d.format_name, "x");
    assert_eq!(d.instance_size, 16);
}

#[test]
fn dispatch_of_missing_operations() {
    let d = null_driver();
    assert_eq!(d.dispatch(OpKind::Read), Ok(Dispatch::Call));
    assert_eq!(d.dispatch(OpKind::Flush), Ok(Dispatch::NoOp));
    assert_eq!(d.dispatch(OpKind::GetBlockStatus), Ok(Dispatch::NoOp));
    assert_eq!(d.dispatch(OpKind::Write), Err(Error::Unsupported));
    assert_eq!(d.dispatch(OpKind::Truncate), Err(Error::Unsupported));
    assert_eq!(d.dispatch(OpKind::SnapshotCreate), Err(Error::Unsupported));
}

#[test]
fn null_read_then_use_after_close() {
    let mut reg = DriverRegistry::new();
    assert_eq!(reg.register(null_driver()), Ok(0));
    let mut g = BlockGraph::new();
    let h = g.bdrv_open(&reg, &name("null"), QDict::new(), 0, Ok(())).unwrap();
    assert_eq!(g.begin_io(&reg, h, OpKind::Read), Ok(Dispatch::Call));
    let (buf, n) = null_co_preadv(0, 4096);
    g.end_io(h);
    assert_eq!(n, 4096);
    assert_eq!(buf.len(), 4096);
    assert!(buf.iter().all(|b| *b == 0));
    assert_eq!(g.bdrv_close(h), Ok(()));
    assert_eq!(g.node(h).state, NodeState::Closed);
    assert_eq!(g.begin_io(&reg, h, OpKind::Read), Err(Error::Fatal));
    assert_eq!(g.bdrv_close(h), Err(Error::Fatal));
}

#[test]
fn open_sets_node_state() {
    let mut reg = DriverRegistry::new();
    let mut d = BlockDriver::new("sized", 8);
    d.add_op(OpKind::Open);
    d.add_op(OpKind::Close);
    reg.register(d).unwrap();
    let mut g = BlockGraph::new();
    let mut opts = QDict::new();
    opts.put(name("cache"), name("none"));
    let h = g.bdrv_open(&reg, &name("sized"), opts, BDRV_O_RDWR, Ok(())).unwrap();
    let n = g.node(h);
    assert_eq!(n.opaque, vec![0u8; 8]);
    assert!(!n.read_only);
    assert_eq!(n.open_flags, BDRV_O_RDWR);
    assert_eq!(n.options.entries.len(), 1);
    assert_eq!(n.in_flight, 0);
    let h2 = g.bdrv_open(&reg, &name("sized"), QDict::new(), 0, Ok(())).unwrap();
    assert!(g.node(h2).read_only);
    assert_eq!(h2, 1);
}

#[test]
fn open_errors() {
    let mut reg = registry_with_null();
    let mut d = BlockDriver::new("file", 0);
    d.add_op(OpKind::Open);
    d.add_op(OpKind::Close);
    d.bdrv_needs_filename = true;
    reg.register(d).unwrap();
    let mut g = BlockGraph::new();
    assert_eq!(g.bdrv_open(&reg, &name("nbd"), QDict::new(), 0, Ok(())), Err(Error::NotFound));
    assert_eq!(g.bdrv_open(&reg, &name("file"), QDict::new(), 0, Ok(())), Err(Error::InvalidOption));
    let mut opts = QDict::new();
    opts.put(name("filename"), name("disk.img"));
    assert_eq!(g.bdrv_open(&reg, &name("file"), opts, 0, Ok(())), Ok(0));
    assert_eq!(
        g.bdrv_open(&reg, &name("null"), QDict::new(), 0, Err(Error::IOFailure(5))),
        Err(Error::IOFailure(5))
    );
    assert_eq!(g.node_count(), 1);
}

#[test]
fn drain_twice_is_a_no_op() {
    let reg = registry_with_null();
    let mut g = BlockGraph::new();
    let h = open_rw(&mut g, &reg);
    assert_eq!(g.drain(h), Ok(true));
    assert!(g.node(h).drained);
    assert_eq!(g.drain(h), Ok(true));
    assert!(g.node(h).drained);
    assert_eq!(g.node(h).in_flight, 0);
    assert_eq!(g.begin_io(&reg, h, OpKind::Read), Err(Error::Busy));
    assert_eq!(g.drain_end(h), Ok(()));
    assert_eq!(g.begin_io(&reg, h, OpKind::Read), Ok(Dispatch::Call));
}

#[test]
fn drain_reports_in_flight_and_close_refuses() {
    let reg = registry_with_null();
    let mut g = BlockGraph::new();
    let h = open_rw(&mut g, &reg);
    assert_eq!(g.begin_io(&reg, h, OpKind::Read), Ok(Dispatch::Call));
    assert_eq!(g.drain(h), Ok(false));
    assert_eq!(g.bdrv_close(h), Err(Error::Fatal));
    assert_eq!(g.set_aio_context(h, Some(AioContext::IoThread(1))), Err(Error::Busy));
    g.end_io(h);
    assert_eq!(g.drain(h), Ok(true));
    assert_eq!(g.set_aio_context(h, Some(AioContext::IoThread(1))), Ok(()));
    assert_eq!(g.node(h).aio_context, Some(AioContext::IoThread(1)));
    assert_eq!(g.set_aio_context(h, None), Ok(()));
    assert_eq!(g.node(h).aio_context, None);
}

#[test]
fn io_dispatch_outcomes() {
    let reg = registry_with_null();
    let mut g = BlockGraph::new();
    let h = open_rw(&mut g, &reg);
    assert_eq!(g.begin_io(&reg, h, OpKind::Flush), Ok(Dispatch::NoOp));
    assert_eq!(g.node(h).in_flight, 0);
    assert_eq!(g.begin_io(&reg, h, OpKind::Write), Err(Error::Unsupported));
    assert_eq!(g.begin_io(&reg, 7, OpKind::Read), Err(Error::Fatal));
    assert_eq!(g.begin_io(&reg, h, OpKind::Read), Ok(Dispatch::Call));
    assert_eq!(g.node(h).in_flight, 1);
}

#[test]
fn second_writer_conflicts_reader_fits() {
    let reg = registry_with_null();
    let mut g = BlockGraph::new();
    let a = open_rw(&mut g, &reg);
    let b = open_rw(&mut g, &reg);
    let c = open_rw(&mut g, &reg);
    let no_write = PERM_ALL & !PERM_WRITE;
    assert_eq!(g.add_child(&reg, a, b, name("file"), role(), PERM_WRITE, no_write, true), Ok(0));
    assert_eq!(
        g.add_child(&reg, c, b, name("file"), role(), PERM_WRITE, PERM_ALL, true),
        Err(Error::PermissionConflict)
    );
    assert_eq!(g.edge_count(), 1);
    assert_eq!(g.add_child(&reg, c, b, name("file"), role(), PERM_CONSISTENT_READ, PERM_ALL, true), Ok(1));
    assert_eq!(g.edge(1).perm, PERM_CONSISTENT_READ);
    assert_eq!(g.edge(0).perm, PERM_WRITE);
}

#[test]
fn add_child_errors() {
    let reg = registry_with_null();
    let mut g = BlockGraph::new();
    let a = open_rw(&mut g, &reg);
    let b = g.bdrv_open(&reg, &name("null"), QDict::new(), 0, Ok(())).unwrap();
    assert_eq!(g.add_child(&reg, a, a, name("self"), role(), 0, PERM_ALL, true), Err(Error::Fatal));
    assert_eq!(g.add_child(&reg, a, 9, name("x"), role(), 0, PERM_ALL, true), Err(Error::Fatal));
    // b is read-only: it cannot grant writing.
    assert_eq!(
        g.add_child(&reg, a, b, name("file"), role(), PERM_WRITE, PERM_ALL, true),
        Err(Error::PermissionConflict)
    );
    assert_eq!(
        g.add_child(&reg, a, b, name("file"), role(), PERM_CONSISTENT_READ, PERM_ALL, false),
        Err(Error::PermissionRejected)
    );
    assert_eq!(g.edge_count(), 0);
}

#[test]
fn parent_without_permission_operations_is_fatal() {
    let mut reg = DriverRegistry::new();
    reg.register(null_driver()).unwrap();
    let mut g = BlockGraph::new();
    let a = open_rw(&mut g, &reg);
    let b = open_rw(&mut g, &reg);
    assert_eq!(
        g.add_child(&reg, a, b, name("file"), role(), PERM_CONSISTENT_READ, PERM_ALL, true),
        Err(Error::Fatal)
    );
    assert_eq!(g.edge_count(), 0);
    assert!(!null_driver().can_have_children());
}

#[test]
fn negotiated_edges_are_consistent() {
    let reg = registry_with_null();
    let mut g = BlockGraph::new();
    let a = open_rw(&mut g, &reg);
    let b = open_rw(&mut g, &reg);
    let c = open_rw(&mut g, &reg);
    g.add_child(&reg, a, b, name("file"), role(), PERM_CONSISTENT_READ, PERM_ALL, true).unwrap();
    g.add_child(&reg, c, b, name("backing"), role(), PERM_CONSISTENT_READ, PERM_ALL, true).unwrap();
    let reqs = vec![
        PermRequest { edge: 0, perm: PERM_WRITE | PERM_CONSISTENT_READ, shared_perm: PERM_CONSISTENT_READ },
        PermRequest { edge: 1, perm: PERM_CONSISTENT_READ, shared_perm: PERM_ALL },
    ];
    assert_eq!(g.update_perms(&reqs, &vec![true, true]), Ok(()));
    for i in 0..g.edge_count() {
        let e = g.edge(i);
        let allowed = if g.node(e.bs).read_only { PERM_READ_ONLY_ALLOWED } else { PERM_ALL };
        assert!(is_perm_subset(e.perm, allowed));
        for j in 0..g.edge_count() {
            let f = g.edge(j);
            if i != j && e.bs == f.bs {
                assert!(is_perm_subset(e.perm, f.shared_perm));
            }
        }
    }
    assert_eq!(g.edge(0).perm, PERM_WRITE | PERM_CONSISTENT_READ);
    assert_eq!(g.edge(0).shared_perm, PERM_CONSISTENT_READ);
}

#[test]
fn rejected_check_leaves_all_edges() {
    let reg = registry_with_null();
    let mut g = BlockGraph::new();
    let a = open_rw(&mut g, &reg);
    let b = open_rw(&mut g, &reg);
    let c = open_rw(&mut g, &reg);
    g.add_child(&reg, a, b, name("file"), role(), PERM_CONSISTENT_READ, PERM_ALL, true).unwrap();
    g.add_child(&reg, a, c, name("backing"), role(), PERM_CONSISTENT_READ, PERM_ALL, true).unwrap();
    let before: Vec<(u64, u64)> = (0..2).map(|i| (g.edge(i).perm, g.edge(i).shared_perm)).collect();
    let reqs = vec![
        PermRequest { edge: 0, perm: PERM_WRITE, shared_perm: 0 },
        PermRequest { edge: 1, perm: PERM_RESIZE, shared_perm: 0 },
    ];
    assert_eq!(g.update_perms(&reqs, &vec![true, false]), Err(Error::PermissionRejected));
    let after: Vec<(u64, u64)> = (0..2).map(|i| (g.edge(i).perm, g.edge(i).shared_perm)).collect();
    assert_eq!(before, after);
}

#[test]
fn update_perms_conflict_and_bad_edge() {
    let reg = registry_with_null();
    let mut g = BlockGraph::new();
    let a = open_rw(&mut g, &reg);
    let b = open_rw(&mut g, &reg);
    let c = open_rw(&mut g, &reg);
    g.add_child(&reg, a, b, name("file"), role(), PERM_CONSISTENT_READ, PERM_CONSISTENT_READ, true).unwrap();
    g.add_child(&reg, c, b, name("file"), role(), PERM_CONSISTENT_READ, PERM_ALL, true).unwrap();
    let reqs = vec![PermRequest { edge: 1, perm: PERM_WRITE, shared_perm: PERM_ALL }];
    assert_eq!(g.update_perms(&reqs, &vec![true]), Err(Error::PermissionConflict));
    assert_eq!(g.edge(1).perm, PERM_CONSISTENT_READ);
    let bad = vec![PermRequest { edge: 5, perm: 0, shared_perm: 0 }];
    assert_eq!(g.update_perms(&bad, &vec![true]), Err(Error::Fatal));
    assert_eq!(g.del_child(1), Ok(()));
    assert!(!g.edge(1).attached);
    assert_eq!(g.del_child(1), Err(Error::Fatal));
    assert_eq!(g.update_perms(&reqs, &vec![true]), Err(Error::Fatal));
}

#[test]
fn later_request_on_same_edge_wins() {
    let reg = registry_with_null();
    let mut g = BlockGraph::new();
    let a = open_rw(&mut g, &reg);
    let b = open_rw(&mut g, &reg);
    g.add_child(&reg, a, b, name("file"), role(), 0, PERM_ALL, true).unwrap();
    let reqs = vec![
        PermRequest { edge: 0, perm: PERM_WRITE, shared_perm: 0 },
        PermRequest { edge: 0, perm: PERM_CONSISTENT_READ, shared_perm: PERM_ALL },
    ];
    assert_eq!(g.update_perms(&reqs, &vec![true, true]), Ok(()));
    assert_eq!(g.edge(0).perm, PERM_CONSISTENT_READ);
    assert_eq!(g.edge(0).shared_perm, PERM_ALL);
}

#[test]
fn close_releases_outgoing_edges() {
    let reg = registry_with_null();
    let mut g = BlockGraph::new();
    let a = open_rw(&mut g, &reg);
    let b = open_rw(&mut g, &reg);
    g.add_child(&reg, a, b, name("file"), role(), PERM_WRITE, PERM_ALL, true).unwrap();
    assert_eq!(g.bdrv_close(a), Ok(()));
    assert!(!g.edge(0).attached);
    assert_eq!(g.edge(0).perm, 0);
}

fn reopen_entry(bs: usize, flags: i32) -> BDRVReopenState {
    let mut options = QDict::new();
    options.put(name("mode"), name("new"));
    BDRVReopenState { bs, flags, options, explicit_options: QDict::new(), opaque: Vec::new() }
}

#[test]
fn failed_prepare_restores_every_node() {
    let reg = registry_with_null();
    let mut g = BlockGraph::new();
    let a = open_rw(&mut g, &reg);
    let b = open_rw(&mut g, &reg);
    let q = BlockReopenQueue { entries: vec![reopen_entry(a, 0), reopen_entry(b, 0)] };
    let r = g.reopen(q, &vec![Ok(()), Err(Error::InvalidOption)]);
    assert_eq!(r, Err(Error::InvalidOption));
    for h in [a, b] {
        assert_eq!(g.node(h).open_flags, BDRV_O_RDWR);
        assert!(!g.node(h).read_only);
        assert_eq!(g.node(h).options.entries.len(), 0);
    }
}

#[test]
fn reopen_commits_all_nodes() {
    let reg = registry_with_null();
    let mut g = BlockGraph::new();
    let a = open_rw(&mut g, &reg);
    let b = open_rw(&mut g, &reg);
    let q = BlockReopenQueue { entries: vec![reopen_entry(a, 0), reopen_entry(b, BDRV_O_RDWR)] };
    assert_eq!(g.reopen(q, &vec![Ok(()), Ok(())]), Ok(()));
    assert!(g.node(a).read_only);
    assert_eq!(g.node(a).open_flags, 0);
    assert_eq!(g.node(a).options.entries[0].value, "new");
    assert!(!g.node(b).read_only);
    assert_eq!(g.node(b).options.entries.len(), 1);
}

#[test]
fn reopen_read_only_under_writer_conflicts() {
    let reg = registry_with_null();
    let mut g = BlockGraph::new();
    let a = open_rw(&mut g, &reg);
    let b = open_rw(&mut g, &reg);
    g.add_child(&reg, a, b, name("file"), role(), PERM_WRITE, PERM_ALL, true).unwrap();
    let q = BlockReopenQueue { entries: vec![reopen_entry(b, 0)] };
    assert_eq!(g.reopen(q, &vec![Ok(())]), Err(Error::PermissionConflict));
    assert!(!g.node(b).read_only);
    let dup = BlockReopenQueue { entries: vec![reopen_entry(a, 0), reopen_entry(a, 0)] };
    assert_eq!(g.reopen(dup, &vec![Ok(()), Ok(())]), Err(Error::Fatal));
}

#[test]
fn inactivate_and_invalidate() {
    let reg = registry_with_null();
    let mut g = BlockGraph::new();
    let a = open_rw(&mut g, &reg);
    let b = open_rw(&mut g, &reg);
    assert_eq!(g.inactivate(a), Ok(()));
    assert_eq!(g.node(a).state, NodeState::Inactive);
    assert_eq!(g.inactivate(a), Err(Error::Fatal));
    assert_eq!(g.begin_io(&reg, a, OpKind::Read), Err(Error::Fatal));
    assert_eq!(g.invalidate_cache(a, Ok(())), Ok(()));
    assert_eq!(g.node(a).state, NodeState::Open);
    assert_eq!(g.invalidate_cache(a, Err(Error::IOFailure(5))), Ok(()));
    g.inactivate(b).unwrap();
    assert_eq!(g.invalidate_cache(b, Err(Error::IOFailure(5))), Err(Error::IOFailure(5)));
    assert_eq!(g.node(b).state, NodeState::Closed);
    assert_eq!(g.invalidate_cache(b, Ok(())), Err(Error::Fatal));
}

#[test]
fn check_perms_on_tables() {
    let reg = registry_with_null();
    let mut g = BlockGraph::new();
    let a = open_rw(&mut g, &reg);
    let b = open_rw(&mut g, &reg);
    g.add_child(&reg, a, b, name("file"), role(), 0, PERM_ALL, true).unwrap();
    let mut edges = Vec::new();
    edges.push(blockdrv::node::BdrvChild {
        parent: a,
        bs: b,
        name: name("file"),
        role: role(),
        perm: PERM_WRITE,
        shared_perm: 0,
        attached: true,
    });
    assert!(check_perms(&vec![false, false], &edges, &vec![(PERM_WRITE, 0)]));
    assert!(!check_perms(&vec![false, true], &edges, &vec![(PERM_WRITE, 0)]));
    assert!(!check_perms(&vec![false], &edges, &vec![(PERM_WRITE, 0)]));
}

#[test]
fn rollback_order_of_batches() {
    assert_eq!(blockdrv::graph::rollback_order(&vec![true, true, false, true]), vec![1usize, 0]);
    assert_eq!(blockdrv::graph::rollback_order(&vec![false, true]), Vec::<usize>::new());
    assert_eq!(blockdrv::graph::rollback_order(&vec![true, true]), Vec::<usize>::new());
    assert_eq!(blockdrv::graph::rollback_order(&vec![]), Vec::<usize>::new());
}

#[test]
fn drain_subtree_follows_propagating_edges() {
    let reg = registry_with_null();
    let mut g = BlockGraph::new();
    let a = open_rw(&mut g, &reg);
    let b = open_rw(&mut g, &reg);
    let c = open_rw(&mut g, &reg);
    let d = open_rw(&mut g, &reg);
    let quiet = BdrvChildRole { stay_at_node: false, propagates_drain: false };
    g.add_child(&reg, a, b, name("file"), role(), PERM_CONSISTENT_READ, PERM_ALL, true).unwrap();
    g.add_child(&reg, b, c, name("file"), role(), PERM_CONSISTENT_READ, PERM_ALL, true).unwrap();
    g.add_child(&reg, a, d, name("data"), quiet, PERM_CONSISTENT_READ, PERM_ALL, true).unwrap();
    assert_eq!(g.begin_io(&reg, c, OpKind::Read), Ok(Dispatch::Call));
    let (quiesced, reached) = g.drain_subtree(a).unwrap();
    assert!(!quiesced);
    assert_eq!(reached, vec![true, true, true, false]);
    assert!(g.node(a).drained && g.node(b).drained && g.node(c).drained);
    assert!(!g.node(d).drained);
    g.end_io(c);
    let (quiesced, reached) = g.drain_subtree(a).unwrap();
    assert!(quiesced);
    assert_eq!(reached, vec![true, true, true, false]);
    assert_eq!(g.drain_subtree(9), Err(Error::Fatal));
}

#[test]
fn io_vector_caches_total_size() {
    let mut q = blockdrv::types::QEMUIOVector::new();
    assert_eq!(q.size(), 0);
    assert_eq!(q.add(0x1000, 512), Ok(()));
    assert_eq!(q.add(0x4000, 3584), Ok(()));
    assert_eq!(q.size(), 4096);
    assert_eq!(q.niov(), 2);
    assert_eq!(q.add(0, usize::MAX), Err(Error::InvalidOption));
    assert_eq!(q.size(), 4096);
    assert_eq!(q.niov(), 2);
}
