use netool::protocol::Response;
use netool::registry::{OpenPortsJob, OpenStep, PortRegistry};

#[test]
fn new_registry_is_empty() {
    let registry: PortRegistry<u32> = PortRegistry::new();
    assert_eq!(registry.len(), 0);
    assert!(!registry.is_open(80));
}

#[test]
fn register_then_close_returns_the_handle() {
    let mut registry: PortRegistry<u32> = PortRegistry::new();
    assert_eq!(registry.register(9001, 7), None);
    assert!(registry.is_open(9001));
    assert_eq!(registry.len(), 1);
    assert_eq!(registry.close(9001), Some(7));
    assert!(!registry.is_open(9001));
    assert_eq!(registry.len(), 0);
}

#[test]
fn registering_twice_keeps_the_first_listener() {
    let mut registry: PortRegistry<u32> = PortRegistry::new();
    assert_eq!(registry.register(9001, 7), None);
    assert_eq!(registry.register(9001, 8), Some(8));
    assert_eq!(registry.len(), 1);
    assert_eq!(registry.close(9001), Some(7));
}

#[test]
fn closing_an_unregistered_port_changes_nothing() {
    let mut registry: PortRegistry<u32> = PortRegistry::new();
    registry.register(9001, 7);
    assert_eq!(registry.close(9002), None);
    assert_eq!(registry.len(), 1);
    assert!(registry.is_open(9001));
}

#[test]
fn close_ports_reports_registered_ports_in_request_order() {
    let mut registry: PortRegistry<u32> = PortRegistry::new();
    registry.register(1, 10);
    registry.register(2, 20);
    registry.register(3, 30);
    let closed = registry.close_ports(&vec![3, 9, 1, 3, 1]);
    assert_eq!(closed.ports, vec![3, 1]);
    assert_eq!(closed.handles, vec![30, 10]);
    assert_eq!(registry.len(), 1);
    assert!(registry.is_open(2));
}

#[test]
fn close_ports_with_nothing_registered_reports_nothing() {
    let mut registry: PortRegistry<u32> = PortRegistry::new();
    let closed = registry.close_ports(&vec![1, 2, 3]);
    assert_eq!(closed.ports, Vec::<u16>::new());
    assert_eq!(closed.handles, Vec::<u32>::new());
    assert_eq!(registry.len(), 0);
}

#[test]
fn open_job_binds_each_free_port_in_order() {
    let mut registry: PortRegistry<u32> = PortRegistry::new();
    let mut job = OpenPortsJob::new(vec![9001, 9002]);
    assert_eq!(job.advance(&registry), OpenStep::Bind(9001));
    assert_eq!(job.bound(&mut registry, 1), None);
    assert_eq!(job.advance(&registry), OpenStep::Bind(9002));
    assert_eq!(job.bound(&mut registry, 2), None);
    assert_eq!(job.advance(&registry), OpenStep::Done);
    assert_eq!(job.finish(), Response::PortsOpened { ports: vec![9001, 9002] });
    assert!(registry.is_open(9001));
    assert!(registry.is_open(9002));
}

#[test]
fn open_job_reports_registered_ports_without_binding() {
    let mut registry: PortRegistry<u32> = PortRegistry::new();
    registry.register(9001, 1);
    registry.register(9002, 2);
    let mut job = OpenPortsJob::new(vec![9001, 9002, 9001]);
    assert_eq!(job.advance(&registry), OpenStep::Done);
    assert_eq!(job.finish(), Response::PortsOpened { ports: vec![9001, 9002, 9001] });
    assert_eq!(registry.len(), 2);
    assert_eq!(registry.close(9001), Some(1));
}

#[test]
fn open_job_omits_ports_that_cannot_be_bound() {
    let mut registry: PortRegistry<u32> = PortRegistry::new();
    let mut job = OpenPortsJob::new(vec![80, 9001, 81]);
    assert_eq!(job.advance(&registry), OpenStep::Bind(80));
    job.bind_failed();
    assert_eq!(job.advance(&registry), OpenStep::Bind(9001));
    assert_eq!(job.bound(&mut registry, 5), None);
    assert_eq!(job.advance(&registry), OpenStep::Bind(81));
    job.bind_failed();
    assert_eq!(job.advance(&registry), OpenStep::Done);
    assert_eq!(job.finish(), Response::PortsOpened { ports: vec![9001] });
    assert_eq!(registry.len(), 1);
}

#[test]
fn open_job_counts_a_duplicate_as_opened_once_bound() {
    let mut registry: PortRegistry<u32> = PortRegistry::new();
    let mut job = OpenPortsJob::new(vec![9001, 9001]);
    assert_eq!(job.advance(&registry), OpenStep::Bind(9001));
    assert_eq!(job.bound(&mut registry, 1), None);
    assert_eq!(job.advance(&registry), OpenStep::Done);
    assert_eq!(job.finish(), Response::PortsOpened { ports: vec![9001, 9001] });
    assert_eq!(registry.len(), 1);
}

#[test]
fn open_job_retries_a_duplicate_after_a_failed_bind() {
    let mut registry: PortRegistry<u32> = PortRegistry::new();
    let mut job = OpenPortsJob::new(vec![9001, 9001]);
    assert_eq!(job.advance(&registry), OpenStep::Bind(9001));
    job.bind_failed();
    assert_eq!(job.advance(&registry), OpenStep::Bind(9001));
    assert_eq!(job.bound(&mut registry, 2), None);
    assert_eq!(job.advance(&registry), OpenStep::Done);
    assert_eq!(job.finish(), Response::PortsOpened { ports: vec![9001] });
}

#[test]
fn open_job_with_no_ports_is_done_at_once() {
    let registry: PortRegistry<u32> = PortRegistry::new();
    let mut job = OpenPortsJob::new(vec![]);
    assert_eq!(job.advance(&registry), OpenStep::Done);
    assert_eq!(job.finish(), Response::PortsOpened { ports: vec![] });
}

#[test]
fn open_job_hands_back_a_handle_it_cannot_place() {
    let mut registry: PortRegistry<u32> = PortRegistry::new();
    let mut job = OpenPortsJob::new(vec![]);
    assert_eq!(job.advance(&registry), OpenStep::Done);
    assert_eq!(job.bound(&mut registry, 9), Some(9));
    job.bind_failed();
    assert_eq!(registry.len(), 0);
    assert_eq!(job.finish(), Response::PortsOpened { ports: vec![] });
}
