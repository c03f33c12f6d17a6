use rucompart::address::SockAddr;
use rucompart::chan::{
    accept_step, keep_bound, AcceptStep, Channel, ChannelError, ConnectStep, Many, Once,
};

fn addrs() -> Vec<SockAddr> {
    vec![
        SockAddr::V4 { ip: 0x7f00_0001, port: 4000 },
        SockAddr::V6 { ip: 1, port: 4001, flowinfo: 0, scope_id: 0 },
    ]
}

#[test]
fn new_plan_keeps_addresses() {
    let plan: Channel<(), Once, u8, u16> = Channel::new(addrs());
    assert_eq!(plan.addresses, addrs());
}

#[test]
fn establish_keeps_addresses_and_takes_transport() {
    let plan: Channel<(), Many, u8, u16> = Channel::new(addrs());
    let ch = plan.establish("transport");
    assert_eq!(ch.addresses, addrs());
    assert_eq!(ch.inner, "transport");
}

#[test]
fn connect_step_takes_first_connection() {
    let plan: Channel<(), Once, u8, u16> = Channel::new(addrs());
    match plan.connect_step(Some(Some(7u32))) {
        ConnectStep::Established(ch) => {
            assert_eq!(ch.addresses, addrs());
            assert_eq!(ch.inner, 7);
        }
        _ => panic!("expected an established channel"),
    }
}

#[test]
fn connect_step_waits_after_a_failed_attempt() {
    let plan: Channel<(), Once, u8, u16> = Channel::new(addrs());
    match plan.connect_step::<u32>(Some(None)) {
        ConnectStep::Pending(plan) => assert_eq!(plan.addresses, addrs()),
        _ => panic!("expected the plan back"),
    }
}

#[test]
fn connect_step_gives_up_when_no_attempt_is_left() {
    let plan: Channel<(), Once, u8, u16> = Channel::new(addrs());
    match plan.connect_step::<u32>(None) {
        ConnectStep::Failed(ChannelError::CouldntConnect) => {}
        _ => panic!("expected CouldntConnect"),
    }
}

#[test]
fn connect_sequence_failures_then_success() {
    let mut plan: Channel<(), Many, u8, u16> = Channel::new(addrs());
    for _ in 0..3 {
        plan = match plan.connect_step::<u32>(Some(None)) {
            ConnectStep::Pending(p) => p,
            _ => panic!("expected the plan back"),
        };
    }
    match plan.connect_step(Some(Some(9u32))) {
        ConnectStep::Established(ch) => {
            assert_eq!(ch.addresses, addrs());
            assert_eq!(ch.inner, 9);
        }
        _ => panic!("expected an established channel"),
    }
}

#[test]
fn accepted_channel_has_no_addresses() {
    let ch: Channel<u32, Once, u8, u16> = Channel::from_transport(5);
    assert!(ch.addresses.is_empty());
    assert_eq!(ch.inner, 5);
}

#[test]
fn accept_step_cases() {
    match accept_step::<u32, &str, Once, u8, u16>(Some(Some(Ok(3)))) {
        AcceptStep::Accepted(ch) => {
            assert!(ch.addresses.is_empty());
            assert_eq!(ch.inner, 3);
        }
        _ => panic!("expected an accepted channel"),
    }
    assert!(matches!(
        accept_step::<u32, &str, Once, u8, u16>(Some(Some(Err("refused")))),
        AcceptStep::Retry
    ));
    assert!(matches!(accept_step::<u32, &str, Once, u8, u16>(Some(None)), AcceptStep::Stop));
    assert!(matches!(accept_step::<u32, &str, Once, u8, u16>(None), AcceptStep::Stop));
}

#[test]
fn keep_bound_drops_failures_in_order() {
    assert_eq!(keep_bound(vec![Some(1), None, Some(2), None, None, Some(3)]), vec![1, 2, 3]);
    assert_eq!(keep_bound::<u8>(vec![None, None]), Vec::<u8>::new());
    assert_eq!(keep_bound::<u8>(vec![]), Vec::<u8>::new());
}

#[test]
fn channel_error_io_carries_the_error() {
    let e = ChannelError::Io(std::io::Error::new(std::io::ErrorKind::Other, "boom"));
    match e {
        ChannelError::Io(inner) => assert_eq!(inner.kind(), std::io::ErrorKind::Other),
        ChannelError::CouldntConnect => panic!("wrong variant"),
    }
}

fn run(reports: Vec<Option<Option<u32>>>) -> Result<u32, ()> {
    let mut plan: Channel<(), Once, u8, u16> = Channel::new(addrs());
    for report in reports {
        plan = match plan.connect_step(report) {
            ConnectStep::Established(ch) => {
                assert_eq!(ch.addresses, addrs());
                return Ok(ch.inner);
            }
            ConnectStep::Pending(p) => p,
            ConnectStep::Failed(ChannelError::CouldntConnect) => return Err(()),
            ConnectStep::Failed(ChannelError::Io(_)) => panic!("no I/O error is made up"),
        };
    }
    panic!("the run did not end")
}

#[test]
fn connect_run_success_ignores_order_and_failures_first() {
    assert_eq!(run(vec![Some(None), Some(Some(1)), Some(None), None]), Ok(1));
    assert_eq!(run(vec![Some(Some(1)), Some(None), Some(None), None]), Ok(1));
    assert_eq!(run(vec![Some(None), Some(None), Some(None), Some(Some(1)), None]), Ok(1));
}

#[test]
fn connect_run_takes_the_first_connection() {
    assert_eq!(run(vec![Some(None), Some(Some(2)), Some(Some(3)), None]), Ok(2));
}

#[test]
fn connect_run_fails_exactly_when_nothing_connected() {
    assert_eq!(run(vec![Some(None), Some(None), None]), Err(()));
    assert_eq!(run(vec![None]), Err(()));
}
