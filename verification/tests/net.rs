use rinha::net::{
    accept_result, busy_poll, ceil_millis, count_result, ioctl_iow, next_accept, read_result,
    recv_result, route, split_micros, uds_address_len, write_progress, Accepting, Attempt, Failure,
    Handover, Io, RecvFd, Rotation, Route, Wait, WaitTuning, Written, LISTEN_TOKEN,
};

#[test]
fn reads_are_told_apart() {
    let none = Failure::Other(0);
    assert!(matches!(read_result(7, none), Attempt::Done(Io::Count(7))));
    assert!(matches!(read_result(0, none), Attempt::Done(Io::Eof)));
    assert!(matches!(read_result(-1, Failure::Again), Attempt::Done(Io::WouldBlock)));
    assert!(matches!(read_result(-1, Failure::Interrupted), Attempt::Retry));
    assert!(matches!(
        read_result(-1, Failure::Other(104)),
        Attempt::Done(Io::Failed(Failure::Other(104)))
    ));
}

#[test]
fn accepts_are_told_apart() {
    assert!(matches!(accept_result(0, Failure::Again), Io::Count(0)));
    assert!(matches!(accept_result(-1, Failure::Again), Io::WouldBlock));
    assert!(matches!(
        accept_result(-1, Failure::Interrupted),
        Io::Failed(Failure::Interrupted)
    ));
}

#[test]
fn passed_descriptors_are_told_apart() {
    let none = Failure::Other(0);
    assert!(matches!(recv_result(1, none, Some(9)), Attempt::Done(RecvFd::Fd(9))));
    // A message without a descriptor is passed over.
    assert!(matches!(recv_result(1, none, None), Attempt::Retry));
    assert!(matches!(recv_result(0, none, None), Attempt::Done(RecvFd::Closed)));
    assert!(matches!(recv_result(-1, Failure::Interrupted, None), Attempt::Retry));
    assert!(matches!(
        recv_result(-1, Failure::Again, None),
        Attempt::Done(RecvFd::WouldBlock)
    ));
    assert!(matches!(recv_result(-1, none, None), Attempt::Done(RecvFd::Closed)));
}

#[test]
fn counts_are_repeated_when_interrupted() {
    assert!(matches!(count_result(0, Failure::Again), Attempt::Done(Ok(0))));
    assert!(matches!(count_result(-1, Failure::Interrupted), Attempt::Retry));
    assert!(matches!(
        count_result(-1, Failure::Unsupported),
        Attempt::Done(Err(Failure::Unsupported))
    ));
}

#[test]
fn writes_go_on_to_the_end() {
    assert!(matches!(write_progress(0, 10, 4, Failure::Other(0)), Written::From(4)));
    assert!(matches!(write_progress(4, 10, 6, Failure::Other(0)), Written::All));
    assert!(matches!(write_progress(4, 10, -1, Failure::Again), Written::From(4)));
    assert!(matches!(write_progress(4, 10, -1, Failure::Interrupted), Written::From(4)));
    assert!(matches!(
        write_progress(4, 10, 0, Failure::Other(32)),
        Written::Failed(Failure::Other(32))
    ));
}

#[test]
fn times_are_split_and_rounded_up() {
    assert_eq!(split_micros(80), (0, 80_000));
    assert_eq!(split_micros(2_500_001), (2, 500_001_000));
    assert_eq!(ceil_millis(0), 0);
    assert_eq!(ceil_millis(1), 1);
    assert_eq!(ceil_millis(80), 1);
    assert_eq!(ceil_millis(1000), 1);
    assert_eq!(ceil_millis(1001), 2);
    assert_eq!(ceil_millis(u64::MAX - 999), i32::MAX);
}

#[test]
fn waiting_spins_before_it_sleeps() {
    let tuning = WaitTuning { spin_us: 30, idle_us: 80 };
    assert!(matches!(tuning.first_wait(), Wait::Poll));
    assert!(matches!(tuning.next_wait(29_999), Wait::Poll));
    assert!(matches!(tuning.next_wait(30_000), Wait::Micros(80)));
    let sleepy = WaitTuning { spin_us: 0, idle_us: 0 };
    assert!(matches!(sleepy.first_wait(), Wait::Forever));
    let timed = WaitTuning { spin_us: 0, idle_us: 5 };
    assert!(matches!(timed.first_wait(), Wait::Micros(5)));
}

#[test]
fn events_go_where_they_belong() {
    let controls = [5, 9];
    assert!(matches!(route(LISTEN_TOKEN, &controls), Route::Listener));
    assert!(matches!(route(9, &controls), Route::Control(1)));
    assert!(matches!(route(6, &controls), Route::Client(6)));
    assert!(matches!(route(5, &[]), Route::Client(5)));
}

#[test]
fn polling_is_set_only_where_wanted() {
    assert!(busy_poll(0, 8, false).is_none());
    let p = busy_poll(0, 8, true).unwrap();
    assert_eq!((p.usecs, p.budget, p.prefer), (0, 8, 1));
    let p = busy_poll(50, 8, false).unwrap();
    assert_eq!((p.usecs, p.budget, p.prefer), (50, 8, 0));
    assert_eq!(ioctl_iow(0x8A, 0x01, 8), 0x4008_8A01);
}

#[test]
fn addresses_must_fit() {
    assert_eq!(uds_address_len(10, 108, 2), Some(13));
    assert_eq!(uds_address_len(107, 108, 2), Some(110));
    assert_eq!(uds_address_len(108, 108, 2), None);
}

#[test]
fn channels_take_turns() {
    let mut r = Rotation::new(3);
    let turns: Vec<usize> = (0..5).map(|_| r.take_turn()).collect();
    assert_eq!(turns, vec![0, 1, 2, 0, 1]);
    let tried: Vec<Option<usize>> = (0..4).map(|a| r.attempt(2, a)).collect();
    assert_eq!(tried, vec![Some(2), Some(0), Some(1), None]);
    let many = Rotation::new(usize::MAX);
    assert_eq!(many.attempt(usize::MAX - 1, usize::MAX - 1), Some(usize::MAX - 2));
}

#[test]
fn connections_are_handed_over_or_waited_for() {
    let r = Rotation::new(2);
    assert!(matches!(r.next_handover(1, 0, false), Handover::Try(1)));
    assert!(matches!(r.next_handover(1, 1, false), Handover::Try(0)));
    assert!(matches!(r.next_handover(1, 2, false), Handover::Block(1)));
    assert!(matches!(r.next_handover(1, 1, true), Handover::Done));
    assert!(matches!(r.next_handover(1, 2, true), Handover::Done));
}

#[test]
fn rounds_of_accepting_are_bounded() {
    assert!(matches!(next_accept(0, 2, None), Accepting::Accept));
    assert!(matches!(next_accept(1, 2, Some(Io::Count(9))), Accepting::Accept));
    assert!(matches!(next_accept(2, 2, Some(Io::Count(9))), Accepting::Again));
    assert!(matches!(next_accept(1, 2, Some(Io::WouldBlock)), Accepting::Again));
    assert!(matches!(next_accept(0, 2, Some(Io::WouldBlock)), Accepting::Wait));
    assert!(matches!(
        next_accept(0, 2, Some(Io::Failed(Failure::Other(24)))),
        Accepting::Wait
    ));
    assert!(matches!(next_accept(0, 0, None), Accepting::Wait));
}
