use rinha::conn::{Action, Event};
use rinha::net::{Route, LISTEN_TOKEN};
use rinha::worker::Worker;

#[test]
fn channels_are_told_from_clients() {
    let mut w = Worker::new(4);
    assert!(matches!(w.route(LISTEN_TOKEN), Route::Listener));
    assert!(w.channel_opened(5, true));
    assert!(!w.channel_opened(6, false));
    assert!(w.channel_opened(7, true));
    assert!(w.channel_opened(8, true));
    assert!(matches!(w.route(5), Route::Control(0)));
    assert!(matches!(w.route(6), Route::Client(6)));
    assert_eq!(w.channel(1), 7);
    // The last channel takes the place of the one that is given up.
    assert_eq!(w.channel_closed(0), 5);
    assert!(matches!(w.route(8), Route::Control(0)));
    assert!(matches!(w.route(7), Route::Control(1)));
    assert!(matches!(w.route(5), Route::Client(5)));
}

#[test]
fn clients_come_and_go() {
    let mut w = Worker::new(1);
    assert!(w.client(3).is_none());
    assert!(!w.client_arrived(3, false));
    assert!(w.client(3).is_none());
    assert!(w.client_arrived(3, true));
    assert!(!w.client_arrived(-1, true));
    assert!(!w.client_arrived(65_536, true));
    {
        let conn = w.client(3).unwrap();
        let (phase, _) = conn.begin();
        let (_, action) = conn.step(phase, Event::Data(b"GET"));
        assert!(matches!(action, Action::Keep));
    }
    assert_eq!(w.client(3).unwrap().slice(0, 3), b"GET");
    w.client_closed(3);
    assert!(w.client(3).is_none());
    w.client_closed(3);
}
