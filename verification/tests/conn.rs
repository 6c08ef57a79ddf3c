use rinha::conn::{Action, Conn, ConnTable, Event, Phase, CONN_BUF_CAP, MAX_FD_SLOTS, READ_CHUNK};
use rinha::responses::{full_response, NOTFOUND_RESPONSE, READY_RESPONSE};

const READY: &[u8] = b"GET /ready HTTP/1.1\r\n\r\n";
const LOST: &[u8] = b"GET /lost HTTP/1.1\r\n\r\n";
const POST: &[u8] = b"POST /fraud-score HTTP/1.1\r\nContent-Length: 4\r\n\r\nbody";

/// Feeds chunks to a connection and collects what it sends. Bodies are scored by
/// their length.
fn serve(conn: &mut Conn, chunks: &[&[u8]]) -> (Vec<Vec<u8>>, bool) {
    let mut sent = Vec::new();
    let mut open = true;
    for chunk in chunks {
        let (mut phase, mut action) = conn.begin();
        let mut rest = *chunk;
        loop {
            let event = match action {
                Action::Read(most) => {
                    if rest.is_empty() {
                        Event::Drained
                    } else {
                        let n = most.min(rest.len());
                        let (now, later) = rest.split_at(n);
                        rest = later;
                        Event::Data(now)
                    }
                }
                Action::Score { from, to } => Event::Scored(conn.slice(from, to).len()),
                Action::Send(text) => {
                    sent.push(text.to_vec());
                    Event::Sent
                }
                Action::Keep => break,
                Action::Close | Action::Unaddressable => {
                    open = false;
                    break;
                }
            };
            let done = conn.step(phase, event);
            phase = done.0;
            action = done.1;
        }
    }
    (sent, open)
}

#[test]
fn pipelined_requests_are_answered_in_order() {
    let mut all = Vec::new();
    all.extend_from_slice(READY);
    all.extend_from_slice(POST);
    all.extend_from_slice(LOST);
    all.extend_from_slice(&POST[..20]);
    let mut conn = Conn::new_box();
    let (sent, open) = serve(&mut conn, &[&all]);
    assert!(open);
    assert_eq!(sent.len(), 3);
    assert_eq!(sent[0], READY_RESPONSE.as_bytes());
    assert_eq!(sent[1], full_response(4));
    assert_eq!(sent[2], NOTFOUND_RESPONSE.as_bytes());
    // What is left is kept, and completed by what follows.
    assert_eq!(conn.slice(0, 20), &POST[..20]);
    let (sent, _) = serve(&mut conn, &[&POST[20..]]);
    assert_eq!(sent, vec![full_response(4).to_vec()]);
}

#[test]
fn the_cut_into_reads_does_not_matter() {
    let mut all = Vec::new();
    for part in [POST, READY, LOST, POST] {
        all.extend_from_slice(part);
    }
    let (whole, _) = serve(&mut Conn::new_box(), &[&all]);
    assert_eq!(whole.len(), 4);
    for n in 1..all.len() {
        let (cut, _) = serve(&mut Conn::new_box(), &[&all[..n], &all[n..]]);
        assert_eq!(cut, whole);
    }
}

#[test]
fn reading_goes_on_while_chunks_are_full() {
    let mut conn = Conn::new_box();
    let (phase, action) = conn.begin();
    assert!(matches!(action, Action::Read(READ_CHUNK)));
    let chunk = vec![b'x'; READ_CHUNK];
    let (phase, action) = conn.step(phase, Event::Data(&chunk));
    assert!(matches!(action, Action::Read(READ_CHUNK)));
    let (phase, action) = conn.step(phase, Event::Data(b"y"));
    assert!(matches!(phase, Phase::Finished));
    assert!(matches!(action, Action::Keep));
    assert_eq!(conn.slice(READ_CHUNK - 1, READ_CHUNK + 1), b"xy");
}

#[test]
fn a_full_buffer_closes() {
    let mut conn = Conn::new_box();
    let stuffing = vec![b'x'; CONN_BUF_CAP];
    let (sent, open) = serve(&mut conn, &[&stuffing]);
    assert!(sent.is_empty() && !open);
    assert!(matches!(conn.begin().1, Action::Close));
    conn.reset();
    assert!(matches!(conn.begin().1, Action::Read(READ_CHUNK)));
}

#[test]
fn failures_close() {
    let mut conn = Conn::new_box();
    let (phase, _) = conn.begin();
    assert!(matches!(conn.step(phase, Event::Gone).1, Action::Close));
    let (phase, _) = conn.begin();
    let (phase, action) = conn.step(phase, Event::Data(READY));
    assert!(matches!(action, Action::Send(_)));
    assert!(matches!(conn.step(phase, Event::SendFailed).1, Action::Close));
}

#[test]
fn lengths_that_cannot_be_addressed_are_told() {
    let huge = b"POST / HTTP/1.1\r\nContent-Length: 99999999999999999999999\r\n\r\n";
    let mut conn = Conn::new_box();
    let (phase, _) = conn.begin();
    assert!(matches!(conn.step(phase, Event::Data(huge)).1, Action::Unaddressable));
}

#[test]
fn the_table_holds_one_connection_per_descriptor() {
    let mut table = ConnTable::new(2);
    assert!(table.get_mut(7).is_none());
    assert!(table.insert(7));
    {
        let conn = table.get_mut(7).unwrap();
        let (phase, _) = conn.begin();
        conn.step(phase, Event::Data(b"left over"));
        assert_eq!(conn.slice(0, 4), b"left");
    }
    assert_eq!(table.get_mut(7).unwrap().slice(5, 9), b"over");
    assert!(table.get_mut(8).is_none());
    // A connection that is given again starts empty.
    table.remove(7);
    assert!(table.get_mut(7).is_none());
    table.remove(7);
    assert!(table.insert(7));
    assert!(matches!(table.get_mut(7).unwrap().begin().1, Action::Read(READ_CHUNK)));
    let (_, open) = serve(table.get_mut(7).unwrap(), &[b"x"]);
    assert!(open);
    assert_eq!(table.get_mut(7).unwrap().slice(0, 1), b"x");
}

#[test]
fn the_table_has_bounds() {
    let mut table = ConnTable::new(0);
    assert!(!table.insert(-1));
    assert!(!table.insert(MAX_FD_SLOTS as i32));
    assert!(table.insert(MAX_FD_SLOTS as i32 - 1));
    assert!(table.insert(0));
    assert!(table.get_mut(-1).is_none());
    table.remove(-1);
    table.remove(i32::MAX);
    table.remove(0);
    assert!(table.get_mut(0).is_none());
}
