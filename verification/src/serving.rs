//! How a connection answers what a client writes.
//!
//! The laws of this module follow whole messages through a connection: what is scored,
//! what is sent, and what is kept.
use crate::bytes;
use crate::conn;
use crate::conn::{ActionView, EventView, Phase, State, TableView};
use crate::framing;
use crate::http;
use crate::parser;
use crate::reading;
use crate::responses;
use vstd::prelude::*;

verus! {

/// A connection asks for up to 4096 bytes at a time, for fewer only where its buffer of
/// 16384 bytes has no room for as many, and is closed only where it has no room at all.
pub proof fn lemma_room(buf: Seq<u8>)
    requires
        buf.len() <= 16_384,
    ensures
        ({
            let (state, action) = conn::ask(buf);
            &&& state.buf == buf
            &&& action is Close <==> buf.len() == 16_384
            &&& action is Close || action is Read
            &&& action matches ActionView::Read(n) ==> {
                &&& 0 < n <= 4096
                &&& buf.len() + n <= 16_384
                &&& n == 4096 || buf.len() + n == 16_384
                &&& state.phase == Phase::Reading { asked: n as usize }
            }
            &&& action is Close ==> state.phase is Finished
        }),
{
}

/// No byte is lost and none is made up: what is buffered after a step is what was
/// buffered before, followed by what was read, but for an answered request in front of
/// it, which is given up once its answer was sent and nothing else can be answered.
pub proof fn lemma_nothing_is_lost(state: State, event: EventView)
    requires
        conn::fitting(state.buf, state.phase),
        state.phase matches Phase::Reading { asked } ==> event matches EventView::Data(data)
            ==> data.len() <= asked,
    ensures
        ({
            let (after, action) = conn::next(state, event);
            let arrived = match (state.phase, event) {
                (Phase::Reading { .. }, EventView::Data(data)) => state.buf + data,
                _ => state.buf,
            };
            let answered = match (state.phase, event) {
                (Phase::Sending { next }, EventView::Sent) => next as int,
                _ => 0,
            };
            &&& action is Keep ==> after.buf == arrived.skip(answered)
            &&& !(action is Keep) ==> after.buf == arrived
        }),
{
    let (after, action) = conn::next(state, event);
    if let EventView::Data(data) = event {
        assert((state.buf + data).skip(0) =~= state.buf + data);
    }
    assert(state.buf.skip(0) =~= state.buf);
}

/// A client that is gone, an answer that cannot be sent, and whatever does not belong to
/// the phase closes the connection.
pub proof fn lemma_failures_close(state: State, event: EventView)
    requires
        event is Gone || event is SendFailed || state.phase is Finished || (event is Scored
            && !(state.phase is Scoring)) || (event is Sent && !(state.phase is Sending)) || ((
        event is Data || event is Drained) && !(state.phase is Reading)),
    ensures
        conn::next(state, event).1 is Close,
        conn::next(state, event).0.phase is Finished,
        conn::next(state, event).0.buf == state.buf,
{
}

/// What is done about the requests from `start` on hangs on the bytes from there on
/// alone.
pub proof fn lemma_serve_from(buf: Seq<u8>, start: int)
    requires
        0 <= start <= buf.len(),
    ensures
        conn::serve(buf, start).1 == conn::serve(buf.skip(start), 0).1,
        conn::serve(buf, start).1 is Keep ==> conn::serve(buf, start).0.buf == buf.skip(start),
{
    let rest = buf.skip(start);
    assert(rest.skip(0) =~= rest);
}

/// A request for a score that arrived, in whatever pieces, is scored by its body,
/// answered by the number of frauds, and followed by what would be done about the bytes
/// behind it alone.
pub proof fn lemma_post_is_answered(
    state: State,
    asked: usize,
    data: Seq<u8>,
    h: Seq<u8>,
    name: Seq<u8>,
    gaps: Seq<u8>,
    digits: Seq<u8>,
    body: Seq<u8>,
    more: Seq<u8>,
    frauds: int,
)
    requires
        state.phase == (Phase::Reading { asked }),
        data.len() < asked,
        state.buf + data == h + name + gaps + digits + framing::empty_line() + body + more,
        (state.buf + data).len() <= 16_384,
        h.len() > 0,
        h[0] == 0x50,
        framing::no_empty_line(h),
        framing::no_length(h),
        framing::names_length(name),
        framing::all_gaps(gaps),
        digits.len() > 0,
        reading::all_digits(digits),
        parser::decimal(digits) == body.len(),
    ensures
        ({
            let (scoring, first) = conn::next(state, EventView::Data(data));
            let (sending, second) = conn::next(scoring, EventView::Scored(frauds));
            let (_, third) = conn::next(sending, EventView::Sent);
            &&& first == ActionView::Score(body)
            &&& second == ActionView::Send(responses::response(responses::answered(frauds)))
            &&& third == conn::serve(more, 0).1
        }),
{
    let buf = state.buf + data;
    framing::lemma_framing_round_trip(h, name, gaps, digits, body, more);
    assert(buf.skip(0) =~= buf);
    let r = http::request(buf);
    let next = http::consumed(r);
    assert(buf.skip(next) =~= more);
    lemma_serve_from(buf, next);
}

/// A request that does not ask for a score is answered at once: with the answer that the
/// server is ready where it starts with `G` and asks for `/ready`, and with the answer to
/// an unknown route else. What follows it is what would be done about the bytes behind it
/// alone.
pub proof fn lemma_route_is_answered(
    state: State,
    asked: usize,
    data: Seq<u8>,
    end: int,
    method: Seq<u8>,
    path: Seq<u8>,
    rest: Seq<u8>,
)
    requires
        state.phase == (Phase::Reading { asked }),
        data.len() < asked,
        (state.buf + data).len() <= 16_384,
        framing::headers_end(state.buf + data, end),
        (state.buf + data).take(end) == method + seq![0x20u8] + path + seq![0x20u8] + rest,
        forall|j: int| 0 <= j < method.len() ==> #[trigger] method[j] != 0x20,
        forall|j: int| 0 <= j < path.len() ==> #[trigger] path[j] != 0x20,
        (state.buf + data)[0] != 0x50,
    ensures
        ({
            let buf = state.buf + data;
            let ready = buf[0] == 0x47 && path == seq![0x2fu8, 0x72, 0x65, 0x61, 0x64, 0x79];
            let (sending, first) = conn::next(state, EventView::Data(data));
            let (_, second) = conn::next(sending, EventView::Sent);
            &&& ready ==> first == ActionView::Send(bytes::ascii(responses::READY_RESPONSE@))
            &&& !ready ==> first == ActionView::Send(bytes::ascii(responses::NOTFOUND_RESPONSE@))
            &&& second == conn::serve(buf.skip(end), 0).1
        }),
{
    let buf = state.buf + data;
    framing::lemma_routes(buf, end, method, path, rest);
    assert(buf.skip(0) =~= buf);
    lemma_serve_from(buf, end);
}

/// A request that is not complete is kept, to the last byte, and the connection with it.
pub proof fn lemma_incomplete_is_kept(state: State, asked: usize, data: Seq<u8>)
    requires
        state.phase == (Phase::Reading { asked }),
        data.len() < asked,
        framing::no_empty_line(state.buf + data),
    ensures
        conn::next(state, EventView::Data(data)).1 is Keep,
        conn::next(state, EventView::Data(data)).0.buf == state.buf + data,
{
    let buf = state.buf + data;
    framing::lemma_headers_are_awaited(buf);
    assert(buf.skip(0) =~= buf);
}

/// That there is nothing to read right now is like reading nothing: what is buffered is
/// served.
pub proof fn lemma_drained(state: State, asked: usize)
    requires
        state.phase == (Phase::Reading { asked }),
        asked > 0,
    ensures
        conn::next(state, EventView::Drained) == conn::next(
            state,
            EventView::Data(Seq::<u8>::empty()),
        ),
        framing::no_empty_line(state.buf) ==> conn::next(state, EventView::Drained).1 is Keep,
{
    assert(state.buf + Seq::<u8>::empty() =~= state.buf);
    if framing::no_empty_line(state.buf) {
        lemma_incomplete_is_kept(state, asked, Seq::empty());
    }
}

/// A client that comes gets an empty buffer, one that goes leaves its place empty, and
/// no other client notices. Coming and going leaves the table as it was, but for the
/// buffer that is now set aside where there was none and one is allowed.
pub proof fn lemma_clients_come_and_go(t: TableView, fd: i32, capacity: int, other: int)
    requires
        t.slots.len() == 65_536,
        t.pooled <= capacity,
        0 <= fd < 65_536,
        t.slots[fd as int] is None,
        0 <= other < 65_536,
        other != fd,
    ensures
        conn::in_table(fd),
        ({
            let open = conn::with_client(t, fd);
            let closed = conn::without_client(open, fd, capacity);
            &&& open.slots[fd as int] == Some(Seq::<u8>::empty())
            &&& open.slots[other] == t.slots[other]
            &&& open.pooled <= t.pooled <= open.pooled + 1
            &&& t.pooled > 0 ==> open.pooled == t.pooled - 1
            &&& closed.slots == t.slots
            &&& t.pooled > 0 ==> closed.pooled == t.pooled
            &&& t.pooled == 0 && capacity > 0 ==> closed.pooled == 1
            &&& closed.pooled <= capacity
            &&& conn::without_client(t, fd, capacity) == t
        }),
{
    let open = conn::with_client(t, fd);
    let closed = conn::without_client(open, fd, capacity);
    assert(closed.slots =~= t.slots);
}

} // verus!
