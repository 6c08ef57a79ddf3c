//! Client connections: their buffers, the table that holds them, and the order in
//! which a connection reads, answers and keeps what is left.
use crate::bytes;
use crate::http;
use crate::http::ParseResult;
use crate::responses;
use vstd::prelude::*;

verus! {

/// How many bytes a connection can buffer.
pub const CONN_BUF_CAP: usize = 16_384;

/// How many bytes are read at a time.
pub const READ_CHUNK: usize = 4_096;

/// How many descriptors the table has room for.
pub const MAX_FD_SLOTS: usize = 65_536;

/// How many buffers are set aside in advance at most.
pub const POOL_START: usize = 128;

/// The bytes that a client has sent and that were not answered yet.
pub struct Conn {
    buf: Vec<u8>,
}

impl View for Conn {
    type V = Seq<u8>;

    closed spec fn view(&self) -> Seq<u8> {
        self.buf@
    }
}

impl Conn {
    /// The buffer is not overfull.
    pub open spec fn wf(&self) -> bool {
        self@.len() <= CONN_BUF_CAP
    }

    /// An empty buffer.
    pub fn new_box() -> (conn: Box<Conn>)
        ensures
            conn@ == Seq::<u8>::empty(),
            conn.wf(),
    {
        Box::new(Conn { buf: Vec::with_capacity(CONN_BUF_CAP) })
    }

    /// Forgets what is buffered.
    pub fn reset(&mut self)
        ensures
            final(self)@ == Seq::<u8>::empty(),
            final(self).wf(),
    {
        self.buf.clear();
    }

    /// The buffered bytes from `from` up to `to`.
    pub fn slice(&self, from: usize, to: usize) -> (part: &[u8])
        requires
            from <= to <= self@.len(),
        ensures
            part@ == self@.subrange(from as int, to as int),
    {
        &self.buf[from..to]
    }
}

/// The contents of the table: for each descriptor the bytes of its connection, if
/// it has one, and how many buffers are set aside.
pub struct TableView {
    pub slots: Seq<Option<Seq<u8>>>,
    pub pooled: nat,
}

/// Connections by descriptor.
pub struct ConnTable {
    slots: Vec<Option<Box<Conn>>>,
    pool: Vec<Box<Conn>>,
    pool_cap: usize,
}

/// The bytes of a connection.
pub open spec fn contents(slot: Option<Box<Conn>>) -> Option<Seq<u8>> {
    match slot {
        Some(conn) => Some(conn@),
        None => None,
    }
}

impl View for ConnTable {
    type V = TableView;

    closed spec fn view(&self) -> TableView {
        TableView {
            slots: Seq::new(self.slots@.len(), |i: int| contents(self.slots@[i])),
            pooled: self.pool@.len(),
        }
    }
}

/// `fd` can stand in the table.
pub open spec fn in_table(fd: i32) -> bool {
    0 <= fd < MAX_FD_SLOTS
}

/// The table after `fd` was given an empty connection, from the buffers set aside where
/// there are some.
pub open spec fn with_client(table: TableView, fd: i32) -> TableView {
    TableView {
        slots: table.slots.update(fd as int, Some(Seq::<u8>::empty())),
        pooled: if table.pooled == 0 {
            0
        } else {
            (table.pooled - 1) as nat
        },
    }
}

/// The table after the connection of `fd` was taken away, its buffer set aside where no
/// more than `capacity` are.
pub open spec fn without_client(table: TableView, fd: i32, capacity: int) -> TableView {
    if in_table(fd) && table.slots[fd as int] is Some {
        TableView {
            slots: table.slots.update(fd as int, None),
            pooled: if table.pooled < capacity {
                table.pooled + 1
            } else {
                table.pooled
            },
        }
    } else {
        table
    }
}

fn slot_of(fd: i32) -> (idx: Option<usize>)
    ensures
        match idx {
            Some(i) => in_table(fd) && i == fd,
            None => !in_table(fd),
        },
{
    if fd < 0 || fd >= 65_536 {
        None
    } else {
        Some(fd as usize)
    }
}

impl ConnTable {
    /// How many buffers are set aside at most.
    pub closed spec fn capacity(&self) -> int {
        self.pool_cap as int
    }

    /// A slot for each descriptor, no more buffers set aside than allowed, and no
    /// buffer overfull.
    pub closed spec fn wf(&self) -> bool {
        &&& self.slots@.len() == MAX_FD_SLOTS
        &&& self.pool@.len() <= self.pool_cap
        &&& forall|i: int|
            0 <= i < self.slots@.len() ==> (#[trigger] self.slots@[i] matches Some(conn)
                ==> conn.wf())
    }

    /// A well-formed table has a slot for each descriptor, sets no more buffers aside
    /// than allowed, and holds no buffer that is overfull.
    pub proof fn lemma_bounds(&self)
        requires
            self.wf(),
        ensures
            self@.slots.len() == MAX_FD_SLOTS,
            self@.pooled <= self.capacity(),
            forall|fd: int|
                0 <= fd < MAX_FD_SLOTS ==> (#[trigger] self@.slots[fd] matches Some(buf)
                    ==> buf.len() <= CONN_BUF_CAP),
    {
    }

    /// A table without connections.
    pub fn new(pool_cap: usize) -> (table: ConnTable)
        ensures
            table.wf(),
            table.capacity() == pool_cap,
            table@.slots == Seq::new(MAX_FD_SLOTS as nat, |i: int| None::<Seq<u8>>),
            table@.pooled == if pool_cap < POOL_START {
                pool_cap as nat
            } else {
                POOL_START as nat
            },
    {
        let start: usize = if pool_cap < POOL_START {
            pool_cap
        } else {
            POOL_START
        };
        let mut pool: Vec<Box<Conn>> = Vec::new();
        for i in 0..start
            invariant
                pool@.len() == i,
        {
            pool.push(Conn::new_box());
        }
        let mut slots: Vec<Option<Box<Conn>>> = Vec::new();
        for i in 0..MAX_FD_SLOTS
            invariant
                slots@.len() == i,
                forall|j: int| 0 <= j < i ==> #[trigger] slots@[j] is None,
        {
            slots.push(None);
        }
        let table = ConnTable { slots, pool, pool_cap };
        assert(table@.slots =~= Seq::new(MAX_FD_SLOTS as nat, |i: int| None::<Seq<u8>>));
        table
    }

    /// Gives `fd` an empty connection, from the buffers set aside where there are
    /// some. False where the table has no room for `fd`.
    pub fn insert(&mut self, fd: i32) -> (inserted: bool)
        requires
            old(self).wf(),
        ensures
            final(self).wf(),
            final(self).capacity() == old(self).capacity(),
            inserted == in_table(fd),
            inserted ==> final(self)@ == with_client(old(self)@, fd),
            !inserted ==> final(self)@ == old(self)@,
            inserted ==> final(self)@.slots == old(self)@.slots.update(
                fd as int,
                Some(Seq::<u8>::empty()),
            ) && final(self)@.pooled == if old(self)@.pooled == 0 {
                0
            } else {
                (old(self)@.pooled - 1) as nat
            },
    {
        let idx = match slot_of(fd) {
            Some(i) => i,
            None => {
                return false;
            },
        };
        let mut conn = match self.pool.pop() {
            Some(conn) => conn,
            None => Conn::new_box(),
        };
        conn.reset();
        self.slots[idx] = Some(conn);
        assert(self@.slots =~= old(self)@.slots.update(fd as int, Some(Seq::<u8>::empty())));
        true
    }

    /// The connection of `fd`, if it has one.
    pub fn get_mut(&mut self, fd: i32) -> (conn: Option<&mut Conn>)
        requires
            old(self).wf(),
        ensures
            match conn {
                Some(c) => {
                    &&& in_table(fd)
                    &&& old(self)@.slots[fd as int] == Some(c@)
                    &&& c.wf()
                    &&& final(self)@.slots =~= old(self)@.slots.update(
                        fd as int,
                        Some(final(c)@),
                    )
                    &&& final(self)@.pooled == old(self)@.pooled
                    &&& final(c).wf() ==> final(self).wf()
                    &&& final(self).capacity() == old(self).capacity()
                },
                None => {
                    &&& in_table(fd) ==> old(self)@.slots[fd as int] is None
                    &&& final(self)@.slots =~= old(self)@.slots
                    &&& final(self)@.pooled == old(self)@.pooled
                    &&& final(self).wf()
                    &&& final(self).capacity() == old(self).capacity()
                },
            },
    {
        let idx = match slot_of(fd) {
            Some(i) => i,
            None => {
                return None;
            },
        };
        match &mut self.slots[idx] {
            Some(conn) => Some(&mut **conn),
            None => None,
        }
    }

    /// Takes the connection of `fd` away, and sets its buffer aside where that is
    /// allowed.
    pub fn remove(&mut self, fd: i32)
        requires
            old(self).wf(),
        ensures
            final(self).wf(),
            final(self).capacity() == old(self).capacity(),
            final(self)@ == without_client(old(self)@, fd, old(self).capacity()),
            if in_table(fd) && old(self)@.slots[fd as int] is Some {
                &&& final(self)@.slots == old(self)@.slots.update(fd as int, None)
                &&& final(self)@.pooled == if old(self)@.pooled < old(self).capacity() {
                    old(self)@.pooled + 1
                } else {
                    old(self)@.pooled
                }
            } else {
                final(self)@ == old(self)@
            },
    {
        let idx = match slot_of(fd) {
            Some(i) => i,
            None => {
                return ;
            },
        };
        let taken = self.slots[idx].take();
        if let Some(mut conn) = taken {
            conn.reset();
            if self.pool.len() < self.pool_cap {
                self.pool.push(conn);
            }
        }
        proof {
            if old(self)@.slots[fd as int] is Some {
                assert(self@.slots =~= old(self)@.slots.update(fd as int, None));
            } else {
                assert(self@.slots =~= old(self)@.slots);
            }
        }
    }
}

/// Where a connection stands.
#[derive(Clone, Copy, Debug)]
pub enum Phase {
    /// This many bytes were asked for.
    Reading { asked: usize },
    /// A score was asked for. What follows the request starts at `next`.
    Scoring { next: usize },
    /// An answer is being sent. What follows the request starts at `next`.
    Sending { next: usize },
    /// Nothing is left to do until the client sends more.
    Finished,
}

/// What happened.
#[derive(Clone, Copy, Debug)]
pub enum Event<'e> {
    /// These bytes were read.
    Data(&'e [u8]),
    /// There is nothing to read right now.
    Drained,
    /// The client has closed the connection, or reading failed.
    Gone,
    /// The score is made of this many frauds.
    Scored(usize),
    /// The answer was sent.
    Sent,
    /// Sending failed.
    SendFailed,
}

/// What to do.
#[derive(Clone, Copy, Debug)]
pub enum Action {
    /// Read up to this many bytes.
    Read(usize),
    /// Score the request body that is buffered from `from` up to `to`.
    Score { from: usize, to: usize },
    /// Send this answer.
    Send(&'static [u8]),
    /// Keep the connection open.
    Keep,
    /// Close the connection.
    Close,
    /// The request declares a length beyond what can be addressed.
    Unaddressable,
}

/// What happened, in terms of bytes.
pub enum EventView {
    Data(Seq<u8>),
    Drained,
    Gone,
    Scored(int),
    Sent,
    SendFailed,
}

/// What to do, in terms of bytes.
pub enum ActionView {
    Read(int),
    Score(Seq<u8>),
    Send(Seq<u8>),
    Keep,
    Close,
    Unaddressable,
}

impl<'e> View for Event<'e> {
    type V = EventView;

    open spec fn view(&self) -> EventView {
        match *self {
            Event::Data(data) => EventView::Data(data@),
            Event::Drained => EventView::Drained,
            Event::Gone => EventView::Gone,
            Event::Scored(n) => EventView::Scored(n as int),
            Event::Sent => EventView::Sent,
            Event::SendFailed => EventView::SendFailed,
        }
    }
}

impl Action {
    /// What to do with a connection that has these bytes buffered.
    pub open spec fn on(self, buf: Seq<u8>) -> ActionView {
        match self {
            Action::Read(n) => ActionView::Read(n as int),
            Action::Score { from, to } => ActionView::Score(buf.subrange(from as int, to as int)),
            Action::Send(text) => ActionView::Send(text@),
            Action::Keep => ActionView::Keep,
            Action::Close => ActionView::Close,
            Action::Unaddressable => ActionView::Unaddressable,
        }
    }

    /// What the action refers to is buffered.
    pub open spec fn within(self, buf: Seq<u8>) -> bool {
        self matches Action::Score { from, to } ==> from <= to <= buf.len()
    }
}

/// A state of a connection: what is buffered, and where it stands.
pub struct State {
    pub buf: Seq<u8>,
    pub phase: Phase,
}

/// How many bytes to ask for.
pub open spec fn room(buf: Seq<u8>) -> int {
    if CONN_BUF_CAP - buf.len() < READ_CHUNK {
        CONN_BUF_CAP - buf.len()
    } else {
        READ_CHUNK as int
    }
}

/// Asks for more bytes. A connection whose buffer is full is closed.
pub open spec fn ask(buf: Seq<u8>) -> (State, ActionView) {
    if buf.len() == CONN_BUF_CAP {
        (State { buf, phase: Phase::Finished }, ActionView::Close)
    } else {
        (
            State { buf, phase: Phase::Reading { asked: room(buf) as usize } },
            ActionView::Read(room(buf)),
        )
    }
}

/// Answers the request that starts at `start`. Where there is none, what follows
/// is kept.
pub open spec fn serve(buf: Seq<u8>, start: int) -> (State, ActionView) {
    let rest = buf.skip(start);
    let next = start + http::consumed(http::request(rest));
    if start >= buf.len() {
        (State { buf: rest, phase: Phase::Finished }, ActionView::Keep)
    } else if !http::addressable(rest) {
        (State { buf, phase: Phase::Finished }, ActionView::Unaddressable)
    } else {
        match http::request(rest) {
            ParseResult::Need => (
                State { buf: rest, phase: Phase::Finished },
                ActionView::Keep,
            ),
            ParseResult::Ready(_) => (
                State { buf, phase: Phase::Sending { next: next as usize } },
                ActionView::Send(bytes::ascii(responses::READY_RESPONSE@)),
            ),
            ParseResult::NotFound(_) => (
                State { buf, phase: Phase::Sending { next: next as usize } },
                ActionView::Send(bytes::ascii(responses::NOTFOUND_RESPONSE@)),
            ),
            ParseResult::Fraud { body_off, body_len, .. } => (
                State { buf, phase: Phase::Scoring { next: next as usize } },
                ActionView::Score(rest.subrange(body_off as int, body_off + body_len)),
            ),
        }
    }
}

/// What a connection does next. Reading goes on until fewer bytes come than were
/// asked for; then every complete request is answered, one after the other. What
/// does not fit the phase closes the connection.
pub open spec fn next(state: State, event: EventView) -> (State, ActionView) {
    let closed = (State { buf: state.buf, phase: Phase::Finished }, ActionView::Close);
    match (state.phase, event) {
        (Phase::Reading { asked }, EventView::Data(data)) => if data.len() > asked {
            closed
        } else if data.len() < asked {
            serve(state.buf + data, 0)
        } else {
            ask(state.buf + data)
        },
        (Phase::Reading { .. }, EventView::Drained) => serve(state.buf, 0),
        (Phase::Scoring { next }, EventView::Scored(frauds)) => (
            State { buf: state.buf, phase: Phase::Sending { next } },
            ActionView::Send(responses::response(responses::answered(frauds))),
        ),
        (Phase::Sending { next }, EventView::Sent) => serve(state.buf, next as int),
        _ => closed,
    }
}

/// A phase that fits what is buffered.
pub open spec fn fitting(buf: Seq<u8>, phase: Phase) -> bool {
    match phase {
        Phase::Reading { asked } => buf.len() + asked <= CONN_BUF_CAP,
        Phase::Scoring { next } => next <= buf.len(),
        Phase::Sending { next } => next <= buf.len(),
        Phase::Finished => true,
    }
}

fn ready_response() -> (text: &'static [u8])
    ensures
        text@ == bytes::ascii(responses::READY_RESPONSE@),
{
    proof {
        reveal_strlit("HTTP/1.1 200 OK\r\nContent-Length: 0\r\nConnection: keep-alive\r\n\r\n");
    }
    bytes::ascii_bytes(responses::READY_RESPONSE)
}

fn notfound_response() -> (text: &'static [u8])
    ensures
        text@ == bytes::ascii(responses::NOTFOUND_RESPONSE@),
{
    proof {
        reveal_strlit(
            "HTTP/1.1 404 Not Found\r\nContent-Length: 0\r\nConnection: keep-alive\r\n\r\n",
        );
    }
    bytes::ascii_bytes(responses::NOTFOUND_RESPONSE)
}

impl Conn {
    /// Keeps what is buffered from `start` on.
    fn compact(&mut self, start: usize)
        requires
            old(self).wf(),
            start <= old(self)@.len(),
        ensures
            final(self).wf(),
            final(self)@ == old(self)@.skip(start as int),
    {
        let ghost given = self.buf@;
        let len = self.buf.len();
        if start == 0 {
            assert(given.skip(0) =~= given);
            return ;
        }
        for i in start..len
            invariant
                0 < start <= len,
                self.buf@.len() == len == given.len(),
                forall|j: int| i <= j < len ==> self.buf@[j] == given[j],
                forall|j: int| 0 <= j < i - start ==> self.buf@[j] == given[start + j],
        {
            let b: u8 = self.buf[i];
            self.buf[i - start] = b;
        }
        self.buf.truncate(len - start);
        assert(self.buf@ =~= given.skip(start as int));
    }

    /// Starts to read. Called when the client has sent something.
    pub fn begin(&self) -> (done: (Phase, Action))
        requires
            self.wf(),
        ensures
            ask(self@) == (State { buf: self@, phase: done.0 }, done.1.on(self@)),
            fitting(self@, done.0),
            done.1.within(self@),
    {
        let len = self.buf.len();
        if len == CONN_BUF_CAP {
            return (Phase::Finished, Action::Close);
        }
        let left: usize = CONN_BUF_CAP - len;
        let asked: usize = if left < READ_CHUNK {
            left
        } else {
            READ_CHUNK
        };
        (Phase::Reading { asked }, Action::Read(asked))
    }

    fn answer(&mut self, start: usize) -> (done: (Phase, Action))
        requires
            old(self).wf(),
            start <= old(self)@.len(),
        ensures
            final(self).wf(),
            serve(old(self)@, start as int) == (
                State { buf: final(self)@, phase: done.0 },
                done.1.on(final(self)@),
            ),
            fitting(final(self)@, done.0),
            done.1.within(final(self)@),
    {
        let len = self.buf.len();
        let ghost given = self@;
        let ghost rest = self@.skip(start as int);
        if start >= len {
            self.compact(start);
            return (Phase::Finished, Action::Keep);
        }
        let parsed = http::try_parse_request(&self.buf[start..len]);
        proof {
            assert(self.buf@.subrange(start as int, len as int) =~= rest);
            http::lemma_request_bounds(rest);
        }
        match parsed {
            None => (Phase::Finished, Action::Unaddressable),
            Some(ParseResult::Need) => {
                self.compact(start);
                (Phase::Finished, Action::Keep)
            },
            Some(ParseResult::Ready(n)) => (
                Phase::Sending { next: start + n },
                Action::Send(ready_response()),
            ),
            Some(ParseResult::NotFound(n)) => (
                Phase::Sending { next: start + n },
                Action::Send(notfound_response()),
            ),
            Some(ParseResult::Fraud { consumed, body_off, body_len }) => {
                let from: usize = start + body_off;
                let to: usize = from + body_len;
                assert(given.subrange(from as int, to as int) =~= rest.subrange(
                    body_off as int,
                    body_off + body_len,
                ));
                (Phase::Scoring { next: start + consumed }, Action::Score { from, to })
            },
        }
    }

    /// Takes what happened and says what to do.
    pub fn step(&mut self, phase: Phase, event: Event) -> (done: (Phase, Action))
        requires
            old(self).wf(),
            fitting(old(self)@, phase),
        ensures
            final(self).wf(),
            next(State { buf: old(self)@, phase }, event@) == (
                State { buf: final(self)@, phase: done.0 },
                done.1.on(final(self)@),
            ),
            fitting(final(self)@, done.0),
            done.1.within(final(self)@),
    {
        match (phase, event) {
            (Phase::Reading { asked }, Event::Data(data)) => {
                if data.len() > asked {
                    return (Phase::Finished, Action::Close);
                }
                self.buf.extend_from_slice(data);
                assert(self@ =~= old(self)@ + data@);
                if data.len() < asked {
                    self.answer(0)
                } else {
                    self.begin()
                }
            },
            (Phase::Reading { .. }, Event::Drained) => self.answer(0),
            (Phase::Scoring { next }, Event::Scored(frauds)) => (
                Phase::Sending { next },
                Action::Send(responses::full_response(frauds)),
            ),
            (Phase::Sending { next }, Event::Sent) => self.answer(next),
            _ => (Phase::Finished, Action::Close),
        }
    }
}

/// The answer to a complete request with the body `body`, scored by `score`.
pub open spec fn answer_to(
    request: ParseResult,
    body: Seq<u8>,
    score: spec_fn(Seq<u8>) -> int,
) -> Seq<u8> {
    match request {
        ParseResult::Ready(_) => bytes::ascii(responses::READY_RESPONSE@),
        ParseResult::Fraud { .. } => responses::response(responses::answered(score(body))),
        _ => bytes::ascii(responses::NOTFOUND_RESPONSE@),
    }
}

/// The body of a request.
pub open spec fn body_of(buf: Seq<u8>, request: ParseResult) -> Seq<u8> {
    match request {
        ParseResult::Fraud { body_off, body_len, .. } => buf.subrange(
            body_off as int,
            body_off + body_len,
        ),
        _ => Seq::empty(),
    }
}

/// The first request of a buffer is complete.
pub open spec fn complete(buf: Seq<u8>) -> bool {
    &&& http::addressable(buf)
    &&& http::request(buf) !is Need
    &&& 0 < http::consumed(http::request(buf)) <= buf.len()
}

/// The answers to the complete requests of a buffer, one after the other.
pub open spec fn answers(buf: Seq<u8>, score: spec_fn(Seq<u8>) -> int) -> Seq<Seq<u8>>
    decreases buf.len(),
{
    if complete(buf) {
        let request = http::request(buf);
        seq![answer_to(request, body_of(buf, request), score)] + answers(
            buf.skip(http::consumed(request)),
            score,
        )
    } else {
        Seq::empty()
    }
}

/// What follows the complete requests of a buffer.
pub open spec fn leftover(buf: Seq<u8>) -> Seq<u8>
    decreases buf.len(),
{
    if complete(buf) {
        leftover(buf.skip(http::consumed(http::request(buf))))
    } else {
        buf
    }
}

/// What is sent by a connection that serves from `start` on, and what it has
/// buffered at the end, if every score is given and every answer can be sent.
pub open spec fn session(
    buf: Seq<u8>,
    start: int,
    score: spec_fn(Seq<u8>) -> int,
) -> (Seq<Seq<u8>>, Seq<u8>)
    decreases buf.len() - start,
{
    let (state, action) = serve(buf, start);
    let (sending, text) = match action {
        ActionView::Score(body) => {
            let (scored, send) = next(state, EventView::Scored(score(body)));
            (scored, send->Send_0)
        },
        ActionView::Send(text) => (state, text),
        _ => (state, Seq::empty()),
    };
    match sending.phase {
        Phase::Sending { next } => if 0 <= start < next <= buf.len() {
            let (later, end) = session(buf, next as int, score);
            (seq![text] + later, end)
        } else {
            (Seq::empty(), Seq::empty())
        },
        _ => (Seq::empty(), state.buf),
    }
}

/// A connection answers every complete request that it has buffered, in order and
/// once each, and keeps the rest.
pub proof fn lemma_session(buf: Seq<u8>, start: int, score: spec_fn(Seq<u8>) -> int)
    requires
        0 <= start <= buf.len() <= CONN_BUF_CAP,
        http::addressable(leftover(buf.skip(start))),
    ensures
        session(buf, start, score) == (answers(buf.skip(start), score), leftover(buf.skip(start))),
    decreases buf.len() - start,
{
    let rest = buf.skip(start);
    http::lemma_request_bounds(rest);
    if start < buf.len() && complete(rest) {
        let request = http::request(rest);
        let n = http::consumed(request);
        let next = start + n;
        assert(rest.skip(n) =~= buf.skip(next));
        lemma_session(buf, next, score);
    } else if start == buf.len() {
        http::lemma_empty_is_incomplete(rest);
    }
}

/// How the bytes of a client are cut into reads does not matter: the answers to
/// what came first, followed by those to the rest with what comes later, are the
/// answers to all of it.
pub proof fn lemma_cut_does_not_matter(
    buf: Seq<u8>,
    more: Seq<u8>,
    score: spec_fn(Seq<u8>) -> int,
)
    requires
        buf.len() <= usize::MAX,
    ensures
        answers(buf + more, score) == answers(buf, score) + answers(leftover(buf) + more, score),
        leftover(buf + more) == leftover(leftover(buf) + more),
    decreases buf.len(),
{
    if complete(buf) {
        let request = http::request(buf);
        let n = http::consumed(request);
        http::lemma_request_stable(buf, more);
        http::lemma_request_bounds(buf);
        assert((buf + more).skip(n) =~= buf.skip(n) + more);
        assert(body_of(buf + more, request) =~= body_of(buf, request));
        lemma_cut_does_not_matter(buf.skip(n), more, score);
        let first = seq![answer_to(request, body_of(buf, request), score)];
        assert(first + (answers(buf.skip(n), score) + answers(leftover(buf) + more, score)) =~= (
        first + answers(buf.skip(n), score)) + answers(leftover(buf) + more, score));
    } else {
        assert(answers(buf, score) + answers(leftover(buf) + more, score) =~= answers(
            buf + more,
            score,
        ));
    }
}

} // verus!
