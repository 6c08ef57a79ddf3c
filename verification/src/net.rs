//! What the socket calls decide: how their results are read, how long to wait,
//! where an event goes, and which worker gets a connection.
use vstd::prelude::*;

verus! {

/// Why a system call failed.
#[derive(Clone, Copy, Debug)]
pub enum Failure {
    /// It would have to wait.
    Again,
    /// A signal came in between.
    Interrupted,
    /// The system does not have it.
    Unsupported,
    /// Any other error number.
    Other(i32),
}

/// Result of a non-blocking attempt.
#[derive(Clone, Copy, Debug)]
pub enum Io {
    /// It succeeded with this many bytes, or with this descriptor.
    Count(usize),
    /// There is nothing right now.
    WouldBlock,
    /// The stream has ended.
    Eof,
    /// It failed.
    Failed(Failure),
}

/// What to make of a system call: its result, or another attempt.
#[derive(Debug)]
pub enum Attempt<T> {
    Done(T),
    Retry,
}

/// Reads the result of reading: the number of bytes, the end of the stream at
/// zero, and below zero the failure. An interrupted read is repeated.
pub fn read_result(n: isize, failure: Failure) -> (result: Attempt<Io>)
    ensures
        result == if n > 0 {
            Attempt::Done(Io::Count(n as usize))
        } else if n == 0 {
            Attempt::Done(Io::Eof)
        } else {
            match failure {
                Failure::Again => Attempt::Done(Io::WouldBlock),
                Failure::Interrupted => Attempt::Retry,
                _ => Attempt::Done(Io::Failed(failure)),
            }
        },
{
    if n > 0 {
        return Attempt::Done(Io::Count(n as usize));
    }
    if n == 0 {
        return Attempt::Done(Io::Eof);
    }
    match failure {
        Failure::Again => Attempt::Done(Io::WouldBlock),
        Failure::Interrupted => Attempt::Retry,
        _ => Attempt::Done(Io::Failed(failure)),
    }
}

/// Reads the result of accepting: a descriptor, or below zero the failure.
pub fn accept_result(fd: i32, failure: Failure) -> (result: Io)
    ensures
        result == if fd >= 0 {
            Io::Count(fd as usize)
        } else if failure is Again {
            Io::WouldBlock
        } else {
            Io::Failed(failure)
        },
{
    if fd >= 0 {
        return Io::Count(fd as usize);
    }
    match failure {
        Failure::Again => Io::WouldBlock,
        _ => Io::Failed(failure),
    }
}

/// Outcome of receiving a descriptor.
#[derive(Clone, Copy, Debug)]
pub enum RecvFd {
    /// A passed file descriptor.
    Fd(i32),
    /// No more messages queued right now.
    WouldBlock,
    /// The control channel was closed by the peer.
    Closed,
}

/// Reads the result of receiving a message: `passed` is the descriptor that came
/// with it, if one did. A message without a descriptor is passed over, and the next
/// one is tried.
pub fn recv_result(n: isize, failure: Failure, passed: Option<i32>) -> (result: Attempt<RecvFd>)
    ensures
        result == if n == 0 {
            Attempt::Done(RecvFd::Closed)
        } else if n < 0 {
            match failure {
                Failure::Interrupted => Attempt::Retry,
                Failure::Again => Attempt::Done(RecvFd::WouldBlock),
                _ => Attempt::Done(RecvFd::Closed),
            }
        } else {
            match passed {
                Some(fd) => Attempt::Done(RecvFd::Fd(fd)),
                None => Attempt::Retry,
            }
        },
{
    if n == 0 {
        return Attempt::Done(RecvFd::Closed);
    }
    if n < 0 {
        return match failure {
            Failure::Interrupted => Attempt::Retry,
            Failure::Again => Attempt::Done(RecvFd::WouldBlock),
            _ => Attempt::Done(RecvFd::Closed),
        };
    }
    match passed {
        Some(fd) => Attempt::Done(RecvFd::Fd(fd)),
        None => Attempt::Retry,
    }
}

/// Reads the result of a call that returns a count, or below zero a failure: only
/// an interrupted call is repeated.
pub fn count_result(n: isize, failure: Failure) -> (result: Attempt<Result<usize, Failure>>)
    ensures
        result == if n >= 0 {
            Attempt::Done(Ok::<usize, Failure>(n as usize))
        } else if failure is Interrupted {
            Attempt::Retry
        } else {
            Attempt::Done(Err::<usize, Failure>(failure))
        },
{
    if n >= 0 {
        return Attempt::Done(Ok(n as usize));
    }
    match failure {
        Failure::Interrupted => Attempt::Retry,
        _ => Attempt::Done(Err(failure)),
    }
}

/// What to do after writing a part.
#[derive(Clone, Copy, Debug)]
pub enum Written {
    /// All is written.
    All,
    /// Go on from here.
    From(usize),
    /// Writing failed.
    Failed(Failure),
}

/// Goes on with writing `len` bytes of which `off` are written, after an attempt
/// that returned `n`. Attempts that were interrupted or would have to wait are
/// repeated.
pub fn write_progress(off: usize, len: usize, n: isize, failure: Failure) -> (next: Written)
    requires
        off <= len,
        n <= len - off,
    ensures
        next == if n > 0 {
            if off + n == len {
                Written::All
            } else {
                Written::From((off + n) as usize)
            }
        } else {
            match failure {
                Failure::Interrupted => Written::From(off),
                Failure::Again => Written::From(off),
                _ => Written::Failed(failure),
            }
        },
{
    if n > 0 {
        let done: usize = off + n as usize;
        if done == len {
            return Written::All;
        }
        return Written::From(done);
    }
    match failure {
        Failure::Interrupted => Written::From(off),
        Failure::Again => Written::From(off),
        _ => Written::Failed(failure),
    }
}

/// A time in whole seconds and nanoseconds.
pub fn split_micros(timeout_us: u64) -> (time: (u64, u64))
    ensures
        time.0 * 1_000_000_000 + time.1 == timeout_us * 1000,
        time.1 < 1_000_000_000,
{
    (timeout_us / 1_000_000, (timeout_us % 1_000_000) * 1000)
}

/// A time in milliseconds, rounded up, and no more than 31 bits can hold.
pub fn ceil_millis(timeout_us: u64) -> (ms: i32)
    requires
        timeout_us + 999 <= u64::MAX,
    ensures
        ms == if (timeout_us + 999) / 1000 < i32::MAX {
            (timeout_us + 999) / 1000
        } else {
            i32::MAX as int
        },
{
    let ms: u64 = (timeout_us + 999) / 1000;
    if ms < 0x7fff_ffff {
        ms as i32
    } else {
        i32::MAX
    }
}

/// How to wait for events: how long to look again and again, and how long to
/// sleep after that.
#[derive(Clone, Copy, Debug)]
pub struct WaitTuning {
    pub spin_us: u64,
    pub idle_us: u64,
}

/// The next look for events.
#[derive(Clone, Copy, Debug)]
pub enum Wait {
    /// Look without waiting.
    Poll,
    /// Wait until something happens.
    Forever,
    /// Wait this many microseconds.
    Micros(u64),
}

impl WaitTuning {
    /// How to wait when there is nothing to see: for the set time, or without
    /// limit where none is set.
    pub open spec fn idle(self) -> Wait {
        if self.idle_us == 0 {
            Wait::Forever
        } else {
            Wait::Micros(self.idle_us)
        }
    }

    fn sleep(self) -> (wait: Wait)
        ensures
            wait == self.idle(),
    {
        if self.idle_us == 0 {
            Wait::Forever
        } else {
            Wait::Micros(self.idle_us)
        }
    }

    /// The first look: without waiting, unless there is no time to look again.
    pub fn first_wait(self) -> (wait: Wait)
        ensures
            wait == if self.spin_us == 0 {
                self.idle()
            } else {
                Wait::Poll
            },
    {
        if self.spin_us == 0 {
            self.sleep()
        } else {
            Wait::Poll
        }
    }

    /// The look after one that showed nothing, so many nanoseconds after the first.
    pub fn next_wait(self, elapsed_ns: u128) -> (wait: Wait)
        ensures
            wait == if elapsed_ns < self.spin_us * 1000 {
                Wait::Poll
            } else {
                self.idle()
            },
    {
        if elapsed_ns < self.spin_us as u128 * 1000 {
            Wait::Poll
        } else {
            self.sleep()
        }
    }
}

/// The token of the listening socket.
pub const LISTEN_TOKEN: u64 = u64::MAX;

/// Where an event goes.
#[derive(Clone, Copy, Debug)]
pub enum Route {
    /// To the listening socket.
    Listener,
    /// To the control channel at this place.
    Control(usize),
    /// To the client with this descriptor.
    Client(i32),
}

/// `at` is the first place of `fd` among `controls`.
pub open spec fn first_place(controls: Seq<i32>, fd: i32, at: int) -> bool {
    &&& 0 <= at < controls.len()
    &&& controls[at] == fd
    &&& forall|i: int| 0 <= i < at ==> #[trigger] controls[i] != fd
}

/// Routes an event by its token: a descriptor in its low 32 bits, except for the
/// listening socket.
pub fn route(token: u64, controls: &[i32]) -> (to: Route)
    ensures
        match to {
            Route::Listener => token == LISTEN_TOKEN,
            Route::Control(at) => token != LISTEN_TOKEN && first_place(
                controls@,
                token as i32,
                at as int,
            ),
            Route::Client(fd) => token != LISTEN_TOKEN && fd == token as i32
                && !controls@.contains(fd),
        },
{
    if token == LISTEN_TOKEN {
        return Route::Listener;
    }
    let fd: i32 = #[verifier::truncate] (token as i32);
    for i in 0..controls.len()
        invariant
            token != LISTEN_TOKEN,
            fd == token as i32,
            forall|j: int| 0 <= j < i ==> #[trigger] controls@[j] != fd,
    {
        if controls[i] == fd {
            return Route::Control(i);
        }
    }
    Route::Client(fd)
}

/// A descriptor comes back from the token that is made of it.
pub proof fn lemma_token(fd: i32)
    requires
        fd >= 0,
    ensures
        (fd as u64) as i32 == fd,
        fd as u64 != LISTEN_TOKEN,
{
}

/// How the kernel is to poll a socket before it sleeps.
#[derive(Clone, Copy, Debug)]
pub struct BusyPoll {
    pub usecs: u32,
    pub budget: u16,
    pub prefer: u8,
}

/// The settings for polling, and `None` where nothing is to be set.
pub fn busy_poll(usecs: u32, budget: u16, prefer: bool) -> (settings: Option<BusyPoll>)
    ensures
        settings == if usecs == 0 && !prefer {
            None
        } else {
            Some(
                BusyPoll {
                    usecs,
                    budget,
                    prefer: if prefer {
                        1
                    } else {
                        0
                    },
                },
            )
        },
{
    if usecs == 0 && !prefer {
        return None;
    }
    Some(
        BusyPoll {
            usecs,
            budget,
            prefer: if prefer {
                1
            } else {
                0
            },
        },
    )
}

/// The number of a control request that writes `size` bytes: the direction, the
/// size, the type and the number of the request in one word.
pub fn ioctl_iow(ty: u32, nr: u32, size: u32) -> (request: u64)
    ensures
        request == (1u32 << 30) | (size << 16) | (ty << 8) | nr,
        ty < 0x100 && nr < 0x100 && size < 0x4000 ==> request == 0x4000_0000 + size * 0x1_0000 + ty
            * 0x100 + nr,
{
    proof {
        assert(ty < 0x100 && nr < 0x100 && size < 0x4000 ==> (1u32 << 30) | (size << 16) | (ty << 8)
            | nr == 0x4000_0000 + size * 0x1_0000 + ty * 0x100 + nr) by (bit_vector);
    }
    ((1u32 << 30) | (size << 16) | (ty << 8) | nr) as u64
}

/// The length of the address of a Unix socket whose path has `path_len` bytes:
/// the family, the path and a zero byte. `None` where the path does not fit into
/// `room` bytes together with the zero.
pub fn uds_address_len(path_len: usize, room: usize, family_len: usize) -> (len: Option<u32>)
    requires
        room + family_len <= u32::MAX,
    ensures
        len == if path_len >= room {
            None
        } else {
            Some((family_len + path_len + 1) as u32)
        },
{
    if path_len >= room {
        None
    } else {
        Some((family_len + path_len + 1) as u32)
    }
}

/// What to do next about accepting connections.
#[derive(Clone, Copy, Debug)]
pub enum Accepting {
    /// Accept another one.
    Accept,
    /// The round is over; wait until there is one.
    Wait,
    /// The round is over; begin another.
    Again,
}

/// Goes on with a round of accepting: `accepted` connections were accepted in it, at
/// most `batch` may be, and `last` is the result of the last attempt, if there was
/// one. A round ends when the batch is full or an attempt brought no connection. A
/// round that brought none is followed by waiting.
pub fn next_accept(accepted: usize, batch: usize, last: Option<Io>) -> (next: Accepting)
    ensures
        next == if accepted < batch && (last is None || last->0 is Count) {
            Accepting::Accept
        } else if accepted == 0 {
            Accepting::Wait
        } else {
            Accepting::Again
        },
{
    let going = match last {
        None => true,
        Some(Io::Count(_)) => true,
        Some(_) => false,
    };
    if accepted < batch && going {
        Accepting::Accept
    } else if accepted == 0 {
        Accepting::Wait
    } else {
        Accepting::Again
    }
}

/// What to do next about handing a connection over.
#[derive(Clone, Copy, Debug)]
pub enum Handover {
    /// Try this channel without waiting.
    Try(usize),
    /// Send to this channel and wait for it.
    Block(usize),
    /// Nothing is left to do.
    Done,
}

/// Channels that take turns.
pub struct Rotation {
    channels: usize,
    turn: usize,
}

/// The channel for the given attempt, when `first` has its turn.
pub open spec fn attempt_of(first: int, attempt: int, channels: int) -> int {
    (first + attempt) % channels
}

proof fn lemma_attempt_of(first: int, attempt: int, channels: int)
    requires
        0 <= first < channels,
        0 <= attempt <= channels,
    ensures
        attempt_of(first, attempt, channels) == if first + attempt < channels {
            first + attempt
        } else {
            first + attempt - channels
        },
{
    if first + attempt < channels {
        vstd::arithmetic::div_mod::lemma_small_mod((first + attempt) as nat, channels as nat);
    } else {
        vstd::arithmetic::div_mod::lemma_mod_sub_multiples_vanish(first + attempt, channels);
        vstd::arithmetic::div_mod::lemma_small_mod(
            (first + attempt - channels) as nat,
            channels as nat,
        );
    }
}

impl Rotation {
    /// How many channels there are.
    pub closed spec fn channels(&self) -> int {
        self.channels as int
    }

    /// Which channel has its turn.
    pub closed spec fn turn(&self) -> int {
        self.turn as int
    }

    /// One of the channels has its turn.
    pub open spec fn wf(&self) -> bool {
        0 <= self.turn() < self.channels() <= usize::MAX
    }

    /// The first channel begins.
    pub fn new(channels: usize) -> (rotation: Rotation)
        requires
            0 < channels,
        ensures
            rotation.wf(),
            rotation.channels() == channels,
            rotation.turn() == 0,
    {
        Rotation { channels, turn: 0 }
    }

    /// Says which channel has its turn, and passes the turn on.
    pub fn take_turn(&mut self) -> (first: usize)
        requires
            old(self).wf(),
        ensures
            final(self).wf(),
            final(self).channels() == old(self).channels(),
            first == old(self).turn(),
            final(self).turn() == (old(self).turn() + 1) % old(self).channels(),
    {
        let first = self.turn;
        let next: usize = first + 1;
        self.turn = if next == self.channels {
            0
        } else {
            next
        };
        proof {
            lemma_attempt_of(first as int, 1, self.channels as int);
        }
        first
    }

    /// The channel to try at the given attempt, when `first` had its turn. `None`
    /// after all were tried.
    pub fn attempt(&self, first: usize, attempt: usize) -> (channel: Option<usize>)
        requires
            self.wf(),
            first < self.channels(),
        ensures
            channel == if attempt < self.channels() {
                Some(attempt_of(first as int, attempt as int, self.channels()) as usize)
            } else {
                None
            },
            channel matches Some(c) ==> c < self.channels(),
    {
        if attempt >= self.channels {
            return None;
        }
        proof {
            lemma_attempt_of(first as int, attempt as int, self.channels as int);
        }
        let behind: usize = self.channels - first;
        if attempt < behind {
            Some(first + attempt)
        } else {
            Some(attempt - behind)
        }
    }
}

impl Rotation {
    /// Goes on with handing a connection over, when `first` had its turn, `tried`
    /// channels were tried, and the last of them took it or not. Where none took it,
    /// the first one is waited for.
    pub fn next_handover(&self, first: usize, tried: usize, sent: bool) -> (next: Handover)
        requires
            self.wf(),
            first < self.channels(),
        ensures
            next == if sent {
                Handover::Done
            } else if tried < self.channels() {
                Handover::Try(attempt_of(first as int, tried as int, self.channels()) as usize)
            } else {
                Handover::Block(first)
            },
            next matches Handover::Try(c) ==> c < self.channels(),
    {
        if sent {
            return Handover::Done;
        }
        match self.attempt(first, tried) {
            Some(channel) => Handover::Try(channel),
            None => Handover::Block(first),
        }
    }
}

/// The attempts for one connection go round all channels, each once.
pub proof fn lemma_attempts(first: int, channels: int, channel: int)
    requires
        0 <= first < channels,
        0 <= channel < channels,
    ensures
        exists|attempt: int|
            0 <= attempt < channels && #[trigger] attempt_of(first, attempt, channels) == channel,
        forall|a: int, b: int|
            0 <= a < b < channels ==> #[trigger] attempt_of(first, a, channels)
                != #[trigger] attempt_of(first, b, channels),
{
    assert forall|a: int, b: int| 0 <= a < b < channels implies #[trigger] attempt_of(
        first,
        a,
        channels,
    ) != #[trigger] attempt_of(first, b, channels) by {
        lemma_attempt_of(first, a, channels);
        lemma_attempt_of(first, b, channels);
    }
    let attempt = if channel >= first {
        channel - first
    } else {
        channel - first + channels
    };
    lemma_attempt_of(first, attempt, channels);
    assert(attempt_of(first, attempt, channels) == channel);
}

/// What is read from a result that is no failure hangs on the count alone, and what is
/// read from a failure on the failure alone.
pub proof fn lemma_reads(
    n: isize,
    m: isize,
    failure: Failure,
    other: Failure,
    result: Attempt<Io>,
    another: Attempt<Io>,
)
    requires
        call_ensures(read_result, (n, failure), result),
        call_ensures(read_result, (m, other), another),
    ensures
        n == m && n >= 0 ==> result == another,
        n < 0 && m < 0 && failure == other ==> result == another,
        result matches Attempt::Done(Io::Count(k)) ==> k == n && k > 0,
        n > 0 ==> result is Done && result->Done_0 is Count,
        result == Attempt::Done(Io::Eof) <==> n == 0,
        result == Attempt::Done(Io::WouldBlock) <==> n < 0 && failure is Again,
        result is Retry <==> n < 0 && failure is Interrupted,
        result matches Attempt::Done(Io::Failed(f)) ==> n < 0 && f == failure,
{
}

/// A descriptor that was accepted comes back, and only a failure to wait for is told
/// apart from the others.
pub proof fn lemma_accepts(fd: i32, failure: Failure, result: Io)
    requires
        call_ensures(accept_result, (fd, failure), result),
    ensures
        result is Count <==> fd >= 0,
        result matches Io::Count(k) ==> k == fd,
        result is WouldBlock <==> fd < 0 && failure is Again,
        result is Failed <==> fd < 0 && !(failure is Again),
        result matches Io::Failed(f) ==> f == failure,
        !(result is Eof),
{
}

/// A descriptor is handed on exactly where a message brought one; a channel is closed
/// exactly at the end of its stream or by a failure that is not passing.
pub proof fn lemma_receives(
    n: isize,
    failure: Failure,
    passed: Option<i32>,
    result: Attempt<RecvFd>,
)
    requires
        call_ensures(recv_result, (n, failure, passed), result),
    ensures
        result matches Attempt::Done(RecvFd::Fd(fd)) ==> n > 0 && passed == Some(fd),
        n > 0 && passed is Some ==> result == Attempt::Done(RecvFd::Fd(passed->0)),
        result == Attempt::Done(RecvFd::Closed) <==> n == 0 || n < 0 && !(failure is Again)
            && !(failure is Interrupted),
        result == Attempt::Done(RecvFd::WouldBlock) <==> n < 0 && failure is Again,
        result is Retry <==> n < 0 && failure is Interrupted || n > 0 && passed is None,
{
}

/// A count comes back as it is, and of the failures only an interruption is tried
/// again.
pub proof fn lemma_counts(n: isize, failure: Failure, result: Attempt<Result<usize, Failure>>)
    requires
        call_ensures(count_result, (n, failure), result),
    ensures
        result is Retry <==> n < 0 && failure is Interrupted,
        result is Done && result->Done_0 is Ok <==> n >= 0,
        n >= 0 ==> (result->Done_0)->Ok_0 == n,
        n < 0 && result is Done ==> (result->Done_0)->Err_0 == failure,
{
}

/// What is written adds up: writing in two parts leads where writing both at once does,
/// nothing is skipped, and the end is told exactly when all is written.
pub proof fn lemma_writes(
    off: usize,
    len: usize,
    first: isize,
    second: isize,
    failure: Failure,
    between: usize,
    parted: Written,
    whole: Written,
)
    requires
        off <= len,
        0 < first,
        0 < second,
        first + second <= len - off,
        first + second <= isize::MAX,
        call_ensures(write_progress, (off, len, first, failure), Written::From(between)),
        call_ensures(write_progress, (between, len, second, failure), parted),
        call_ensures(write_progress, (off, len, (first + second) as isize, failure), whole),
    ensures
        parted == whole,
        between == off + first < len,
        whole is All <==> off + first + second == len,
        whole matches Written::From(at) ==> at == off + first + second,
        !(whole is Failed),
{
}

/// An attempt that wrote nothing is repeated from the same place, or fails with what it
/// failed with.
pub proof fn lemma_writes_nothing(
    off: usize,
    len: usize,
    n: isize,
    failure: Failure,
    next: Written,
)
    requires
        off <= len,
        n <= 0,
        call_ensures(write_progress, (off, len, n, failure), next),
    ensures
        next == Written::From(off) <==> failure is Again || failure is Interrupted,
        next == Written::Failed(failure) <==> !(failure is Again || failure is Interrupted),
{
}

/// Milliseconds are the fewest that last as long as the time, where 31 bits hold them.
pub proof fn lemma_millis(timeout_us: u64, ms: i32)
    requires
        timeout_us + 999 <= u64::MAX,
        call_ensures(ceil_millis, (timeout_us,), ms),
    ensures
        ms >= 0,
        ms < i32::MAX ==> 1000 * ms >= timeout_us && (ms > 0 ==> 1000 * (ms - 1) < timeout_us),
        ms == i32::MAX ==> timeout_us > 1000 * (i32::MAX - 1),
{
}

/// Waiting spins for the set time and no longer: before it every look is without
/// waiting, after it every one sleeps as set.
pub proof fn lemma_waits(tuning: WaitTuning, elapsed_ns: u128, first: Wait, next: Wait)
    requires
        call_ensures(WaitTuning::first_wait, (tuning,), first),
        call_ensures(WaitTuning::next_wait, (tuning, elapsed_ns), next),
    ensures
        next is Poll <==> elapsed_ns < tuning.spin_us * 1000,
        first is Poll <==> tuning.spin_us > 0,
        !(next is Poll) ==> (next is Forever <==> tuning.idle_us == 0),
        next matches Wait::Micros(us) ==> us == tuning.idle_us && us > 0,
        !(first is Poll) ==> first == next,
{
}

/// Every token goes to exactly one place: the token made of a descriptor to the channel
/// with that descriptor, and to its client where no channel has it.
pub proof fn lemma_routes(fd: i32, controls: &[i32], to: Route)
    requires
        fd >= 0,
        call_ensures(route, (fd as u64, controls), to),
    ensures
        !(to is Listener),
        to is Control <==> controls@.contains(fd),
        to matches Route::Control(at) ==> at < controls@.len() && controls@[at as int] == fd,
        to matches Route::Client(client) ==> client == fd,
{
    lemma_token(fd);
    if to is Control {
        assert(controls@[to->Control_0 as int] == fd);
    }
}

/// Polling is set as asked for wherever something is to be set.
pub proof fn lemma_polls(usecs: u32, budget: u16, prefer: bool, settings: Option<BusyPoll>)
    requires
        call_ensures(busy_poll, (usecs, budget, prefer), settings),
    ensures
        settings is None <==> usecs == 0 && !prefer,
        settings matches Some(set) ==> set.usecs == usecs && set.budget == budget && (set.prefer
            == 1 <==> prefer) && (set.prefer == 0 <==> !prefer),
{
}

/// A path fits exactly where it leaves room for the zero behind it, and each byte more
/// makes the address longer by one.
pub proof fn lemma_addresses(
    path_len: usize,
    room: usize,
    family_len: usize,
    len: Option<u32>,
    longer: Option<u32>,
)
    requires
        room + family_len <= u32::MAX,
        path_len < usize::MAX,
        call_ensures(uds_address_len, (path_len, room, family_len), len),
        call_ensures(uds_address_len, ((path_len + 1) as usize, room, family_len), longer),
    ensures
        len is Some <==> path_len + 1 <= room,
        longer is Some ==> len is Some && longer->0 == len->0 + 1,
        path_len == 0 && len is Some ==> len->0 == family_len + 1,
{
}

/// A round goes on exactly while the batch has room and every attempt brought a
/// connection, and is followed by waiting exactly where it brought none.
pub proof fn lemma_accepting(accepted: usize, batch: usize, last: Option<Io>, next: Accepting)
    requires
        call_ensures(next_accept, (accepted, batch, last), next),
    ensures
        accepted >= batch ==> !(next is Accept),
        last matches Some(io) ==> !(io is Count) ==> !(next is Accept),
        next is Accept <==> accepted < batch && (last is None || last->0 is Count),
        !(next is Accept) ==> (next is Wait <==> accepted == 0),
{
}

/// A connection is offered to every channel once, from the one whose turn it is on, and
/// to no other after one took it. Where none took it, the one whose turn it was is
/// waited for.
pub proof fn lemma_handovers(
    rotation: &Rotation,
    first: usize,
    tried: usize,
    earlier: usize,
    next: Handover,
    before: Handover,
    taken: Handover,
)
    requires
        rotation.wf(),
        first < rotation.channels(),
        earlier < tried,
        call_ensures(Rotation::next_handover, (rotation, first, tried, false), next),
        call_ensures(Rotation::next_handover, (rotation, first, earlier, false), before),
        call_ensures(Rotation::next_handover, (rotation, first, tried, true), taken),
    ensures
        taken is Done,
        next is Try <==> tried < rotation.channels(),
        tried >= rotation.channels() ==> next == Handover::Block(first),
        next is Try ==> before is Try && next->Try_0 != before->Try_0,
        earlier == 0 ==> before == Handover::Try(first),
{
    if tried < rotation.channels() {
        lemma_attempts(first as int, rotation.channels(), first as int);
        lemma_attempt_of(first as int, earlier as int, rotation.channels());
        lemma_attempt_of(first as int, tried as int, rotation.channels());
    } else {
        lemma_attempt_of(first as int, 0, rotation.channels());
    }
}

} // verus!
