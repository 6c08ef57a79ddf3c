//! A worker that serves clients: the channels over which it is handed clients, and
//! the clients it has.
use crate::conn;
use crate::conn::{Conn, ConnTable};
use crate::net;
use crate::net::Route;
use vstd::prelude::*;

verus! {

/// The channels and clients of a worker.
pub struct Worker {
    controls: Vec<i32>,
    conns: ConnTable,
}

impl Worker {
    /// The descriptors of the channels.
    pub closed spec fn controls(&self) -> Seq<i32> {
        self.controls@
    }

    /// The clients.
    pub closed spec fn clients(&self) -> conn::TableView {
        self.conns@
    }

    /// How many buffers are set aside at most.
    pub closed spec fn capacity(&self) -> int {
        self.conns.capacity()
    }

    /// The table of clients is well-formed.
    pub closed spec fn wf(&self) -> bool {
        self.conns.wf()
    }

    /// A worker without channels and clients.
    pub fn new(pool_cap: usize) -> (worker: Worker)
        ensures
            worker.wf(),
            worker.capacity() == pool_cap,
            worker.controls() == Seq::<i32>::empty(),
            worker.clients().slots == Seq::new(
                conn::MAX_FD_SLOTS as nat,
                |i: int| None::<Seq<u8>>,
            ),
            worker.clients().pooled == if pool_cap < conn::POOL_START {
                pool_cap as nat
            } else {
                conn::POOL_START as nat
            },
    {
        Worker { controls: Vec::new(), conns: ConnTable::new(pool_cap) }
    }

    /// Says where an event goes.
    pub fn route(&self, token: u64) -> (to: Route)
        ensures
            match to {
                Route::Listener => token == net::LISTEN_TOKEN,
                Route::Control(at) => token != net::LISTEN_TOKEN && net::first_place(
                    self.controls(),
                    token as i32,
                    at as int,
                ),
                Route::Client(fd) => token != net::LISTEN_TOKEN && fd == token as i32
                    && !self.controls().contains(fd),
            },
    {
        net::route(token, &self.controls)
    }

    /// Takes a channel on that could be registered for events. False where it is to
    /// be closed.
    pub fn channel_opened(&mut self, fd: i32, registered: bool) -> (keep: bool)
        requires
            old(self).wf(),
        ensures
            final(self).wf(),
            final(self).capacity() == old(self).capacity(),
            final(self).clients() == old(self).clients(),
            keep == registered,
            final(self).controls() == if registered {
                old(self).controls().push(fd)
            } else {
                old(self).controls()
            },
    {
        if registered {
            self.controls.push(fd);
        }
        registered
    }

    /// The descriptor of a channel.
    pub fn channel(&self, place: usize) -> (fd: i32)
        requires
            place < self.controls().len(),
        ensures
            fd == self.controls()[place as int],
    {
        self.controls[place]
    }

    /// Gives a channel up. The last one takes its place.
    pub fn channel_closed(&mut self, place: usize) -> (fd: i32)
        requires
            old(self).wf(),
            place < old(self).controls().len(),
        ensures
            final(self).wf(),
            final(self).capacity() == old(self).capacity(),
            final(self).clients() == old(self).clients(),
            fd == old(self).controls()[place as int],
            final(self).controls() == old(self).controls().update(
                place as int,
                old(self).controls().last(),
            ).drop_last(),
            final(self).controls() == without_channel(old(self).controls(), place as int),
    {
        self.controls.swap_remove(place)
    }

    /// Takes a client on that could be registered for events and has a place in the
    /// table. False where it is to be closed.
    pub fn client_arrived(&mut self, fd: i32, registered: bool) -> (keep: bool)
        requires
            old(self).wf(),
        ensures
            final(self).wf(),
            final(self).capacity() == old(self).capacity(),
            final(self).controls() == old(self).controls(),
            keep == (registered && conn::in_table(fd)),
            keep ==> final(self).clients() == conn::with_client(old(self).clients(), fd),
            !keep ==> final(self).clients() == old(self).clients(),
            keep ==> final(self).clients().slots == old(self).clients().slots.update(
                fd as int,
                Some(Seq::<u8>::empty()),
            ),
            keep ==> final(self).clients().pooled == if old(self).clients().pooled == 0 {
                0
            } else {
                (old(self).clients().pooled - 1) as nat
            },
    {
        registered && self.conns.insert(fd)
    }

    /// The connection of a client, if there is one.
    pub fn client(&mut self, fd: i32) -> (conn: Option<&mut Conn>)
        requires
            old(self).wf(),
        ensures
            match conn {
                Some(c) => {
                    &&& conn::in_table(fd)
                    &&& old(self).clients().slots[fd as int] == Some(c@)
                    &&& c.wf()
                    &&& final(self).clients().slots =~= old(self).clients().slots.update(
                        fd as int,
                        Some(final(c)@),
                    )
                    &&& final(self).clients().pooled == old(self).clients().pooled
                    &&& final(c).wf() ==> final(self).wf()
                },
                None => {
                    &&& conn::in_table(fd) ==> old(self).clients().slots[fd as int] is None
                    &&& final(self).clients().slots =~= old(self).clients().slots
                    &&& final(self).clients().pooled == old(self).clients().pooled
                    &&& final(self).wf()
                },
            },
            final(self).capacity() == old(self).capacity(),
            final(self).controls() == old(self).controls(),
    {
        self.conns.get_mut(fd)
    }

    /// Gives a client up, and sets its buffer aside where that is allowed.
    pub fn client_closed(&mut self, fd: i32)
        requires
            old(self).wf(),
        ensures
            final(self).wf(),
            final(self).capacity() == old(self).capacity(),
            final(self).controls() == old(self).controls(),
            final(self).clients() == conn::without_client(
                old(self).clients(),
                fd,
                old(self).capacity(),
            ),
            if conn::in_table(fd) && old(self).clients().slots[fd as int] is Some {
                &&& final(self).clients().slots == old(self).clients().slots.update(
                    fd as int,
                    None,
                )
                &&& final(self).clients().pooled == if old(self).clients().pooled
                    < old(self).capacity() {
                    old(self).clients().pooled + 1
                } else {
                    old(self).clients().pooled
                }
            } else {
                final(self).clients() == old(self).clients()
            },
    {
        self.conns.remove(fd);
    }
}

/// The channels that are left when the one at `place` is given up: the last one takes
/// its place.
pub open spec fn without_channel(controls: Seq<i32>, place: int) -> Seq<i32> {
    controls.update(place, controls.last()).drop_last()
}

/// Giving a channel up gives up that one and no other.
pub proof fn lemma_one_channel_goes(controls: Seq<i32>, place: int)
    requires
        0 <= place < controls.len(),
    ensures
        without_channel(controls, place).len() == controls.len() - 1,
        without_channel(controls, place).to_multiset() == controls.to_multiset().remove(
            controls[place],
        ),
{
    let n = controls.len() - 1;
    let left = without_channel(controls, place);
    let moved = controls.update(place, controls.last());
    vstd::seq_lib::to_multiset_build(left, moved.last());
    assert(left.push(moved.last()) =~= moved);
    vstd::seq_lib::to_multiset_update(controls, place, controls.last());
    if place == n {
        assert(moved =~= controls);
    }
    assert(left.to_multiset() =~= controls.to_multiset().remove(controls[place]));
}

/// The event of a descriptor goes to the channel that has it, and to the client where no
/// channel does.
pub proof fn lemma_events_find_their_place(worker: &Worker, fd: i32, to: Route)
    requires
        fd >= 0,
        call_ensures(Worker::route, (worker, fd as u64), to),
    ensures
        !(to is Listener),
        to is Control <==> worker.controls().contains(fd),
        to matches Route::Control(at) ==> at < worker.controls().len()
            && worker.controls()[at as int] == fd,
        to matches Route::Client(client) ==> client == fd,
{
    net::lemma_token(fd);
    if to is Control {
        assert(worker.controls()[to->Control_0 as int] == fd);
    }
}

} // verus!
