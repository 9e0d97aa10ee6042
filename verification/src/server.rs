//! The server's own state: its address and the connections it is reading
//! requests from, and the decisions of its event loop.
use std::collections::HashMap;
use vstd::prelude::*;
use crate::request::{Request, separator_at, separator_from, spec_content_length, spec_parse_request};
use crate::response::{Response, StatusCode, error_response};

verus! {

broadcast use vstd::std_specs::hash::group_hash_axioms;

/// Seconds a connection may stay open without its request being handled.
pub const TIMEOUT_SECS: u64 = 30;

/// A server bound to an address.
pub struct Server {
    addr: String,
}

impl Server {
    /// The address the server listens on.
    pub closed spec fn spec_addr(self) -> Seq<char> {
        self.addr@
    }

    /// A server for the address `addr` (`host:port`).
    pub fn new(addr: &str) -> (s: Server)
        ensures
            s.spec_addr() == addr@,
    {
        Server { addr: addr.to_owned() }
    }

    /// The address the server listens on.
    pub fn addr(&self) -> (a: &str)
        ensures
            a@ == self.spec_addr(),
    {
        self.addr.as_str()
    }
}

/// Whether the bytes read so far end with the blank line `\r\n\r\n` that
/// closes the header section.
pub open spec fn spec_headers_complete(b: Seq<u8>) -> bool {
    b.len() >= 4 && b.skip(b.len() - 4) == seq![13u8, 10u8, 13u8, 10u8]
}

/// Whether the bytes read so far end the header section.
pub fn headers_complete(buf: &[u8]) -> (b: bool)
    ensures
        b == spec_headers_complete(buf@),
{
    let n = buf.len();
    if n < 4 {
        return false;
    }
    let r = buf[n - 4] == 13 && buf[n - 3] == 10 && buf[n - 2] == 13 && buf[n - 1] == 10;
    assert(r == (buf@.skip(n - 4) =~= seq![13u8, 10u8, 13u8, 10u8]));
    r
}

proof fn lemma_separator_found(b: Seq<u8>, i: int, j: int)
    requires
        0 <= i <= j,
        separator_at(b, j),
    ensures
        separator_from(b, i) is Some,
    decreases j - i,
{
    if i < j && !separator_at(b, i) {
        lemma_separator_found(b, i + 1, j);
    }
}

/// Bytes whose header section is complete always hold the blank line at
/// which the request parser splits the header section from the body.
pub proof fn law_complete_headers_have_separator(b: Seq<u8>)
    requires
        spec_headers_complete(b),
    ensures
        separator_from(b, 0) is Some,
{
    let j = b.len() - 4;
    assert(b.skip(j)[0] == b[j] && b.skip(j)[1] == b[j + 1] && b.skip(j)[2] == b[j + 2] && b.skip(j)[3] == b[j + 3]);
    lemma_separator_found(b, 0, j);
}

/// Nanoseconds in a second.
pub const NANOS_PER_SEC: u64 = 1000000000;

/// What to do with the bytes of a finished request: handle the request that
/// they hold, or answer 400 where they hold none.
pub fn request_or_bad_request(bytes: &[u8]) -> (r: Result<Request, Response>)
    ensures
        match spec_parse_request(bytes@) {
            Some(v) => r matches Ok(req) && req@ == v,
            None => r matches Err(resp) && resp@ == error_response(StatusCode::BadRequest),
        },
{
    match Request::parse(bytes) {
        Some(req) => Ok(req),
        None => Err(Response::error(StatusCode::BadRequest)),
    }
}

/// The body length that a complete header section announces, or the 400
/// response where the section holds no request.
pub fn announced_body_length(header: &[u8]) -> (r: Result<usize, Response>)
    ensures
        match spec_parse_request(header@) {
            Some(v) => r matches Ok(n) && n == spec_content_length(v.headers),
            None => r matches Err(resp) && resp@ == error_response(StatusCode::BadRequest),
        },
{
    match Request::parse(header) {
        Some(req) => Ok(req.content_length()),
        None => Err(Response::error(StatusCode::BadRequest)),
    }
}

/// Whether a connection opened at `opened` has timed out at `now` (both in
/// nanoseconds on a monotonic clock): more than `TIMEOUT_SECS` whole seconds
/// have passed; a clock that went back counts as no time passed.
pub open spec fn spec_timed_out(opened: u64, now: u64) -> bool {
    now > opened && ((now - opened) as u64) / NANOS_PER_SEC > TIMEOUT_SECS
}

/// The bytes that a connection sends after it is opened are the bytes that
/// its pending request is parsed from, whatever the other connections
/// receive meanwhile: `t1` is `t0` after `open(fd, ..)`, `t2` is `t1` after
/// `receive(fd, first)`, `t3` is `t2` after `receive(other, elsewhere)` and
/// `t4` is `t3` after `receive(fd, second)`, each as its contract states.
pub proof fn law_received_bytes_accumulate(
    t0: ConnectionTable,
    t1: ConnectionTable,
    t2: ConnectionTable,
    t3: ConnectionTable,
    t4: ConnectionTable,
    fd: i32,
    other: i32,
    first: Seq<u8>,
    second: Seq<u8>,
    elsewhere: Seq<u8>,
)
    requires
        other != fd,
        t1.spec_buffers() == t0.spec_buffers().insert(fd, Seq::empty()),
        t2.spec_buffers() == t1.spec_buffers().insert(fd, t1.spec_buffers()[fd] + first),
        t2.spec_buffers().contains_key(other) ==> t3.spec_buffers() == t2.spec_buffers().insert(
            other,
            t2.spec_buffers()[other] + elsewhere,
        ),
        !t2.spec_buffers().contains_key(other) ==> t3.spec_buffers() == t2.spec_buffers(),
        t4.spec_buffers() == t3.spec_buffers().insert(fd, t3.spec_buffers()[fd] + second),
    ensures
        t4.spec_buffers().contains_key(fd),
        t4.spec_buffers()[fd] == first + second,
        spec_parse_request(t4.spec_buffers()[fd]) == spec_parse_request(first + second),
{
    assert(t1.spec_buffers()[fd] + first =~= first);
}

/// The connections that are open: the bytes received from each and the
/// time at which it was accepted.
pub struct ConnectionTable {
    buffers: HashMap<i32, Vec<u8>>,
    connect_times: HashMap<i32, u64>,
}

impl ConnectionTable {
    /// The bytes received so far from each connection.
    pub closed spec fn spec_buffers(self) -> Map<i32, Seq<u8>> {
        self.buffers@.map_values(|b: Vec<u8>| b@)
    }

    /// The time (in nanoseconds) at which each connection was accepted.
    pub closed spec fn spec_times(self) -> Map<i32, u64> {
        self.connect_times@
    }

    /// A table with no connections.
    pub fn new() -> (t: ConnectionTable)
        ensures
            t.spec_buffers() == Map::<i32, Seq<u8>>::empty(),
            t.spec_times() == Map::<i32, u64>::empty(),
    {
        let t = ConnectionTable { buffers: HashMap::new(), connect_times: HashMap::new() };
        assert(t.spec_buffers() =~= Map::<i32, Seq<u8>>::empty());
        t
    }

    /// Records a connection accepted at `now`, with nothing received yet.
    pub fn open(&mut self, fd: i32, now: u64)
        ensures
            final(self).spec_buffers() == old(self).spec_buffers().insert(fd, Seq::empty()),
            final(self).spec_times() == old(self).spec_times().insert(fd, now),
    {
        self.buffers.insert(fd, Vec::new());
        self.connect_times.insert(fd, now);
        assert(self.spec_buffers() =~= old(self).spec_buffers().insert(fd, Seq::empty()));
    }

    /// Appends the bytes `data` received from `fd`; bytes from a connection
    /// that is not open are dropped.
    pub fn receive(&mut self, fd: i32, data: &[u8])
        ensures
            old(self).spec_buffers().contains_key(fd) ==> final(self).spec_buffers()
                == old(self).spec_buffers().insert(fd, old(self).spec_buffers()[fd] + data@),
            !old(self).spec_buffers().contains_key(fd) ==> final(self).spec_buffers()
                == old(self).spec_buffers(),
            final(self).spec_times() == old(self).spec_times(),
    {
        match self.buffers.remove(&fd) {
            Some(mut b) => {
                let ghost before = b@;
                let mut i: usize = 0;
                while i < data.len()
                    invariant
                        i <= data@.len(),
                        b@ == before + data@.take(i as int),
                    decreases data@.len() - i,
                {
                    b.push(data[i]);
                    assert(data@.take(i + 1) == data@.take(i as int).push(data@[i as int]));
                    i = i + 1;
                }
                assert(data@.take(data@.len() as int) == data@);
                self.buffers.insert(fd, b);
                assert(self.spec_buffers() =~= old(self).spec_buffers().insert(fd, old(self).spec_buffers()[fd] + data@));
            },
            None => {
                assert(self.spec_buffers() =~= old(self).spec_buffers());
            },
        }
    }

    /// Forgets the connection `fd`.
    pub fn close(&mut self, fd: i32)
        ensures
            final(self).spec_buffers() == old(self).spec_buffers().remove(fd),
            final(self).spec_times() == old(self).spec_times().remove(fd),
    {
        self.buffers.remove(&fd);
        self.connect_times.remove(&fd);
        assert(self.spec_buffers() =~= old(self).spec_buffers().remove(fd));
    }

    /// What to do with the bytes received from `fd` once it has no more to
    /// send: nothing where it is not open, handle the request where they
    /// hold one, and answer 400 where they do not.
    pub fn pending(&self, fd: i32) -> (r: Option<Result<Request, Response>>)
        ensures
            !self.spec_buffers().contains_key(fd) ==> r is None,
            self.spec_buffers().contains_key(fd) ==> match spec_parse_request(self.spec_buffers()[fd]) {
                Some(v) => r matches Some(Ok(req)) && req@ == v,
                None => r matches Some(Err(resp)) && resp@ == error_response(StatusCode::BadRequest),
            },
    {
        match self.buffers.get(&fd) {
            Some(b) => Some(request_or_bad_request(b.as_slice())),
            None => None,
        }
    }

    /// The connections that have timed out at `now`.
    pub fn expired(&self, now: u64) -> (fds: Vec<i32>)
        ensures
            forall|fd: i32| #[trigger] fds@.contains(fd) <==> self.spec_times().contains_key(fd)
                && spec_timed_out(self.spec_times()[fd], now),
    {
        let mut fds: Vec<i32> = Vec::new();
        let ghost m = self.connect_times@;
        let ghost entries = vstd::std_specs::iter::IteratorSpec::remaining(&self.connect_times.iter());
        proof {
            vstd::std_specs::hash::axiom_spec_hash_map_iter(&self.connect_times);
        }
        for entry in it: self.connect_times.iter()
            invariant
                m == self.connect_times@,
                it.seq() == entries,
                entries.len() == m.dom().len(),
                forall|i: int| 0 <= i < entries.len() ==> m.contains_key(*entries[i].0) && m[*entries[i].0] == *entries[i].1,
                forall|fd: i32| #[trigger] fds@.contains(fd) ==> m.contains_key(fd)
                    && spec_timed_out(m[fd], now),
                forall|k: int| 0 <= k < it.index() ==> spec_timed_out(*entries[k].1, now)
                    ==> #[trigger] fds@.contains(*entries[k].0),
        {
            let ghost idx = it.index();
            assert(entry == entries[idx]);
            let (fd, opened) = entry;
            assert(m.contains_key(*fd) && m[*fd] == *opened);
            if now > *opened && (now - *opened) / NANOS_PER_SEC > TIMEOUT_SECS {
                let ghost before = fds@;
                fds.push(*fd);
                assert forall|x: i32| #[trigger] fds@.contains(x) implies m.contains_key(x) && spec_timed_out(m[x], now) by {
                    if x != *fd {
                        assert(before.contains(x));
                    }
                }
                assert forall|k: int| 0 <= k < idx + 1 && spec_timed_out(*entries[k].1, now) implies #[trigger] fds@.contains(*entries[k].0) by {
                    if k < idx {
                        assert(before.contains(*entries[k].0));
                        let j = choose|j: int| 0 <= j < before.len() && before[j] == *entries[k].0;
                        assert(fds@[j] == before[j]);
                    } else {
                        assert(fds@[before.len() as int] == *fd);
                    }
                }
            }
        }
        assert forall|fd: i32| m.contains_key(fd) && spec_timed_out(m[fd], now) implies #[trigger] fds@.contains(fd) by {
            assert(entries.contains((&fd, &m[fd])));
            let k = choose|k: int| 0 <= k < entries.len() && entries[k] == (&fd, &m[fd]);
            assert(*entries[k].0 == fd);
        }
        fds
    }
}

} // verus!
