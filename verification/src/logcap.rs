//! The limit on the output of one stream of one job.
//!
//! The limit operates while the job writes: a correction afterwards lets the
//! disk fill first. The head of the output holds the start, the tail holds the
//! failure, so both ends stay and a line between them says how much went. The
//! tail lives in a circular file of a fixed size, and not in the memory.
//!
//! This module decides. Its caller owns the two files: it asks what to do with
//! a part of the output, does it, and reports what happened.

use crate::text;
use crate::units;
use vstd::prelude::*;
use vstd::string::*;
use vstd::utf8;

verus! {

/// The number of bytes that a copy moves in one operation.
pub const CHUNK: u64 = 65536;

/// The space that stays in the limit for the two notes.
pub const NOTE_ROOM: u64 = 2048;

/// The smallest limit that is accepted.
///
/// The limit must hold a head, a tail and the two notes. A limit of a few
/// hundred bytes holds nothing, and a user who writes one has an intention that
/// the file cannot satisfy. The configuration refuses such a value and says so.
pub const MIN_LIMIT: u64 = 16384;

/// The mark at the start of each line that qex itself writes into a log file.
///
/// A reader searches for this text, and `qex logs --grep` finds it.
pub const MARK: &'static str = "[qex]";

/// What was removed from one stream of one job.
#[derive(Debug, Clone, Copy, PartialEq, Eq, Structural)]
pub struct Dropped {
    pub bytes: u64,
    pub lines: u64,
}

impl Default for Dropped {
    fn default() -> (r: Self)
        ensures
            r == (Dropped { bytes: 0, lines: 0 }),
    {
        Dropped { bytes: 0, lines: 0 }
    }
}

/// What one copy of one stream reports to the supervisor.
#[derive(Debug, Clone, Copy, PartialEq, Eq, Structural)]
pub enum Report {
    /// The job closed this stream. No more output can arrive.
    Eof,
    /// The copy is complete. This is what was removed.
    Done(Dropped),
}

/// The parts of the limit.
#[derive(Debug, Clone, Copy, PartialEq, Eq, Structural)]
pub struct Parts {
    /// The bytes that the file keeps from the start of the output, after the
    /// output passes the limit.
    pub head: u64,
    /// The bytes that the circular file keeps from the end of the output.
    pub tail: u64,
    /// The bytes that go into the file itself before anything is removed.
    pub fill: u64,
    /// The limit itself, for the notes.
    pub max: u64,
}

/// The space for the notes in a limit.
pub open spec fn note_room(max: nat) -> nat {
    if max / 8 < NOTE_ROOM {
        max / 8
    } else {
        NOTE_ROOM as nat
    }
}

/// How a limit is divided: one quarter for the head, some room for the notes,
/// and the rest for the tail. Nothing is removed until the output needs more
/// than the limit less that room.
pub open spec fn divided(p: Parts, max: nat) -> bool {
    let tail = max - max / 4 - note_room(max);
    &&& p.max == max
    &&& p.head == max / 4
    &&& p.tail == if tail < 1 {
        1
    } else {
        tail
    }
    &&& p.fill == if max - note_room(max) < max / 4 {
        (max / 4) as int
    } else {
        max - note_room(max)
    }
}

/// Divides the limit between the head, the tail and the notes.
///
/// The tail is three times the head, or nearly so. The head needs the start of
/// the output only; the failure is at the end, and the reader usually needs
/// more of it.
pub fn parts(max: u64) -> (r: Parts)
    ensures
        divided(r, max as nat),
{
    let room: u64 = if max / 8 < NOTE_ROOM {
        max / 8
    } else {
        NOTE_ROOM
    };
    let head: u64 = max / 4;
    let tail: u64 = max - (head + room);
    Parts {
        head,
        tail: if tail < 1 {
            1
        } else {
            tail
        },
        fill: max - room,
        max,
    }
}

/// The head, the tail and the notes together are the limit, so the two files
/// fit in it together. The tail holds more than the head.
pub proof fn law_parts_fit(p: Parts, max: nat)
    requires
        divided(p, max),
        max >= MIN_LIMIT,
    ensures
        p.head + p.tail + NOTE_ROOM == max,
        p.fill + NOTE_ROOM == max,
        p.head < p.tail,
        0 < p.head < p.fill,
{
}

/// The number of line ends in some bytes.
pub open spec fn newlines(data: Seq<u8>) -> nat
    decreases data.len(),
{
    if data.len() == 0 {
        0
    } else {
        newlines(data.drop_last()) + if data.last() == 10 {
            1nat
        } else {
            0
        }
    }
}

pub proof fn lemma_newlines_concat(a: Seq<u8>, b: Seq<u8>)
    ensures
        newlines(a + b) == newlines(a) + newlines(b),
    decreases b.len(),
{
    if b.len() == 0 {
        assert(a + b == a);
    } else {
        assert((a + b).drop_last() == a + b.drop_last());
        lemma_newlines_concat(a, b.drop_last());
    }
}

pub proof fn lemma_newlines_bound(a: Seq<u8>)
    ensures
        newlines(a) <= a.len(),
    decreases a.len(),
{
    if a.len() > 0 {
        lemma_newlines_bound(a.drop_last());
    }
}

/// Counts the line ends in some bytes.
pub fn count_lines(data: &[u8]) -> (r: u64)
    ensures
        r == newlines(data@),
{
    let mut n: u64 = 0;
    let mut i: usize = 0;
    while i < data.len()
        invariant
            i <= data@.len(),
            n == newlines(data@.take(i as int)),
            n <= i,
        decreases data@.len() - i,
    {
        assert(data@.take(i + 1).drop_last() == data@.take(i as int));
        if data[i] == 10 {
            n += 1;
        }
        i += 1;
    }
    assert(data@.take(data@.len() as int) == data@);
    n
}

/// The position of the first line end in some bytes.
pub open spec fn first_newline(data: Seq<u8>) -> Option<nat>
    decreases data.len(),
{
    if data.len() == 0 {
        None
    } else if data[0] == 10 {
        Some(0)
    } else {
        match first_newline(data.skip(1)) {
            Some(i) => Some(i + 1),
            None => None,
        }
    }
}

pub proof fn lemma_first_newline(data: Seq<u8>, i: int)
    requires
        0 <= i <= data.len(),
        forall|j: int| 0 <= j < i ==> data[j] != 10,
        i < data.len() ==> data[i] == 10,
    ensures
        first_newline(data) == (if i < data.len() {
            Some(i as nat)
        } else {
            None
        }),
    decreases i,
{
    if i > 0 {
        assert forall|j: int| 0 <= j < i - 1 implies data.skip(1)[j] != 10 by {
            assert(data.skip(1)[j] == data[j + 1]);
        }
        lemma_first_newline(data.skip(1), i - 1);
    }
}

/// The place of the first line end, and what stands before it.
pub proof fn lemma_first_newline_place(data: Seq<u8>)
    ensures
        match first_newline(data) {
            Some(i) => i < data.len() && data[i as int] == 10 && forall|j: int|
                0 <= j < i ==> data[j] != 10,
            None => forall|j: int| 0 <= j < data.len() ==> data[j] != 10,
        },
    decreases data.len(),
{
    if data.len() > 0 && data[0] != 10 {
        lemma_first_newline_place(data.skip(1));
        match first_newline(data.skip(1)) {
            Some(i) => {
                assert forall|j: int| 0 <= j < i + 1 implies data[j] != 10 by {
                    if j > 0 {
                        assert(data.skip(1)[j - 1] == data[j]);
                    }
                }
            },
            None => {
                assert forall|j: int| 0 <= j < data.len() implies data[j] != 10 by {
                    if j > 0 {
                        assert(data.skip(1)[j - 1] == data[j]);
                    }
                }
            },
        }
    }
}

fn find_newline(data: &[u8]) -> (r: usize)
    ensures
        r <= data@.len(),
        forall|j: int| 0 <= j < r ==> data@[j] != 10,
        r < data@.len() ==> data@[r as int] == 10,
        first_newline(data@) == (if r < data@.len() {
            Some(r as nat)
        } else {
            None
        }),
{
    let mut i: usize = 0;
    while i < data.len() && data[i] != 10
        invariant
            i <= data@.len(),
            forall|j: int| 0 <= j < i ==> data@[j] != 10,
        decreases data@.len() - i,
    {
        i += 1;
    }
    proof {
        lemma_first_newline(data@, i as int);
    }
    i
}

/// One write into the circular file: the bytes from `from` to `to` of the
/// output go to position `at` of the file.
#[derive(Debug, Clone, Copy, PartialEq, Eq, Structural)]
pub struct Put {
    pub at: u64,
    pub from: usize,
    pub to: usize,
}

/// A file of a fixed size that holds the last bytes of a stream.
///
/// The writer returns to the start of the file when it reaches the end. The
/// file thus holds the last `size` bytes at each moment, and it never grows.
#[derive(Debug, Clone, Copy, PartialEq, Eq, Structural)]
pub struct Ring {
    pub size: u64,
    /// The position for the next byte.
    pub pos: u64,
    /// True after the writer returned to the start one time.
    pub wrapped: bool,
}

impl Ring {
    /// The position for the next byte is a position of the file.
    pub open spec fn wf(self) -> bool {
        self.pos < self.size
    }

    /// The ring after `n` more bytes.
    pub open spec fn after(self, n: nat) -> Ring {
        if self.pos + n >= self.size {
            Ring { size: self.size, pos: (self.pos + n - self.size) as u64, wrapped: true }
        } else {
            Ring { size: self.size, pos: (self.pos + n) as u64, wrapped: self.wrapped }
        }
    }

    /// The writes for the bytes from `from` to `len` of a part of the output.
    pub open spec fn puts(self, from: nat, len: nat) -> Seq<Put>
        decreases len - from,
        when self.wf()
    {
        if from >= len {
            Seq::empty()
        } else {
            let room = (self.size - self.pos) as nat;
            let take = if room < len - from {
                room
            } else {
                (len - from) as nat
            };
            seq![Put { at: self.pos, from: from as usize, to: (from + take) as usize }]
                + self.after(take).puts(from + take, len)
        }
    }

    /// The first byte of a part of the output that a later byte of the same
    /// part does not cover.
    pub open spec fn skip(self, len: nat) -> nat {
        if len > self.size {
            (len - self.size) as nat
        } else {
            0
        }
    }

    /// An empty ring.
    pub fn new(size: u64) -> (r: Ring)
        requires
            size > 0,
        ensures
            r == (Ring { size, pos: 0, wrapped: false }),
            r.wf(),
    {
        Ring { size, pos: 0, wrapped: false }
    }

    /// Plans the writes for one part of the output, in order. A part that is
    /// larger than the file counts as one return to the start. Report each
    /// write that reached the file with `wrote`.
    pub fn write(&mut self, len: usize) -> (r: Vec<Put>)
        requires
            old(self).wf(),
        ensures
            final(self).size == old(self).size,
            final(self).pos == old(self).pos,
            final(self).wrapped == (old(self).wrapped || len > old(self).size),
            r@ == final(self).puts(old(self).skip(len as nat), len as nat),
    {
        let mut from: usize = 0;
        if len as u64 > self.size {
            self.wrapped = true;
            from = len - self.size as usize;
        }
        let ghost start = *self;
        let ghost first = from as nat;
        let mut out: Vec<Put> = Vec::new();
        let mut ring = *self;
        while from < len
            invariant
                ring.wf(),
                first <= from <= len,
                start.wf(),
                start.puts(first, len as nat) == out@ + ring.puts(from as nat, len as nat),
            decreases len - from,
        {
            let room: u64 = ring.size - ring.pos;
            let left: usize = len - from;
            let take: usize = if room < left as u64 {
                room as usize
            } else {
                left
            };
            let ghost before = out@;
            let ghost ring0 = ring;
            let put = Put { at: ring.pos, from, to: from + take };
            out.push(put);
            ring.wrote(&put);
            assert(ring0.puts(from as nat, len as nat) == seq![put] + ring.puts(
                (from + take) as nat,
                len as nat,
            ));
            assert(before + (seq![put] + ring.puts((from + take) as nat, len as nat)) == out@
                + ring.puts((from + take) as nat, len as nat));
            from += take;
        }
        assert(out@ + ring.puts(from as nat, len as nat) == out@);
        out
    }

    /// Takes note of one write that reached the file.
    pub fn wrote(&mut self, put: &Put)
        requires
            old(self).wf(),
            put.at == old(self).pos,
            put.from < put.to,
            put.to - put.from <= old(self).size - old(self).pos,
        ensures
            *final(self) == old(self).after((put.to - put.from) as nat),
            final(self).wf(),
    {
        let n: u64 = (put.to - put.from) as u64;
        if n == self.size - self.pos {
            self.pos = 0;
            self.wrapped = true;
        } else {
            self.pos = self.pos + n;
        }
    }

    /// Gives the order of the two parts of the file, each as its position and
    /// its length.
    pub fn segments(&self) -> (r: [(u64, u64); 2])
        requires
            self.wf(),
        ensures
            r@ == (if self.wrapped {
                seq![(self.pos, (self.size - self.pos) as u64), (0u64, self.pos)]
            } else {
                seq![(0u64, self.pos), (0u64, 0u64)]
            }),
    {
        if self.wrapped {
            [(self.pos, self.size - self.pos), (0, self.pos)]
        } else {
            [(0, self.pos), (0, 0)]
        }
    }
}

/// The file after one write of a part of the output.
pub open spec fn put_one(file: Seq<u8>, p: Put, buf: Seq<u8>) -> Seq<u8> {
    Seq::new(
        file.len(),
        |i: int|
            if p.at <= i < p.at + (p.to - p.from) {
                buf[p.from + i - p.at]
            } else {
                file[i]
            },
    )
}

/// The file after a list of writes of a part of the output.
pub open spec fn put_all(file: Seq<u8>, puts: Seq<Put>, buf: Seq<u8>) -> Seq<u8>
    decreases puts.len(),
{
    if puts.len() == 0 {
        file
    } else {
        put_all(put_one(file, puts[0], buf), puts.skip(1), buf)
    }
}

/// The contents of the circular file in the order of the output: its segments
/// one after the other.
pub open spec fn contents(r: Ring, file: Seq<u8>) -> Seq<u8> {
    if r.wrapped {
        file.subrange(r.pos as int, r.size as int) + file.subrange(0, r.pos as int)
    } else {
        file.subrange(0, r.pos as int)
    }
}

/// The last `n` bytes of `s`, or all of them.
pub open spec fn last_bytes(s: Seq<u8>, n: nat) -> Seq<u8> {
    if s.len() <= n {
        s
    } else {
        s.skip(s.len() - n)
    }
}

/// The circular file holds the end of the stream `s`.
pub open spec fn holds_end(r: Ring, file: Seq<u8>, s: Seq<u8>) -> bool {
    &&& r.wf()
    &&& file.len() == r.size
    &&& r.wrapped == (s.len() >= r.size)
    &&& !r.wrapped ==> r.pos == s.len()
    &&& contents(r, file) == last_bytes(s, r.size as nat)
}

/// The place in the file of the byte that stands `k - i` bytes before the next
/// one.
spec fn place(r: Ring, k: nat, i: int) -> int {
    if r.pos - k + i < 0 {
        r.pos - k + i + r.size
    } else {
        r.pos - k + i
    }
}

/// The last `k` bytes of `s` stand in the file just before the next position.
spec fn recent(r: Ring, file: Seq<u8>, s: Seq<u8>, k: nat) -> bool {
    &&& r.wf()
    &&& file.len() == r.size
    &&& k <= r.size
    &&& k <= s.len()
    &&& forall|i: int| 0 <= i < k ==> file[#[trigger] place(r, k, i)] == s[s.len() - k + i]
}

proof fn lemma_recent_put(r: Ring, file: Seq<u8>, s: Seq<u8>, k: nat, p: Put, buf: Seq<u8>)
    requires
        recent(r, file, s, k),
        p.at == r.pos,
        p.from < p.to <= buf.len(),
        p.to - p.from <= r.size - r.pos,
    ensures
        ({
            let n = (p.to - p.from) as nat;
            let k2 = if k + n < r.size {
                k + n
            } else {
                r.size as nat
            };
            recent(
                r.after(n),
                put_one(file, p, buf),
                s + buf.subrange(p.from as int, p.to as int),
                k2,
            )
        }),
{
    let n = (p.to - p.from) as nat;
    let k2 = if k + n < r.size {
        k + n
    } else {
        r.size as nat
    };
    let r2 = r.after(n);
    let f2 = put_one(file, p, buf);
    let s2 = s + buf.subrange(p.from as int, p.to as int);
    assert forall|i: int| 0 <= i < k2 implies f2[#[trigger] place(r2, k2, i)] == s2[s2.len() - k2
        + i] by {
        let at = place(r2, k2, i);
        // The distance from the byte to the end of the stream.
        let back = k2 - i;
        if back <= n {
            assert(at == r.pos + n - back);
            assert(s2[s2.len() - back] == buf[p.from + n - back]);
        } else {
            let j = k - (back - n);
            assert(0 <= j < k);
            assert(at == place(r, k, j));
            assert(file[place(r, k, j)] == s[s.len() - k + j]);
        }
    }
}

proof fn lemma_recent_puts(
    r: Ring,
    file: Seq<u8>,
    s: Seq<u8>,
    k: nat,
    buf: Seq<u8>,
    from: nat,
)
    requires
        from <= buf.len() <= usize::MAX,
        buf.len() - from <= r.size,
        recent(r, file, s, k),
    ensures
        ({
            let n = (buf.len() - from) as nat;
            let k2 = if k + n < r.size {
                k + n
            } else {
                r.size as nat
            };
            recent(
                r.after(n),
                put_all(file, r.puts(from, buf.len()), buf),
                s + buf.skip(from as int),
                k2,
            )
        }),
    decreases buf.len() - from,
{
    if from == buf.len() {
        assert(s + buf.skip(from as int) == s);
        assert(r.after(0) == r);
    } else {
        let room = (r.size - r.pos) as nat;
        let take = if room < buf.len() - from {
            room
        } else {
            (buf.len() - from) as nat
        };
        let p = Put { at: r.pos, from: from as usize, to: (from + take) as usize };
        let rest = r.after(take).puts(from + take, buf.len());
        assert(r.puts(from, buf.len()) == seq![p] + rest);
        assert((seq![p] + rest).skip(1) == rest);
        assert((seq![p] + rest)[0] == p);
        lemma_recent_put(r, file, s, k, p, buf);
        let s2 = s + buf.subrange(from as int, (from + take) as int);
        let k2 = if k + take < r.size {
            k + take
        } else {
            r.size as nat
        };
        lemma_recent_puts(r.after(take), put_one(file, p, buf), s2, k2, buf, from + take);
        assert(s2 + buf.skip((from + take) as int) == s + buf.skip(from as int));
        assert(r.after(take).after((buf.len() - from - take) as nat) == r.after(
            (buf.len() - from) as nat,
        ));
    }
}

proof fn lemma_recent_holds(r: Ring, file: Seq<u8>, s: Seq<u8>, k: nat)
    requires
        recent(r, file, s, k),
        r.wrapped == (s.len() >= r.size),
        !r.wrapped ==> r.pos == s.len(),
        k == (if s.len() < r.size {
            s.len()
        } else {
            r.size as nat
        }),
    ensures
        holds_end(r, file, s),
{
    let c = contents(r, file);
    let want = last_bytes(s, r.size as nat);
    assert(c.len() == want.len());
    assert forall|i: int| 0 <= i < c.len() implies c[i] == want[i] by {
        assert(file[place(r, k, i)] == s[s.len() - k + i]);
    }
    assert(c == want);
}

proof fn lemma_holds_recent(r: Ring, file: Seq<u8>, s: Seq<u8>)
    requires
        holds_end(r, file, s),
    ensures
        recent(
            r,
            file,
            s,
            if s.len() < r.size {
                s.len()
            } else {
                r.size as nat
            },
        ),
{
    let k = if s.len() < r.size {
        s.len()
    } else {
        r.size as nat
    };
    let c = contents(r, file);
    assert forall|i: int| 0 <= i < k implies file[#[trigger] place(r, k, i)] == s[s.len() - k + i] by {
        assert(c[i] == last_bytes(s, r.size as nat)[i]);
    }
}

/// The circular file holds the last bytes of the stream after each part of the
/// output, whatever the sizes of the parts are.
pub proof fn law_ring_keeps_the_last_bytes(r: Ring, file: Seq<u8>, s: Seq<u8>, buf: Seq<u8>)
    requires
        holds_end(r, file, s),
        buf.len() <= usize::MAX,
    ensures
        ({
            let start = Ring { wrapped: r.wrapped || buf.len() > r.size, ..r };
            let from = r.skip(buf.len());
            holds_end(
                start.after((buf.len() - from) as nat),
                put_all(file, start.puts(from, buf.len()), buf),
                s + buf,
            )
        }),
{
    let start = Ring { wrapped: r.wrapped || buf.len() > r.size, ..r };
    let from = r.skip(buf.len());
    let n = (buf.len() - from) as nat;
    let f2 = put_all(file, start.puts(from, buf.len()), buf);
    if from == 0 {
        let k = if s.len() < r.size {
            s.len()
        } else {
            r.size as nat
        };
        lemma_holds_recent(r, file, s);
        assert(start == r);
        lemma_recent_puts(r, file, s, k, buf, 0);
        assert(buf.skip(0) == buf);
        let k2 = if k + n < r.size {
            k + n
        } else {
            r.size as nat
        };
        lemma_recent_holds(r.after(n), f2, s + buf, k2);
    } else {
        let s1 = s + buf.take(from as int);
        assert(recent(start, file, s1, 0));
        lemma_recent_puts(start, file, s1, 0, buf, from);
        assert(s1 + buf.skip(from as int) == s + buf);
        lemma_recent_holds(start.after(n), f2, s + buf, r.size as nat);
    }
}

/// Looks for the first line end in a stream that arrives in parts.
#[derive(Debug, Clone, Copy, PartialEq, Eq, Structural)]
pub struct LineEnd {
    /// The bytes before the part that comes next, while no line end was found.
    pub seen: u64,
    pub found: Option<u64>,
}

impl LineEnd {
    /// What the search knows after the bytes `s`.
    pub open spec fn knows(self, s: Seq<u8>) -> bool {
        match first_newline(s) {
            Some(i) => self.found == Some(i as u64) && i <= u64::MAX,
            None => self.found is None && self.seen == s.len(),
        }
    }

    /// Nothing was read yet.
    pub fn new() -> (r: Self)
        ensures
            r.knows(Seq::empty()),
            r.seen == 0,
            r.found is None,
    {
        LineEnd { seen: 0, found: None }
    }

    /// Reads the next part of the stream.
    pub fn read(&mut self, data: &[u8])
        requires
            old(self).seen + data@.len() <= u64::MAX,
        ensures
            forall|s: Seq<u8>| #[trigger] old(self).knows(s) ==> final(self).knows(s + data@),
            final(self).seen <= old(self).seen + data@.len(),
    {
        if self.found.is_some() {
            proof {
                assert forall|s: Seq<u8>| #[trigger] old(self).knows(s) implies self.knows(
                    s + data@,
                ) by {
                    lemma_first_newline_place(s);
                    let i = first_newline(s)->0;
                    assert forall|j: int| 0 <= j < i implies (s + data@)[j] != 10 by {
                        assert(s[j] != 10);
                    }
                    lemma_first_newline(s + data@, i as int);
                }
            }
            return ;
        }
        let at: usize = find_newline(data);
        proof {
            assert forall|s: Seq<u8>| #[trigger] old(self).knows(s) implies first_newline(s + data@)
                == (if at < data@.len() {
                Some(s.len() + at as nat)
            } else {
                None
            }) && s.len() == old(self).seen by {
                lemma_first_newline_place(s);
                assert forall|j: int| 0 <= j < s.len() + at implies (s + data@)[j] != 10 by {
                    if j < s.len() {
                        assert(s[j] != 10);
                    } else {
                        assert(data@[j - s.len()] != 10);
                    }
                }
                lemma_first_newline(s + data@, s.len() + at);
            }
        }
        if at < data.len() {
            self.found = Some(self.seen + at as u64);
        } else {
            self.seen = self.seen + data.len() as u64;
        }
    }
}

/// The bytes after the first line end, or none where there is no line end.
pub open spec fn after_first_line(s: Seq<u8>) -> Seq<u8> {
    match first_newline(s) {
        Some(i) => s.skip(i as int + 1),
        None => Seq::empty(),
    }
}

/// What a walk over the contents of the circular file keeps of them.
pub open spec fn kept(s: Seq<u8>, trim: bool) -> Seq<u8> {
    if trim {
        after_first_line(s)
    } else {
        s
    }
}

/// Reads the contents of the circular file, which arrive in parts, and leaves
/// out what stands before the first line end where it must.
///
/// The first line is incomplete when the writer returned to the start, and a
/// reader must not meet one half of a line as if it were a whole line.
#[derive(Debug, Clone, Copy, PartialEq, Eq, Structural)]
pub struct Walk {
    /// True while the bytes still go.
    pub trim: bool,
    /// The bytes and the lines that stayed.
    pub bytes: u64,
    pub lines: u64,
}

impl Walk {
    /// What the walk has counted after the bytes `s`.
    pub open spec fn counts(self, s: Seq<u8>, trim: bool) -> bool {
        &&& self.trim == (trim && first_newline(s) is None)
        &&& self.bytes == kept(s, trim).len()
        &&& self.lines == newlines(kept(s, trim))
    }

    /// The walk at its start.
    pub fn new(trim: bool) -> (r: Self)
        ensures
            r.counts(Seq::empty(), trim),
            r.bytes == 0,
            r.lines == 0,
            r.trim == trim,
    {
        Walk { trim, bytes: 0, lines: 0 }
    }

    /// Reads the next part, and gives the position in it from which its bytes
    /// stay.
    pub fn read(&mut self, data: &[u8]) -> (r: usize)
        requires
            old(self).bytes + data@.len() <= u64::MAX,
            old(self).lines + data@.len() <= u64::MAX,
        ensures
            r <= data@.len(),
            forall|s: Seq<u8>, trim: bool| #[trigger]
                old(self).counts(s, trim) ==> {
                    &&& final(self).counts(s + data@, trim)
                    &&& kept(s + data@, trim) == kept(s, trim) + data@.skip(r as int)
                },
            final(self).bytes == old(self).bytes + data@.len() - r,
            final(self).lines <= old(self).lines + data@.len() - r,
    {
        let start: usize = if self.trim {
            let at: usize = find_newline(data);
            if at < data.len() {
                at + 1
            } else {
                at
            }
        } else {
            0
        };
        let rest = vstd::slice::slice_subrange(data, start, data.len());
        assert(rest@ == data@.skip(start as int));
        let n: u64 = count_lines(rest);
        proof {
            lemma_newlines_bound(rest@);
            lemma_first_newline_place(data@);
            assert forall|s: Seq<u8>, trim: bool| #[trigger] old(self).counts(s, trim) implies kept(
                s + data@,
                trim,
            ) == kept(s, trim) + data@.skip(start as int) && (trim && first_newline(s + data@)
                is None) == (old(self).trim && first_newline(data@) is None) by {
                if trim {
                    lemma_first_newline_place(s);
                    let all = s + data@;
                    match first_newline(s) {
                        Some(i) => {
                            assert forall|j: int| 0 <= j < i implies all[j] != 10 by {
                                assert(s[j] != 10);
                            }
                            lemma_first_newline(all, i as int);
                            assert(all.skip(i as int + 1) == s.skip(i as int + 1) + data@);
                            assert(data@.skip(0) == data@);
                        },
                        None => {
                            let at = match first_newline(data@) {
                                Some(i) => i as int,
                                None => data@.len() as int,
                            };
                            assert forall|j: int| 0 <= j < s.len() + at implies all[j] != 10 by {
                                if j < s.len() {
                                    assert(s[j] != 10);
                                } else {
                                    assert(data@[j - s.len()] != 10);
                                }
                            }
                            lemma_first_newline(all, s.len() + at);
                            if at < data@.len() {
                                assert(all.skip(s.len() + at + 1) == data@.skip(at + 1));
                                assert(Seq::<u8>::empty() + data@.skip(at + 1) == data@.skip(at + 1));
                            } else {
                                assert(Seq::<u8>::empty() + data@.skip(at) == Seq::<u8>::empty());
                            }
                        },
                    }
                } else {
                    assert(data@.skip(0) == data@);
                }
                lemma_newlines_concat(kept(s, trim), rest@);
            }
            assert forall|s: Seq<u8>, trim: bool| #[trigger] old(self).counts(s, trim) implies newlines(
                kept(s + data@, trim),
            ) == newlines(kept(s, trim)) + newlines(rest@) by {
                lemma_newlines_concat(kept(s, trim), rest@);
            }
        }
        if self.trim && start > 0 && data[start - 1] == 10 {
            self.trim = false;
        }
        self.bytes = self.bytes + (data.len() - start) as u64;
        self.lines = self.lines + n;
        start
    }
}

/// The part of the head in which the cut looks for a line end: its position
/// and its length. It is a window and not the head, so the memory that the cut
/// uses does not grow with the limit.
pub fn head_window(head: u64) -> (r: (u64, u64))
    ensures
        r.1 == window_len(head as nat),
        r.0 + r.1 == head,
{
    let quarter: u64 = head / 4;
    let wide: u64 = if quarter < 1 {
        1
    } else if quarter > CHUNK {
        CHUNK
    } else {
        quarter
    };
    let len: u64 = if wide < head {
        wide
    } else {
        head
    };
    (head - len, len)
}

/// The length of the window before the cut of a head.
pub open spec fn window_len(head: nat) -> nat {
    let quarter = head / 4;
    let wide = if quarter < 1 {
        1
    } else if quarter > CHUNK {
        CHUNK as nat
    } else {
        quarter
    };
    if wide < head {
        wide
    } else {
        head
    }
}

/// The position after the last line end in some bytes.
pub open spec fn after_last_newline(data: Seq<u8>) -> Option<nat>
    decreases data.len(),
{
    if data.len() == 0 {
        None
    } else if data.last() == 10 {
        Some(data.len())
    } else {
        after_last_newline(data.drop_last())
    }
}

/// The place that makes the head of the file end at a line end: after the last
/// line end of the window before the cut. There is none when the window holds
/// no line end.
pub open spec fn head_cut_of(file: Seq<u8>, head: nat) -> Option<nat> {
    let start = head - window_len(head);
    match after_last_newline(file.subrange(start, head as int)) {
        Some(i) => Some((start + i) as nat),
        None => None,
    }
}

/// Gives the position that makes the head end at a line end, from the bytes of
/// the window that begins at `start`.
///
/// The result is `None` when there is no line end near the cut. The caller then
/// keeps the fragment and writes a note, because a cut back would otherwise
/// remove the whole head of a stream with no line end.
pub fn head_cut(start: u64, window: &[u8]) -> (r: Option<u64>)
    requires
        start + window@.len() <= u64::MAX,
    ensures
        match after_last_newline(window@) {
            Some(i) => r == Some((start + i) as u64) && i <= window@.len(),
            None => r is None,
        },
{
    let mut i: usize = window.len();
    assert(window@.take(i as int) == window@);
    while i > 0
        invariant
            i <= window@.len(),
            start + window@.len() <= u64::MAX,
            after_last_newline(window@) == after_last_newline(window@.take(i as int)),
        decreases i,
    {
        assert(window@.take(i as int).drop_last() == window@.take(i - 1));
        if window[i - 1] == 10 {
            return Some(start + i as u64);
        }
        i -= 1;
    }
    None
}

proof fn lemma_after_last_newline(data: Seq<u8>)
    ensures
        after_last_newline(data) matches Some(i) ==> 0 < i <= data.len(),
    decreases data.len(),
{
    if data.len() > 0 {
        lemma_after_last_newline(data.drop_last());
    }
}

/// How one part of the output is shared out.
#[derive(Debug, Clone, Copy, PartialEq, Eq, Structural)]
pub struct Share {
    /// The number of first bytes that go into the log file itself.
    pub head: usize,
    /// True when the rest is the first output above the limit.
    pub start: bool,
}

/// What happens to the head when the output passes the limit.
#[derive(Debug, Clone, Copy, PartialEq, Eq, Structural)]
pub struct Cut {
    /// The bytes that stay.
    pub keep: u64,
    /// The bytes that go.
    pub extra: u64,
    /// True when the head ends in the middle of a line.
    pub fragment: bool,
}

/// The account of one stream of one job, with a limit on the bytes that reach
/// the disk.
#[derive(Debug)]
pub struct CapWriter {
    /// `None` means that no limit operates.
    pub parts: Option<Parts>,
    /// The bytes in the file that a reader opens.
    pub head_len: u64,
    /// The bytes that went to the circular file.
    pub overflow_bytes: u64,
    /// The lines that went to the circular file.
    pub overflow_lines: u64,
    pub dropped: Dropped,
    pub tail: Option<Ring>,
    /// True after the output passed the limit one time.
    ///
    /// This flag is not the same test as `tail.is_some()`. A machine that
    /// refuses the circular file leaves no ring, and a test of the ring would
    /// start the same operation again for each part of the output.
    pub overflowing: bool,
    /// The first fault of the machine.
    ///
    /// A job must never fail because of this module. A disk that refuses a
    /// write is a fault of the machine, and the job continues.
    pub fault: Option<String>,
}

/// The text that says how much went.
pub open spec fn loss_text(d: Dropped) -> Seq<char> {
    MARK@ + " ---- "@ + units::size_text(d.bytes as nat) + " and "@ + text::digits(d.lines as nat)
        + " line(s) of the output are not in this file ----\n"@
}

/// The note that goes into the file when the output passes the limit.
pub open spec fn start_text(max: nat, fragment: bool) -> Seq<char> {
    let first = if fragment {
        "\n"@ + MARK@
            + " The line above is not complete. qex removed the output after it.\n"@
    } else {
        ""@
    };
    first + MARK@ + " The output of this job reached the limit `[logs] max_bytes` = "@
        + units::size_text(max)
        + ". qex keeps the last part of the output beside this file. It writes that part here when the job stops.\n"@
}

/// The note of a stream that has no last part, because the machine refused the
/// file for it.
pub open spec fn lost_text(d: Dropped, max: nat) -> Seq<char> {
    loss_text(d) + MARK@
        + " qex could not make the file for the last part of the output, so the last part is not here. The limit is `[logs] max_bytes` = "@
        + units::size_text(max)
        + ". Read `supervisor.log` in this directory for the fault of the machine.\n"@
}

/// The note before the last part of the output.
pub open spec fn end_text(d: Dropped, p: Parts, kept_bytes: nat, cut_line: bool) -> Seq<char> {
    let note = loss_text(d) + MARK@ + " The limit is `[logs] max_bytes` = "@ + units::size_text(
        p.max as nat,
    ) + ". qex kept the first "@ + units::size_text(p.head as nat) + " and the last "@
        + units::size_text(kept_bytes)
        + ". To keep more, make max_bytes larger in the configuration file.\n"@;
    if cut_line {
        note + MARK@ + " The text that follows starts in the middle of a line.\n"@
    } else {
        note
    }
}

fn loss_note(d: Dropped) -> (r: String)
    ensures
        r@ == loss_text(d),
{
    let mut out = text::owned(MARK);
    out.append(" ---- ");
    out.append(units::format_size(d.bytes).as_str());
    out.append(" and ");
    out.append(text::decimal(d.lines).as_str());
    out.append(" line(s) of the output are not in this file ----\n");
    out
}

impl CapWriter {
    /// How many of the next `len` bytes go into the file itself.
    pub open spec fn head_share(self, len: nat) -> nat {
        match self.parts {
            None => len,
            Some(p) => if !self.overflowing && self.head_len < p.fill {
                if p.fill - self.head_len < len {
                    (p.fill - self.head_len) as nat
                } else {
                    len
                }
            } else {
                0
            },
        }
    }

    /// The bytes that stay and go when the output passes the limit, where
    /// `cut` is the place of a line end near the end of the head.
    pub open spec fn cut_at(self, p: Parts, cut: Option<nat>) -> Cut {
        let keep = match cut {
            Some(k) => k,
            None => p.head as nat,
        };
        Cut { keep: keep as u64, extra: (self.head_len - keep) as u64, fragment: cut is None }
    }

    /// Makes the account of one open log file.
    ///
    /// `existing` is the size of that file now. A second attempt of a job adds
    /// to the file, and those bytes belong to the same limit.
    pub fn new(existing: u64, max_bytes: Option<u64>) -> (r: Self)
        ensures
            match max_bytes {
                Some(max) => r.parts matches Some(p) && divided(p, max as nat),
                None => r.parts is None,
            },
            r.head_len == existing,
            r.overflow_bytes == 0,
            r.overflow_lines == 0,
            r.dropped == (Dropped { bytes: 0, lines: 0 }),
            r.tail is None,
            !r.overflowing,
            r.fault is None,
    {
        CapWriter {
            parts: match max_bytes {
                Some(max) => Some(parts(max)),
                None => None,
            },
            head_len: existing,
            overflow_bytes: 0,
            overflow_lines: 0,
            dropped: Dropped { bytes: 0, lines: 0 },
            tail: None,
            overflowing: false,
            fault: None,
        }
    }

    /// Shares out one part of the output of `len` bytes.
    ///
    /// The bytes go into the file itself until the output passes the limit.
    /// Nothing is removed before that moment, so output that fits in the limit
    /// stays complete and in one piece. After that moment the head is closed
    /// for ever.
    pub fn write(&self, len: usize) -> (r: Share)
        ensures
            r.head == self.head_share(len as nat),
            r.head <= len,
            r.start == (r.head < len && !self.overflowing),
    {
        let head: usize = match self.parts {
            None => len,
            Some(p) => {
                if !self.overflowing && self.head_len < p.fill {
                    let room: u64 = p.fill - self.head_len;
                    if room < len as u64 {
                        room as usize
                    } else {
                        len
                    }
                } else {
                    0
                }
            },
        };
        Share { head, start: head < len && !self.overflowing }
    }

    /// Counts bytes that reached the file itself.
    pub fn wrote_head(&mut self, n: usize)
        requires
            old(self).head_len + n <= u64::MAX,
        ensures
            *final(self) == (CapWriter {
                head_len: (old(self).head_len + n) as u64,
                ..*old(self)
            }),
    {
        self.head_len = self.head_len + n as u64;
    }

    /// Counts the bytes above the limit, and gives the writes that put them in
    /// the circular file. There are none where that file does not exist.
    pub fn push_overflow(&mut self, data: &[u8]) -> (r: Vec<Put>)
        requires
            old(self).overflow_bytes + data@.len() <= u64::MAX,
            old(self).overflow_lines + data@.len() <= u64::MAX,
            old(self).tail matches Some(ring) ==> ring.wf(),
        ensures
            *final(self) == (CapWriter {
                overflow_bytes: (old(self).overflow_bytes + data@.len()) as u64,
                overflow_lines: (old(self).overflow_lines + newlines(data@)) as u64,
                tail: match old(self).tail {
                    Some(ring) => Some(
                        Ring { wrapped: ring.wrapped || data@.len() > ring.size, ..ring },
                    ),
                    None => None,
                },
                ..*old(self)
            }),
            match final(self).tail {
                Some(ring) => r@ == ring.puts(ring.skip(data@.len()), data@.len()),
                None => r@.len() == 0,
            },
    {
        let lines: u64 = count_lines(data);
        proof {
            lemma_newlines_bound(data@);
        }
        self.overflow_bytes = self.overflow_bytes + data.len() as u64;
        self.overflow_lines = self.overflow_lines + lines;
        match self.tail {
            Some(ring) => {
                let mut next = ring;
                let puts = next.write(data.len());
                self.tail = Some(next);
                puts
            },
            None => Vec::new(),
        }
    }

    /// Takes note of one write that reached the circular file.
    pub fn wrote_tail(&mut self, put: &Put)
        requires
            old(self).tail matches Some(ring) && ring.wf() && put.at == ring.pos && put.from
                < put.to && put.to - put.from <= ring.size - ring.pos,
        ensures
            *final(self) == (CapWriter {
                tail: Some(old(self).tail->0.after((put.to - put.from) as nat)),
                ..*old(self)
            }),
            final(self).tail matches Some(ring) && ring.wf(),
    {
        match self.tail {
            Some(ring) => {
                let mut next = ring;
                next.wrote(put);
                self.tail = Some(next);
            },
            None => {},
        }
    }

    /// Begins the part of the stream that is above the limit. This happens one
    /// time for each stream. The result is the window of the head in which the
    /// cut looks for a line end, where the file holds more than the head.
    pub fn start_overflow(&mut self) -> (r: Option<(u64, u64)>)
        ensures
            match old(self).parts {
                None => *final(self) == *old(self) && r is None,
                Some(p) => {
                    &&& *final(self) == (CapWriter { overflowing: true, ..*old(self) })
                    &&& match r {
                        Some((start, len)) => {
                            &&& old(self).head_len > p.head
                            &&& len == window_len(p.head as nat)
                            &&& start + len == p.head
                        },
                        None => old(self).head_len <= p.head,
                    }
                },
            },
    {
        match self.parts {
            None => None,
            Some(p) => {
                self.overflowing = true;
                if self.head_len > p.head {
                    Some(head_window(p.head))
                } else {
                    None
                }
            },
        }
    }

    /// Decides what stays of the head, where `cut` is the place of a line end
    /// near its end, or `None` where there is none or where the file could not
    /// be read. The head then keeps the fragment, and the note says that it is
    /// not a whole line.
    pub fn cut_head(&self, p: Parts, cut: Option<u64>) -> (r: Cut)
        requires
            self.parts == Some(p),
            self.head_len > p.head,
            cut matches Some(k) ==> k <= p.head,
        ensures
            r == self.cut_at(
                p,
                match cut {
                    Some(k) => Some(k as nat),
                    None => None,
                },
            ),
    {
        let keep: u64 = match cut {
            Some(k) => k,
            None => p.head,
        };
        Cut { keep, extra: self.head_len - keep, fragment: cut.is_none() }
    }

    /// Takes note of a cut that reached the file, with the lines that went.
    pub fn wrote_cut(&mut self, cut: Cut, lines: u64)
        requires
            old(self).dropped.bytes + cut.extra <= u64::MAX,
            old(self).dropped.lines + lines <= u64::MAX,
        ensures
            *final(self) == (CapWriter {
                dropped: Dropped {
                    bytes: (old(self).dropped.bytes + cut.extra) as u64,
                    lines: (old(self).dropped.lines + lines) as u64,
                },
                head_len: cut.keep,
                ..*old(self)
            }),
    {
        self.dropped = Dropped {
            bytes: self.dropped.bytes + cut.extra,
            lines: self.dropped.lines + lines,
        };
        self.head_len = cut.keep;
    }

    /// Writes the note for the moment when the output passes the limit. A
    /// reader who opens the file while the job operates must not believe that
    /// the job wrote no more.
    pub fn start_note(p: Parts, fragment: bool) -> (r: String)
        ensures
            r@ == start_text(p.max as nat, fragment),
    {
        let mut out = text::owned("");
        if fragment {
            out = text::owned("\n");
            out.append(MARK);
            out.append(" The line above is not complete. qex removed the output after it.\n");
        }
        out.append(MARK);
        out.append(" The output of this job reached the limit `[logs] max_bytes` = ");
        out.append(units::format_size(p.max).as_str());
        out.append(
            ". qex keeps the last part of the output beside this file. It writes that part here when the job stops.\n",
        );
        out
    }

    /// Takes note of a circular file that now exists.
    pub fn made_tail(&mut self)
        requires
            old(self).parts matches Some(p) && p.tail > 0,
        ensures
            *final(self) == (CapWriter {
                tail: Some(Ring { size: old(self).parts->0.tail, pos: 0, wrapped: false }),
                ..*old(self)
            }),
    {
        if let Some(p) = self.parts {
            self.tail = Some(Ring::new(p.tail));
        }
    }

    /// Completes the account of a stream with no circular file, and gives the
    /// note for the file where the output passed the limit.
    ///
    /// The machine refused that file, so those bytes reached no disk at all,
    /// and the count must say so. The note that went into the file earlier
    /// promises a last part, so the file must say that there is none.
    pub fn finish_without_tail(&mut self) -> (r: Option<String>)
        requires
            old(self).dropped.bytes + old(self).overflow_bytes <= u64::MAX,
            old(self).dropped.lines + old(self).overflow_lines <= u64::MAX,
        ensures
            *final(self) == (CapWriter {
                dropped: Dropped {
                    bytes: (old(self).dropped.bytes + old(self).overflow_bytes) as u64,
                    lines: (old(self).dropped.lines + old(self).overflow_lines) as u64,
                },
                ..*old(self)
            }),
            text::opt_view(r) == (match old(self).parts {
                Some(p) => if old(self).overflowing {
                    Some(lost_text(final(self).dropped, p.max as nat))
                } else {
                    None
                },
                None => None,
            }),
    {
        self.dropped = Dropped {
            bytes: self.dropped.bytes + self.overflow_bytes,
            lines: self.dropped.lines + self.overflow_lines,
        };
        match self.parts {
            Some(p) => {
                if self.overflowing {
                    let mut out = loss_note(self.dropped);
                    out.append(MARK);
                    out.append(
                        " qex could not make the file for the last part of the output, so the last part is not here. The limit is `[logs] max_bytes` = ",
                    );
                    out.append(units::format_size(p.max).as_str());
                    out.append(
                        ". Read `supervisor.log` in this directory for the fault of the machine.\n",
                    );
                    Some(out)
                } else {
                    None
                }
            },
            None => None,
        }
    }

    /// True when bytes are missing between the head and the tail.
    pub open spec fn gap(self, ring: Ring) -> bool {
        ring.wrapped || self.dropped.bytes > 0
    }

    /// Decides if the incomplete first line of the tail goes, where `first_end`
    /// is the place of the first line end in the tail.
    ///
    /// The tail starts in the middle of a line when bytes are missing before
    /// it. That fragment goes only when it is a small part of the tail: to
    /// remove it in each case would remove almost all of a stream that has no
    /// line ends.
    pub fn trims(&self, ring: Ring, p: Parts, first_end: Option<u64>) -> (r: bool)
        ensures
            r == (self.gap(ring) && (first_end matches Some(n) && n <= p.tail / 4)),
    {
        let gap = ring.wrapped || self.dropped.bytes > 0;
        match first_end {
            Some(n) => gap && n <= p.tail / 4,
            None => false,
        }
    }

    /// Completes the account of a stream with a circular file: counts what is
    /// missing, and gives the note that goes before the last part. `trim` is
    /// the answer of `trims`, and the counts are those of a walk with it.
    pub fn finish(
        &mut self,
        ring: Ring,
        p: Parts,
        trim: bool,
        kept_bytes: u64,
        kept_lines: u64,
    ) -> (r: String)
        requires
            old(self).dropped.bytes + old(self).overflow_bytes <= u64::MAX,
            old(self).dropped.lines + old(self).overflow_lines <= u64::MAX,
        ensures
            *final(self) == (CapWriter {
                dropped: Dropped {
                    bytes: (old(self).dropped.bytes + if old(self).overflow_bytes > kept_bytes {
                        old(self).overflow_bytes - kept_bytes
                    } else {
                        0
                    }) as u64,
                    lines: (old(self).dropped.lines + if old(self).overflow_lines > kept_lines {
                        old(self).overflow_lines - kept_lines
                    } else {
                        0
                    }) as u64,
                },
                ..*old(self)
            }),
            r@ == end_text(
                final(self).dropped,
                p,
                kept_bytes as nat,
                old(self).gap(ring) && !trim,
            ),
    {
        let cut_line = (ring.wrapped || self.dropped.bytes > 0) && !trim;
        let bytes: u64 = if self.overflow_bytes > kept_bytes {
            self.overflow_bytes - kept_bytes
        } else {
            0
        };
        let lines: u64 = if self.overflow_lines > kept_lines {
            self.overflow_lines - kept_lines
        } else {
            0
        };
        self.dropped = Dropped {
            bytes: self.dropped.bytes + bytes,
            lines: self.dropped.lines + lines,
        };
        let mut out = loss_note(self.dropped);
        out.append(MARK);
        out.append(" The limit is `[logs] max_bytes` = ");
        out.append(units::format_size(p.max).as_str());
        out.append(". qex kept the first ");
        out.append(units::format_size(p.head).as_str());
        out.append(" and the last ");
        out.append(units::format_size(kept_bytes).as_str());
        out.append(". To keep more, make max_bytes larger in the configuration file.\n");
        if cut_line {
            out.append(MARK);
            out.append(" The text that follows starts in the middle of a line.\n");
        }
        out
    }

    /// Keeps the first fault of the machine. The result is true when this was
    /// the first one.
    pub fn record_fault(&mut self, message: &str) -> (r: bool)
        ensures
            r == (old(self).fault is None),
            match old(self).fault {
                Some(_) => *final(self) == *old(self),
                None => {
                    &&& final(self).fault matches Some(m) && m@ == message@
                    &&& *final(self) == (CapWriter { fault: final(self).fault, ..*old(self) })
                },
            },
    {
        if self.fault.is_some() {
            return false;
        }
        self.fault = Some(text::owned(message));
        true
    }
}

/// The two files of one stream: the log file, and the circular file.
pub struct Disk {
    pub file: Seq<u8>,
    pub ring: Seq<u8>,
}

/// A stream on a machine that does what it is asked.
pub struct Stream {
    pub writer: CapWriter,
    pub disk: Disk,
}

/// The stream after the operations of `start_overflow`.
pub open spec fn started(x: Stream, p: Parts) -> Stream {
    let w = x.writer;
    let cut = w.cut_at(p, head_cut_of(x.disk.file, p.head as nat));
    let gone = x.disk.file.skip(cut.keep as int);
    Stream {
        writer: CapWriter {
            overflowing: true,
            dropped: Dropped {
                bytes: (w.dropped.bytes + cut.extra) as u64,
                lines: (w.dropped.lines + newlines(gone)) as u64,
            },
            head_len: cut.keep,
            tail: Some(Ring { size: p.tail, pos: 0, wrapped: false }),
            ..w
        },
        disk: Disk {
            file: x.disk.file.take(cut.keep as int) + utf8::encode_utf8(
                start_text(p.max as nat, cut.fragment),
            ),
            ring: Seq::new(p.tail as nat, |i: int| 0u8),
        },
    }
}

/// The stream after the operations of `push_overflow`.
pub open spec fn overflowed(x: Stream, data: Seq<u8>) -> Stream {
    let w = x.writer;
    let ring = w.tail->0;
    let start = Ring { wrapped: ring.wrapped || data.len() > ring.size, ..ring };
    let from = ring.skip(data.len());
    Stream {
        writer: CapWriter {
            overflow_bytes: (w.overflow_bytes + data.len()) as u64,
            overflow_lines: (w.overflow_lines + newlines(data)) as u64,
            tail: Some(start.after((data.len() - from) as nat)),
            ..w
        },
        disk: Disk { ring: put_all(x.disk.ring, start.puts(from, data.len()), data), ..x.disk },
    }
}

/// The stream after one more part of the output.
pub open spec fn written(x: Stream, buf: Seq<u8>) -> Stream {
    let w = x.writer;
    let head = w.head_share(buf.len());
    let filled = Stream {
        writer: CapWriter { head_len: (w.head_len + head) as u64, ..w },
        disk: Disk { file: x.disk.file + buf.take(head as int), ..x.disk },
    };
    if head == buf.len() {
        filled
    } else if w.overflowing {
        overflowed(filled, buf.skip(head as int))
    } else {
        overflowed(started(filled, w.parts->0), buf.skip(head as int))
    }
}

/// The bytes that stay of the start of the stream `s`.
pub open spec fn head_of(s: Seq<u8>, p: Parts) -> nat {
    match head_cut_of(s, p.head as nat) {
        Some(k) => k,
        None => p.head as nat,
    }
}

/// What is true of a stream with a limit after the job wrote the bytes `s`:
/// the file holds all of them while they fit; after that, it holds their start
/// and a note, the circular file holds their end, and the counts say what is
/// in neither the start nor the circular file.
pub open spec fn follows(x: Stream, max: nat, s: Seq<u8>) -> bool {
    let w = x.writer;
    let p = w.parts->0;
    let keep = head_of(s, p);
    &&& w.parts is Some
    &&& divided(p, max)
    &&& s.len() <= u64::MAX
    &&& !w.overflowing ==> {
        &&& s.len() <= p.fill
        &&& x.disk.file == s
        &&& w.head_len == s.len()
        &&& w.dropped == (Dropped { bytes: 0, lines: 0 })
        &&& w.overflow_bytes == 0
        &&& w.overflow_lines == 0
        &&& w.tail is None
    }
    &&& w.overflowing ==> {
        &&& s.len() > p.fill
        &&& keep <= p.head
        &&& x.disk.file == s.take(keep as int) + utf8::encode_utf8(
            start_text(max, head_cut_of(s, p.head as nat) is None),
        )
        &&& w.head_len == keep
        &&& w.dropped.bytes == p.fill - keep
        &&& w.dropped.lines == newlines(s.subrange(keep as int, p.fill as int))
        &&& w.overflow_bytes == s.len() - p.fill
        &&& w.overflow_lines == newlines(s.skip(p.fill as int))
        &&& w.tail matches Some(ring) && ring.size == p.tail && holds_end(
            ring,
            x.disk.ring,
            s.skip(p.fill as int),
        )
    }
}

proof fn lemma_head_cut(s: Seq<u8>, head: nat)
    requires
        head <= s.len(),
    ensures
        head_cut_of(s, head) matches Some(k) ==> 0 < k <= head,
{
    lemma_after_last_newline(s.subrange(head - window_len(head), head as int));
}

proof fn lemma_same_head(s: Seq<u8>, t: Seq<u8>, p: Parts)
    requires
        p.head <= s.len(),
    ensures
        head_cut_of(s + t, p.head as nat) == head_cut_of(s, p.head as nat),
        head_of(s + t, p) == head_of(s, p),
{
    let start = p.head - window_len(p.head as nat);
    assert((s + t).subrange(start, p.head as int) == s.subrange(start, p.head as int));
}

proof fn lemma_overflow(x: Stream, max: nat, s: Seq<u8>, data: Seq<u8>)
    requires
        follows(x, max, s),
        x.writer.overflowing,
        max >= MIN_LIMIT,
        data.len() <= usize::MAX,
        s.len() + data.len() <= u64::MAX,
    ensures
        follows(overflowed(x, data), max, s + data),
{
    let p = x.writer.parts->0;
    let keep = head_of(s, p);
    law_parts_fit(p, max);
    lemma_same_head(s, data, p);
    assert((s + data).take(keep as int) == s.take(keep as int));
    assert((s + data).subrange(keep as int, p.fill as int) == s.subrange(
        keep as int,
        p.fill as int,
    ));
    assert((s + data).skip(p.fill as int) == s.skip(p.fill as int) + data);
    lemma_newlines_concat(s.skip(p.fill as int), data);
    lemma_newlines_bound(s.skip(p.fill as int) + data);
    law_ring_keeps_the_last_bytes(x.writer.tail->0, x.disk.ring, s.skip(p.fill as int), data);
}

proof fn lemma_start(x: Stream, max: nat, s: Seq<u8>, data: Seq<u8>)
    requires
        follows(x, max, s),
        !x.writer.overflowing,
        max >= MIN_LIMIT,
        s.len() == x.writer.parts->0.fill,
        0 < data.len() <= usize::MAX,
        s.len() + data.len() <= u64::MAX,
    ensures
        follows(overflowed(started(x, x.writer.parts->0), data), max, s + data),
{
    let p = x.writer.parts->0;
    law_parts_fit(p, max);
    lemma_head_cut(s, p.head as nat);
    let keep = head_of(s, p);
    let y = started(x, p);
    let ring = Ring { size: p.tail, pos: 0, wrapped: false };
    assert(s.subrange(keep as int, p.fill as int) == s.skip(keep as int));
    lemma_newlines_bound(s.skip(keep as int));
    assert(s.skip(p.fill as int) == Seq::<u8>::empty());
    assert(contents(ring, y.disk.ring) == Seq::<u8>::empty());
    assert(holds_end(ring, y.disk.ring, Seq::<u8>::empty()));
    lemma_same_head(s, data, p);
    assert((s + data).take(keep as int) == s.take(keep as int));
    assert((s + data).subrange(keep as int, p.fill as int) == s.subrange(
        keep as int,
        p.fill as int,
    ));
    assert((s + data).skip(p.fill as int) == data);
    assert(Seq::<u8>::empty() + data == data);
    lemma_newlines_bound(data);
    law_ring_keeps_the_last_bytes(ring, y.disk.ring, Seq::<u8>::empty(), data);
}

/// Each part of the output keeps the account true, whatever its size is:
/// output that fits in the limit stays complete and in one piece, and of other
/// output the start and the end stay.
pub proof fn law_each_part_keeps_the_account(x: Stream, max: nat, s: Seq<u8>, buf: Seq<u8>)
    requires
        follows(x, max, s),
        max >= MIN_LIMIT,
        buf.len() <= usize::MAX,
        s.len() + buf.len() <= u64::MAX,
    ensures
        follows(written(x, buf), max, s + buf),
{
    let w = x.writer;
    let p = w.parts->0;
    law_parts_fit(p, max);
    let head = w.head_share(buf.len());
    let filled = Stream {
        writer: CapWriter { head_len: (w.head_len + head) as u64, ..w },
        disk: Disk { file: x.disk.file + buf.take(head as int), ..x.disk },
    };
    if w.overflowing {
        assert(head == 0);
        assert(buf.take(0) == Seq::<u8>::empty());
        assert(filled.disk.file == x.disk.file);
        assert(buf.skip(0) == buf);
        if buf.len() == 0 {
            assert(s + buf == s);
        } else {
            lemma_overflow(filled, max, s, buf);
        }
    } else {
        assert(follows(filled, max, s + buf.take(head as int)));
        if head == buf.len() {
            assert(buf.take(head as int) == buf);
        } else {
            assert(s + buf.take(head as int) + buf.skip(head as int) == s + buf);
            lemma_start(filled, max, s + buf.take(head as int), buf.skip(head as int));
        }
    }
}

/// The text is plain and has `n` characters at most.
spec fn short(t: Seq<char>, n: nat) -> bool {
    utf8::is_ascii_chars(t) && t.len() <= n
}

proof fn lemma_short_digits(n: nat)
    requires
        n <= u64::MAX,
    ensures
        short(text::digits(n), 20),
{
    units::lemma_u64_digits(n);
    assert forall|i: int| 0 <= i < text::digits(n).len() implies '\0' <= #[trigger] text::digits(n)[i]
        <= '\u{7f}' by {
        assert(text::is_digit(text::digits(n)[i]));
    }
}

proof fn lemma_short_size(n: nat)
    requires
        n <= u64::MAX,
    ensures
        short(units::size_text(n), 22),
{
    reveal_strlit("B");
    reveal_strlit("KB");
    reveal_strlit("MB");
    reveal_strlit("GB");
    reveal_strlit("TB");
    lemma_short_digits(n);
    lemma_short_digits(n / 1024);
    lemma_short_digits(n / (1024 * 1024));
    lemma_short_digits(n / (1024 * 1024 * 1024));
    lemma_short_digits(n / (1024 * 1024 * 1024 * 1024));
}

proof fn lemma_short_loss(d: Dropped)
    ensures
        short(loss_text(d), 120),
{
    reveal_strlit("[qex]");
    reveal_strlit(" ---- ");
    reveal_strlit(" and ");
    reveal_strlit(" line(s) of the output are not in this file ----\n");
    lemma_short_size(d.bytes as nat);
    lemma_short_digits(d.lines as nat);
}

proof fn lemma_short_start(max: nat, fragment: bool)
    requires
        max <= u64::MAX,
    ensures
        short(start_text(max, fragment), 400),
{
    reveal_strlit("[qex]");
    reveal_strlit("\n");
    reveal_strlit("");
    lemma_short_size(max);
    assert(short(" The line above is not complete. qex removed the output after it.\n"@, 100)) by {
        reveal_strlit(" The line above is not complete. qex removed the output after it.\n");
    }
    assert(short(" The output of this job reached the limit `[logs] max_bytes` = "@, 100)) by {
        reveal_strlit(" The output of this job reached the limit `[logs] max_bytes` = ");
    }
    assert(short(
        ". qex keeps the last part of the output beside this file. It writes that part here when the job stops.\n"@,
        120,
    )) by {
        reveal_strlit(
            ". qex keeps the last part of the output beside this file. It writes that part here when the job stops.\n",
        );
    }
}

proof fn lemma_short_end(d: Dropped, p: Parts, kept_bytes: nat, cut_line: bool)
    requires
        kept_bytes <= u64::MAX,
    ensures
        short(end_text(d, p, kept_bytes, cut_line), 600),
{
    reveal_strlit("[qex]");
    lemma_short_loss(d);
    lemma_short_size(p.max as nat);
    lemma_short_size(p.head as nat);
    lemma_short_size(kept_bytes);
    assert(short(" The limit is `[logs] max_bytes` = "@, 60)) by {
        reveal_strlit(" The limit is `[logs] max_bytes` = ");
    }
    assert(short(". qex kept the first "@, 30)) by {
        reveal_strlit(". qex kept the first ");
    }
    assert(short(" and the last "@, 30)) by {
        reveal_strlit(" and the last ");
    }
    assert(short(". To keep more, make max_bytes larger in the configuration file.\n"@, 80)) by {
        reveal_strlit(". To keep more, make max_bytes larger in the configuration file.\n");
    }
    assert(short(" The text that follows starts in the middle of a line.\n"@, 80)) by {
        reveal_strlit(" The text that follows starts in the middle of a line.\n");
    }
}

/// The disk that one stream uses stays below the limit at each moment while
/// the job writes: the log file and the circular file together.
pub proof fn law_the_disk_stays_below_the_limit(x: Stream, max: nat, s: Seq<u8>)
    requires
        follows(x, max, s),
        max >= MIN_LIMIT,
    ensures
        !x.writer.overflowing ==> x.disk.file.len() <= max,
        x.writer.overflowing ==> x.disk.file.len() + x.disk.ring.len() <= max,
{
    let p = x.writer.parts->0;
    law_parts_fit(p, max);
    if x.writer.overflowing {
        let fragment = head_cut_of(s, p.head as nat) is None;
        lemma_short_start(max, fragment);
        utf8::is_ascii_chars_encode_utf8(start_text(max, fragment));
    }
}

/// What stays of the end of the output, from the contents of the circular
/// file.
pub open spec fn end_of(w: CapWriter, ring: Ring, p: Parts, c: Seq<u8>) -> Seq<u8> {
    kept(c, w.gap(ring) && (first_newline(c) matches Some(n) && n <= p.tail / 4))
}

/// The log file after `finish`.
pub open spec fn finished_file(x: Stream, d: Dropped) -> Seq<u8> {
    let w = x.writer;
    match w.tail {
        None => x.disk.file,
        Some(ring) => {
            let p = w.parts->0;
            let c = contents(ring, x.disk.ring);
            let end = end_of(w, ring, p, c);
            let trim = w.gap(ring) && (first_newline(c) matches Some(n) && n <= p.tail / 4);
            x.disk.file + utf8::encode_utf8(end_text(d, p, end.len(), w.gap(ring) && !trim)) + end
        },
    }
}

/// What `finish` counts as removed.
pub open spec fn finished_count(x: Stream) -> Dropped {
    let w = x.writer;
    match w.tail {
        None => w.dropped,
        Some(ring) => {
            let end = end_of(w, ring, w.parts->0, contents(ring, x.disk.ring));
            Dropped {
                bytes: (w.dropped.bytes + w.overflow_bytes - end.len()) as u64,
                lines: (w.dropped.lines + w.overflow_lines - newlines(end)) as u64,
            }
        },
    }
}

proof fn lemma_end_is_a_suffix(s: Seq<u8>, ring: Ring, p: Parts, w: CapWriter)
    requires
        s.len() > p.fill,
    ensures
        ({
            let c = last_bytes(s.skip(p.fill as int), ring.size as nat);
            let end = end_of(w, ring, p, c);
            &&& end.len() <= c.len()
            &&& end.len() <= s.len() - p.fill
            &&& end == s.skip(s.len() - end.len())
        }),
{
    let rest = s.skip(p.fill as int);
    let c = last_bytes(rest, ring.size as nat);
    let end = end_of(w, ring, p, c);
    lemma_first_newline_place(c);
    assert(c == s.skip(s.len() - c.len()));
    if let Some(i) = first_newline(c) {
        assert(c.skip(i as int + 1) == s.skip(s.len() - (c.len() - i - 1)));
    }
    assert(s.skip(s.len() as int) == Seq::<u8>::empty());
}

/// The lines of the start, of the middle and of the end are all the lines.
proof fn lemma_lines_balance(s: Seq<u8>, keep: nat, fill: nat, end: Seq<u8>)
    requires
        keep <= fill <= s.len(),
        end.len() <= s.len() - fill,
        end == s.skip(s.len() - end.len()),
    ensures
        newlines(s) == newlines(s.take(keep as int)) + newlines(
            s.subrange(keep as int, fill as int),
        ) + newlines(s.skip(fill as int)),
        newlines(end) <= newlines(s.skip(fill as int)),
        newlines(s) <= s.len(),
{
    let middle = s.subrange(keep as int, fill as int);
    let rest = s.skip(fill as int);
    let lost = rest.take(rest.len() - end.len());
    assert(s == s.take(keep as int) + middle + rest);
    assert(rest == lost + end);
    lemma_newlines_concat(lost, end);
    lemma_newlines_concat(s.take(keep as int) + middle, rest);
    lemma_newlines_concat(s.take(keep as int), middle);
    lemma_newlines_bound(s);
}

/// The sizes of the notes and of the two ends of the output fit together.
proof fn lemma_finish_size(x: Stream, max: nat, s: Seq<u8>)
    requires
        follows(x, max, s),
        max >= MIN_LIMIT,
        x.writer.overflowing,
    ensures
        finished_file(x, finished_count(x)).len() <= max,
{
    let w = x.writer;
    let p = w.parts->0;
    law_parts_fit(p, max);
    let ring = w.tail->0;
    let c = contents(ring, x.disk.ring);
    let end = end_of(w, ring, p, c);
    let d = finished_count(x);
    lemma_end_is_a_suffix(s, ring, p, w);
    let fragment = head_cut_of(s, p.head as nat) is None;
    lemma_short_start(max, fragment);
    utf8::is_ascii_chars_encode_utf8(start_text(max, fragment));
    let trim = w.gap(ring) && (first_newline(c) matches Some(n) && n <= p.tail / 4);
    let cut_line = w.gap(ring) && !trim;
    lemma_short_end(d, p, end.len(), cut_line);
    utf8::is_ascii_chars_encode_utf8(end_text(d, p, end.len(), cut_line));
}

/// The file of a stream is never larger than the limit. Output that fits stays
/// complete, and nothing is counted as removed. Of other output, the file
/// holds its start and its end, and the counts balance to the byte and to the
/// line: what the job wrote is what stays and what is counted as removed.
pub proof fn law_finish(x: Stream, max: nat, s: Seq<u8>)
    requires
        follows(x, max, s),
        max >= MIN_LIMIT,
    ensures
        ({
            let w = x.writer;
            let p = w.parts->0;
            let d = finished_count(x);
            let file = finished_file(x, d);
            &&& file.len() <= max
            &&& s.len() <= p.fill ==> file == s && d == (Dropped { bytes: 0, lines: 0 })
            &&& s.len() > p.fill ==> {
                let keep = head_of(s, p);
                let end = end_of(w, w.tail->0, p, contents(w.tail->0, x.disk.ring));
                &&& keep <= p.head
                &&& file.take(keep as int) == s.take(keep as int)
                &&& file.skip(file.len() - end.len()) == end
                &&& end == s.skip(s.len() - end.len())
                &&& d.bytes + keep + end.len() == s.len()
                &&& d.lines + newlines(s.take(keep as int)) + newlines(end) == newlines(s)
            }
        }),
{
    let w = x.writer;
    let p = w.parts->0;
    law_parts_fit(p, max);
    if w.overflowing {
        let ring = w.tail->0;
        let keep = head_of(s, p);
        let c = contents(ring, x.disk.ring);
        let end = end_of(w, ring, p, c);
        let d = finished_count(x);
        let file = finished_file(x, d);
        lemma_end_is_a_suffix(s, ring, p, w);
        lemma_finish_size(x, max, s);
        assert(file.skip(file.len() - end.len()) == end);
        assert(file.take(keep as int) == s.take(keep as int));
        lemma_lines_balance(s, keep, p.fill as nat, end);
    }
}

/// The ring after the writes of a list reached the circular file.
pub open spec fn noted(r: Ring, puts: Seq<Put>) -> Ring
    decreases puts.len(),
{
    if puts.len() == 0 {
        r
    } else {
        noted(r.after((puts[0].to - puts[0].from) as nat), puts.skip(1))
    }
}

proof fn lemma_noted(r: Ring, from: nat, len: nat)
    requires
        r.wf(),
        from <= len <= usize::MAX,
        len - from <= r.size,
    ensures
        noted(r, r.puts(from, len)) == r.after((len - from) as nat),
    decreases len - from,
{
    if from < len {
        let room = (r.size - r.pos) as nat;
        let take = if room < len - from {
            room
        } else {
            (len - from) as nat
        };
        let all = r.puts(from, len);
        assert(all.skip(1) == r.after(take).puts(from + take, len));
        lemma_noted(r.after(take), from + take, len);
    }
}

/// What an account and a stream have in common: the steps that the account asks
/// for, where the machine does each of them, make the stream of the model. At
/// the limit these are `start_overflow`, `cut_head`, `wrote_cut` with the lines
/// that went, the note and `made_tail`; for a part above the limit they are
/// `push_overflow` and one `wrote_tail` for each write.
pub proof fn law_the_steps_make_the_stream(x: Stream, p: Parts, data: Seq<u8>)
    requires
        x.writer.parts == Some(p),
        data.len() <= usize::MAX,
    ensures
        ({
            let w = CapWriter { overflowing: true, ..x.writer };
            let cut = w.cut_at(p, head_cut_of(x.disk.file, p.head as nat));
            let lines = newlines(x.disk.file.skip(cut.keep as int));
            let w = CapWriter {
                dropped: Dropped {
                    bytes: (w.dropped.bytes + cut.extra) as u64,
                    lines: (w.dropped.lines + lines) as u64,
                },
                head_len: cut.keep,
                ..w
            };
            started(x, p).writer == CapWriter {
                tail: Some(Ring { size: p.tail, pos: 0, wrapped: false }),
                ..w
            }
        }),
        x.writer.tail matches Some(ring) ==> ring.wf() ==> {
            let start = Ring { wrapped: ring.wrapped || data.len() > ring.size, ..ring };
            let puts = start.puts(start.skip(data.len()), data.len());
            &&& overflowed(x, data).writer == (CapWriter {
                overflow_bytes: (x.writer.overflow_bytes + data.len()) as u64,
                overflow_lines: (x.writer.overflow_lines + newlines(data)) as u64,
                tail: Some(noted(start, puts)),
                ..x.writer
            })
            &&& overflowed(x, data).disk.ring == put_all(x.disk.ring, puts, data)
        },
{
    if let Some(ring) = x.writer.tail {
        if ring.wf() {
            let start = Ring { wrapped: ring.wrapped || data.len() > ring.size, ..ring };
            lemma_noted(start, start.skip(data.len()), data.len());
        }
    }
}

/// A stream with a limit before the job wrote anything: what `CapWriter::new`
/// makes, beside an empty file.
pub open spec fn is_new(x: Stream, max: nat) -> bool {
    let w = x.writer;
    &&& w.parts matches Some(p) && divided(p, max)
    &&& w.head_len == 0
    &&& w.overflow_bytes == 0
    &&& w.overflow_lines == 0
    &&& w.dropped == (Dropped { bytes: 0, lines: 0 })
    &&& w.tail is None
    &&& !w.overflowing
    &&& x.disk.file.len() == 0
}

/// All the bytes of the parts of an output.
pub open spec fn joined(parts: Seq<Seq<u8>>) -> Seq<u8>
    decreases parts.len(),
{
    if parts.len() == 0 {
        Seq::empty()
    } else {
        joined(parts.drop_last()) + parts.last()
    }
}

/// The stream after all the parts of an output.
pub open spec fn written_all(x: Stream, parts: Seq<Seq<u8>>) -> Stream
    decreases parts.len(),
{
    if parts.len() == 0 {
        x
    } else {
        written(written_all(x, parts.drop_last()), parts.last())
    }
}

proof fn lemma_run(x: Stream, max: nat, parts: Seq<Seq<u8>>)
    requires
        is_new(x, max),
        max >= MIN_LIMIT,
        joined(parts).len() <= u64::MAX,
        forall|i: int| 0 <= i < parts.len() ==> (#[trigger] parts[i]).len() <= usize::MAX,
    ensures
        follows(written_all(x, parts), max, joined(parts)),
    decreases parts.len(),
{
    if parts.len() == 0 {
        assert(x.disk.file == joined(parts));
    } else {
        let less = parts.drop_last();
        assert forall|i: int| 0 <= i < less.len() implies (#[trigger] less[i]).len() <= usize::MAX by {
            assert(less[i] == parts[i]);
        }
        lemma_run(x, max, less);
        assert(parts[parts.len() - 1] == parts.last());
        law_each_part_keeps_the_account(
            written_all(x, less),
            max,
            joined(less),
            parts.last(),
        );
    }
}

/// The whole run of a stream, from an empty file to the end, in parts of any
/// size. Output that needs no more than the limit less the room for the notes is
/// the file, with no note, and nothing counts as removed. Of other output the
/// file holds a start, the notes and an end, the counts are exactly what stands
/// between that start and that end, and the file is not above the limit.
pub proof fn law_a_whole_run(x: Stream, max: nat, parts: Seq<Seq<u8>>)
    requires
        is_new(x, max),
        max >= MIN_LIMIT,
        joined(parts).len() <= u64::MAX,
        forall|i: int| 0 <= i < parts.len() ==> (#[trigger] parts[i]).len() <= usize::MAX,
    ensures
        ({
            let s = joined(parts);
            let y = written_all(x, parts);
            let d = finished_count(y);
            let file = finished_file(y, d);
            &&& file.len() <= max
            &&& s.len() <= max - note_room(max) ==> file == s && d == (Dropped {
                bytes: 0,
                lines: 0,
            })
            &&& exists|head: Seq<u8>, notes: Seq<u8>, tail: Seq<u8>|
                file == #[trigger] (head + notes + tail) && head.len() + tail.len() <= s.len()
                    && head == s.take(head.len() as int) && tail == s.skip(s.len() - tail.len())
                    && d.bytes == s.len() - head.len() - tail.len() && d.lines == newlines(s)
                    - newlines(head) - newlines(tail)
        }),
{
    let s = joined(parts);
    let y = written_all(x, parts);
    lemma_run(x, max, parts);
    law_finish(y, max, s);
    let p = y.writer.parts->0;
    let d = finished_count(y);
    let file = finished_file(y, d);
    law_parts_fit(p, max);
    if s.len() <= p.fill {
        let none = Seq::<u8>::empty();
        assert(file == s + none + none);
        assert(s.take(s.len() as int) == s);
        assert(s.skip(s.len() as int) == none);
        assert(newlines(none) == 0);
    } else {
        let ring = y.writer.tail->0;
        let keep = head_of(s, p);
        let head = s.take(keep as int);
        let tail = end_of(y.writer, ring, p, contents(ring, y.disk.ring));
        let notes = file.subrange(keep as int, file.len() - tail.len());
        assert(file.take(keep as int) == head);
        assert(file == head + notes + tail) by {
            assert(file == file.take(keep as int) + file.subrange(
                keep as int,
                file.len() - tail.len(),
            ) + file.skip(file.len() - tail.len()));
        }
        assert(s.take(head.len() as int) == head);
    }
}

/// The start of a log gets a quarter of the limit, and the note between the two
/// parts has its room. The end gets what is left.
pub proof fn law_how_a_limit_is_divided(max: u64, p: Parts)
    requires
        call_ensures(parts, (max,), p),
    ensures
        p.max == max,
        4 * p.head <= max < 4 * p.head + 4,
        max >= 16384 ==> p.head + p.tail + 2048 == max && p.fill == max - 2048,
{
    if max >= 16384 {
        law_parts_fit(p, max as nat);
    }
}

/// The lines of some bytes are their line feeds.
pub proof fn law_a_line_feed_is_a_line(data: Seq<u8>, b: u8, all: &[u8], r: u64)
    requires
        call_ensures(count_lines, (all,), r),
        all@ == data.push(b),
    ensures
        r == newlines(data) + if b == 10 {
            1int
        } else {
            0int
        },
        newlines(Seq::empty()) == 0,
{
    assert(data.push(b).drop_last() == data);
}

/// Without its first line a text begins behind its first line feed, and nothing
/// of a text with no line feed is left.
pub proof fn law_what_follows_the_first_line(line: Seq<u8>, rest: Seq<u8>)
    requires
        forall|j: int| 0 <= j < line.len() ==> #[trigger] line[j] != 10,
    ensures
        kept(line.push(10u8) + rest, true) == rest,
        kept(line, true).len() == 0,
        kept(line, false) == line,
{
    let s = line.push(10u8) + rest;
    assert(s[line.len() as int] == 10);
    assert forall|j: int| 0 <= j < line.len() implies s[j] != 10 by {
        assert(s[j] == line[j]);
    }
    lemma_first_newline(s, line.len() as int);
    assert(s.skip(line.len() as int + 1) == rest);
    lemma_first_newline(line, line.len() as int);
}

/// The cut of the start stands behind the last line feed of the window, and
/// there is none where the window has no line feed.
pub proof fn law_where_the_start_is_cut(
    start: u64,
    window: &[u8],
    before: Seq<u8>,
    line: Seq<u8>,
    r: Option<u64>,
)
    requires
        start + window@.len() <= u64::MAX,
        call_ensures(head_cut, (start, window), r),
        forall|j: int| 0 <= j < line.len() ==> #[trigger] line[j] != 10,
    ensures
        window@ == before.push(10u8) + line ==> r == Some((start + before.len() + 1) as u64),
        window@ == line ==> r is None,
{
    lemma_no_newline(line);
    if window@ == before.push(10u8) + line {
        lemma_newline_behind(before.push(10u8), line);
    }
}

proof fn lemma_no_newline(line: Seq<u8>)
    requires
        forall|j: int| 0 <= j < line.len() ==> #[trigger] line[j] != 10,
    ensures
        after_last_newline(line) is None,
    decreases line.len(),
{
    if line.len() > 0 {
        let less = line.drop_last();
        assert forall|j: int| 0 <= j < less.len() implies #[trigger] less[j] != 10 by {
            assert(less[j] == line[j]);
        }
        assert(line[line.len() - 1] != 10);
        lemma_no_newline(less);
    }
}

proof fn lemma_newline_behind(a: Seq<u8>, line: Seq<u8>)
    requires
        a.len() > 0,
        a.last() == 10,
        forall|j: int| 0 <= j < line.len() ==> #[trigger] line[j] != 10,
    ensures
        after_last_newline(a + line) == Some(a.len()),
    decreases line.len(),
{
    let s = a + line;
    if line.len() == 0 {
        assert(s == a);
    } else {
        let less = line.drop_last();
        assert forall|j: int| 0 <= j < less.len() implies #[trigger] less[j] != 10 by {
            assert(less[j] == line[j]);
        }
        assert(s.last() == line[line.len() - 1]);
        assert(s.drop_last() == a + less);
        lemma_newline_behind(a, less);
    }
}

/// The window for the cut is the end of the start: a quarter of it, at least one
/// byte and at most one chunk.
pub proof fn law_the_window_of_the_cut(head: u64, r: (u64, u64))
    requires
        call_ensures(head_window, (head,), r),
    ensures
        r.0 + r.1 == head,
        4 <= head <= 262144 ==> r.1 == head / 4,
        head > 262144 ==> r.1 == 65536,
        1 <= head < 4 ==> r.1 == 1,
{
}

/// The start of a log takes bytes until it is full, and none after the output
/// went over. With no limit it takes every byte.
pub proof fn law_what_the_start_takes(w: &CapWriter, len: usize, r: Share)
    requires
        call_ensures(CapWriter::write, (w, len), r),
    ensures
        w.parts is None ==> r.head == len && !r.start,
        w.parts is Some && w.overflowing ==> r.head == 0 && !r.start,
        w.parts is Some && !w.overflowing && w.head_len + len <= w.parts->0.fill ==> r.head == len
            && !r.start,
        w.parts is Some && !w.overflowing && w.head_len <= w.parts->0.fill < w.head_len + len
            ==> w.head_len + r.head == w.parts->0.fill && r.start,
{
}

/// The end of a log loses its first, broken line exactly where output is missing
/// before it and the line is no longer than a quarter of the end.
pub proof fn law_when_the_broken_line_goes(
    w: &CapWriter,
    ring: Ring,
    p: Parts,
    first_end: Option<u64>,
    r: bool,
)
    requires
        call_ensures(CapWriter::trims, (w, ring, p, first_end), r),
    ensures
        r <==> (ring.wrapped || w.dropped.bytes > 0) && first_end is Some && first_end->0 <= p.tail
            / 4,
{
}

/// No byte of the output is lost from the counts: at the end the dropped bytes and
/// the kept ones are together the bytes that went over and those dropped before.
pub proof fn law_every_byte_is_counted(
    w: &mut CapWriter,
    ring: Ring,
    p: Parts,
    trim: bool,
    kept_bytes: u64,
    kept_lines: u64,
    r: String,
)
    requires
        call_ensures(CapWriter::finish, (w, ring, p, trim, kept_bytes, kept_lines), r),
        kept_bytes <= old(w).overflow_bytes,
        kept_lines <= old(w).overflow_lines,
        old(w).dropped.bytes + old(w).overflow_bytes <= u64::MAX,
        old(w).dropped.lines + old(w).overflow_lines <= u64::MAX,
    ensures
        final(w).dropped.bytes + kept_bytes == old(w).dropped.bytes + old(w).overflow_bytes,
        final(w).dropped.lines + kept_lines == old(w).dropped.lines + old(w).overflow_lines,
{
}

/// Without the file for the end, every byte that went over is dropped, and the
/// note says so exactly where the output went over.
pub proof fn law_without_an_end_everything_is_dropped(w: &mut CapWriter, r: Option<String>)
    requires
        call_ensures(CapWriter::finish_without_tail, (w,), r),
        old(w).dropped.bytes + old(w).overflow_bytes <= u64::MAX,
        old(w).dropped.lines + old(w).overflow_lines <= u64::MAX,
    ensures
        final(w).dropped.bytes == old(w).dropped.bytes + old(w).overflow_bytes,
        final(w).dropped.lines == old(w).dropped.lines + old(w).overflow_lines,
        r is Some <==> old(w).parts is Some && old(w).overflowing,
{
}

/// What goes over is counted in bytes and in lines.
pub proof fn law_what_goes_over_is_counted(w: &mut CapWriter, data: &[u8], r: Vec<Put>)
    requires
        call_ensures(CapWriter::push_overflow, (w, data), r),
        old(w).overflow_bytes + data@.len() <= u64::MAX,
        old(w).overflow_lines + data@.len() <= u64::MAX,
    ensures
        final(w).overflow_bytes == old(w).overflow_bytes + data@.len(),
        final(w).overflow_lines == old(w).overflow_lines + newlines(data@),
        final(w).head_len == old(w).head_len && final(w).dropped == old(w).dropped,
{
    lemma_newlines_bound(data@);
}

/// The start of the log is cut behind its last whole line, or at its length where
/// it has none, and what is cut is counted.
pub proof fn law_the_cut_of_the_start(w: &CapWriter, p: Parts, cut: Option<u64>, r: Cut)
    requires
        call_ensures(CapWriter::cut_head, (w, p, cut), r),
        w.head_len > p.head,
        cut is Some ==> cut->0 <= p.head,
    ensures
        cut is Some ==> r.keep == cut->0 && !r.fragment,
        cut is None ==> r.keep == p.head && r.fragment,
        r.keep + r.extra == w.head_len,
{
}

} // verus!
