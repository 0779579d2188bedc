//! The keys of a terminal.
//!
//! A key is one byte, or a sequence of bytes that starts with `ESC`. The caller
//! sets the terminal and reads the bytes; the functions here say which key the
//! bytes are, and when to read more of them.

use vstd::prelude::*;

verus! {

/// One key from the terminal.
#[derive(Debug, Clone, Copy, PartialEq, Eq, Structural)]
pub enum Key {
    Char(u8),
    Up,
    Down,
    PageUp,
    PageDown,
    Home,
    End,
    Enter,
    Esc,
}

/// The byte that starts a sequence.
pub const ESC: u8 = 0x1b;

/// The longest sequence that qex reads.
pub const MAX_SEQUENCE: usize = 16;

/// The milliseconds to wait for the second byte of a sequence.
pub const FIRST_WAIT: i32 = 50;

/// The milliseconds to wait for each later byte.
pub const NEXT_WAIT: i32 = 20;

/// Gives every key that arrived since the last call, in the order of arrival.
pub fn take(events: &mut Vec<Key>) -> (r: Vec<Key>)
    ensures
        r@ == old(events)@,
        final(events)@.len() == 0,
{
    let mut out: Vec<Key> = Vec::new();
    std::mem::swap(&mut out, events);
    out
}

/// Keeps a key until the next call of `take`.
pub fn push(events: &mut Vec<Key>, key: Key)
    ensures
        final(events)@ == old(events)@.push(key),
{
    events.push(key);
}

/// The key of a byte that starts no sequence.
pub open spec fn plain(byte: u8) -> Key {
    if byte == 10 || byte == 13 {
        Key::Enter
    } else {
        Key::Char(byte)
    }
}

/// Gives the key of a byte that starts no sequence.
pub fn decode_plain(byte: u8) -> (r: Key)
    ensures
        r == plain(byte),
{
    if byte == 10 || byte == 13 {
        Key::Enter
    } else {
        Key::Char(byte)
    }
}

/// True when the sequence is complete.
pub open spec fn done(buf: Seq<u8>) -> bool {
    &&& buf.len() >= 3
    &&& buf[0] == ESC
    &&& buf[1] == 0x5b ==> 0x40 <= buf.last() <= 0x7e
}

/// Tests if the sequence is complete. After `ESC [` the last byte is a letter or
/// one of a few signs; after `ESC` and another byte one byte follows.
pub fn sequence_done(buf: &[u8]) -> (r: bool)
    ensures
        r == done(buf@),
{
    let n: usize = buf.len();
    if n < 3 || buf[0] != ESC {
        return false;
    }
    if buf[1] == 0x5b {
        let last: u8 = buf[n - 1];
        return 0x40 <= last && last <= 0x7e;
    }
    true
}

/// True for a decimal digit.
pub open spec fn digit(b: u8) -> bool {
    0x30 <= b <= 0x39
}

/// The position behind the digits that stand from `i` on, before `end`.
pub open spec fn digits_end(bytes: Seq<u8>, i: nat, end: nat) -> nat
    decreases end - i,
{
    if i >= end || !digit(bytes[i as int]) {
        i
    } else {
        digits_end(bytes, i + 1, end)
    }
}

/// The number that the digits spell.
pub open spec fn spelled(digits: Seq<u8>) -> nat
    decreases digits.len(),
{
    if digits.len() == 0 {
        0
    } else {
        spelled(digits.drop_last()) * 10 + (digits.last() - 0x30) as nat
    }
}

/// The number in a sequence, and 0 where there is none or where it is too large.
pub open spec fn number(bytes: Seq<u8>) -> nat {
    if bytes.len() < 3 {
        0
    } else {
        let end = digits_end(bytes, 2, (bytes.len() - 1) as nat);
        let n = spelled(bytes.subrange(2, end as int));
        if n <= u32::MAX {
            n
        } else {
            0
        }
    }
}

proof fn lemma_digits_end(bytes: Seq<u8>, i: nat, end: nat)
    requires
        i <= end,
    ensures
        i <= digits_end(bytes, i, end) <= end,
        forall|k: int| i <= k < digits_end(bytes, i, end) ==> digit(#[trigger] bytes[k]),
    decreases end - i,
{
    if i < end && digit(bytes[i as int]) {
        lemma_digits_end(bytes, i + 1, end);
    }
}

proof fn lemma_spelled_grows(digits: Seq<u8>, n: int)
    requires
        0 <= n <= digits.len(),
        forall|k: int| 0 <= k < digits.len() ==> digit(#[trigger] digits[k]),
    ensures
        spelled(digits.take(n)) <= spelled(digits),
    decreases digits.len(),
{
    if n == digits.len() {
        assert(digits.take(n) == digits);
    } else {
        assert(digits.drop_last().take(n) == digits.take(n));
        lemma_spelled_grows(digits.drop_last(), n);
    }
}

/// Gives the number in a sequence such as `ESC [ 5 ~`.
pub fn csi_number(bytes: &[u8]) -> (r: u32)
    ensures
        r == number(bytes@),
{
    let n: usize = bytes.len();
    if n < 3 {
        return 0;
    }
    let ghost end = digits_end(bytes@, 2, (n - 1) as nat);
    let ghost run = bytes@.subrange(2, end as int);
    proof {
        lemma_digits_end(bytes@, 2, (n - 1) as nat);
        assert forall|k: int| 0 <= k < run.len() implies digit(#[trigger] run[k]) by {
            assert(run[k] == bytes@[k + 2]);
        }
    }
    let mut value: u64 = 0;
    let mut i: usize = 2;
    while i < n - 1 && 0x30 <= bytes[i] && bytes[i] <= 0x39
        invariant
            3 <= n == bytes@.len(),
            2 <= i <= end <= n - 1,
            end == digits_end(bytes@, 2, (n - 1) as nat),
            end == digits_end(bytes@, i as nat, (n - 1) as nat),
            run == bytes@.subrange(2, end as int),
            forall|k: int| 0 <= k < run.len() ==> digit(#[trigger] run[k]),
            value == spelled(run.take(i - 2)),
            value <= u32::MAX,
        decreases n - i,
    {
        proof {
            lemma_digits_end(bytes@, i as nat + 1, (n - 1) as nat);
            assert(run.take(i - 1).drop_last() == run.take(i - 2));
            assert(run.take(i - 1).last() == bytes@[i as int]);
        }
        value = value * 10 + (bytes[i] - 0x30) as u64;
        if value > u32::MAX as u64 {
            proof {
                lemma_spelled_grows(run, i - 1);
            }
            return 0;
        }
        i += 1;
    }
    assert(run.take(run.len() as int) == run);
    value as u32
}

/// The key of a sequence that `ESC [` or `ESC O` starts.
pub open spec fn csi_key(bytes: Seq<u8>) -> Option<Key> {
    if bytes.len() == 0 {
        None
    } else if bytes.last() == 0x41 {
        Some(Key::Up)
    } else if bytes.last() == 0x42 {
        Some(Key::Down)
    } else if bytes.last() == 0x48 {
        Some(Key::Home)
    } else if bytes.last() == 0x46 {
        Some(Key::End)
    } else if bytes.last() == 0x7e {
        let n = number(bytes);
        if n == 5 {
            Some(Key::PageUp)
        } else if n == 6 {
            Some(Key::PageDown)
        } else if n == 1 || n == 7 {
            Some(Key::Home)
        } else if n == 4 || n == 8 {
            Some(Key::End)
        } else {
            None
        }
    } else {
        None
    }
}

/// Gives the key of a sequence that `ESC [` or `ESC O` starts. A modifier stands
/// in the middle, so the last byte decides.
pub fn decode_csi(bytes: &[u8]) -> (r: Option<Key>)
    ensures
        r == csi_key(bytes@),
{
    let n: usize = bytes.len();
    if n == 0 {
        return None;
    }
    match bytes[n - 1] {
        0x41 => Some(Key::Up),
        0x42 => Some(Key::Down),
        0x48 => Some(Key::Home),
        0x46 => Some(Key::End),
        0x7e => match csi_number(bytes) {
            5 => Some(Key::PageUp),
            6 => Some(Key::PageDown),
            1 | 7 => Some(Key::Home),
            4 | 8 => Some(Key::End),
            _ => None,
        },
        _ => None,
    }
}

/// The key that the bytes start with, and the number of its bytes.
pub open spec fn decoded(bytes: Seq<u8>) -> Option<(Key, usize)> {
    if bytes.len() == 0 {
        None
    } else if bytes[0] != ESC {
        Some((plain(bytes[0]), 1usize))
    } else if bytes.len() >= 3 && (bytes[1] == 0x5b || bytes[1] == 0x4f) && csi_key(
        bytes,
    ) is Some {
        Some((csi_key(bytes)->0, bytes.len() as usize))
    } else {
        Some((Key::Esc, 1usize))
    }
}

/// Reads one complete key from a known sequence of bytes.
pub fn decode(bytes: &[u8]) -> (r: Option<(Key, usize)>)
    ensures
        r == decoded(bytes@),
{
    let n: usize = bytes.len();
    if n == 0 {
        return None;
    }
    if bytes[0] != ESC {
        return Some((decode_plain(bytes[0]), 1));
    }
    if n >= 3 && (bytes[1] == 0x5b || bytes[1] == 0x4f) {
        match decode_csi(bytes) {
            Some(key) => {
                return Some((key, n));
            },
            None => {},
        }
    }
    Some((Key::Esc, 1))
}

// ---------------------------------------------------------------------------
// The reader.
// ---------------------------------------------------------------------------

/// What the caller read.
#[derive(Debug, Clone, Copy, PartialEq, Eq, Structural)]
pub enum KeyEvent {
    /// A byte, or the end of the input.
    Byte(Option<u8>),
    /// If a byte is ready.
    Ready(bool),
}

/// What the caller does next.
#[derive(Debug, Clone, Copy, PartialEq, Eq, Structural)]
pub enum KeyStep {
    /// Read one byte.
    Read,
    /// Wait for a byte, for so many milliseconds at most.
    Wait(i32),
    /// This is the key.
    Got(Key),
    /// The input ended.
    Ended,
}

/// The read of one key. A new read has no byte.
#[derive(Debug)]
pub struct KeyRead {
    pub buf: Vec<u8>,
    /// True when the next event says if a byte is ready.
    pub waits: bool,
}

/// The key of the bytes that were read.
pub open spec fn key_of(buf: Seq<u8>) -> Key {
    match decoded(buf) {
        Some(k) => k.0,
        None => Key::Esc,
    }
}

/// What an event makes of the bytes, and what comes next.
pub open spec fn stepped(buf: Seq<u8>, event: KeyEvent) -> (Seq<u8>, bool, KeyStep) {
    match event {
        KeyEvent::Byte(None) => if buf.len() == 0 {
            (buf, false, KeyStep::Ended)
        } else {
            (buf, false, KeyStep::Got(key_of(buf)))
        },
        KeyEvent::Byte(Some(b)) => {
            let next = buf.push(b);
            if buf.len() == 0 && b != ESC {
                (next, false, KeyStep::Got(plain(b)))
            } else if buf.len() == 0 {
                (next, true, KeyStep::Wait(FIRST_WAIT))
            } else if done(next) {
                (next, false, KeyStep::Got(key_of(next)))
            } else {
                (next, true, KeyStep::Wait(NEXT_WAIT))
            }
        },
        KeyEvent::Ready(ready) => if buf.len() <= 1 && !ready {
            (buf, false, KeyStep::Got(Key::Esc))
        } else if ready && buf.len() < MAX_SEQUENCE {
            (buf, false, KeyStep::Read)
        } else {
            (buf, false, KeyStep::Got(key_of(buf)))
        },
    }
}

impl KeyRead {
    /// Starts the read of one key. The caller reads one byte.
    pub fn new() -> (r: Self)
        ensures
            r.buf@.len() == 0,
            !r.waits,
            r.wf(),
    {
        KeyRead { buf: Vec::new(), waits: false }
    }

    /// The bytes of a read that goes on start with `ESC`.
    pub open spec fn wf(self) -> bool {
        &&& self.buf@.len() > 0 ==> self.buf@[0] == ESC
        &&& self.buf@.len() <= MAX_SEQUENCE
        &&& self.waits ==> self.buf@.len() > 0
        &&& !self.waits ==> self.buf@.len() < MAX_SEQUENCE
    }

    /// Takes what the caller read, and gives what it does next.
    ///
    /// A lone `ESC` is a key of its own. An arrow is `ESC` and more bytes in the
    /// same instant, so a short wait tells the two apart.
    pub fn read_key(&mut self, event: KeyEvent) -> (r: KeyStep)
        requires
            old(self).wf(),
            old(self).waits == (event is Ready),
        ensures
            (final(self).buf@, final(self).waits, r) == stepped(old(self).buf@, event),
            r is Read || r is Wait ==> final(self).wf(),
    {
        match event {
            KeyEvent::Byte(None) => {
                self.waits = false;
                if self.buf.len() == 0 {
                    return KeyStep::Ended;
                }
                self.finish()
            },
            KeyEvent::Byte(Some(b)) => {
                let first = self.buf.len() == 0;
                self.buf.push(b);
                if first && b != ESC {
                    self.waits = false;
                    return KeyStep::Got(decode_plain(b));
                }
                if first {
                    self.waits = true;
                    return KeyStep::Wait(FIRST_WAIT);
                }
                if sequence_done(self.buf.as_slice()) {
                    self.waits = false;
                    return self.finish();
                }
                self.waits = true;
                KeyStep::Wait(NEXT_WAIT)
            },
            KeyEvent::Ready(ready) => {
                self.waits = false;
                if self.buf.len() <= 1 && !ready {
                    return KeyStep::Got(Key::Esc);
                }
                if ready && self.buf.len() < MAX_SEQUENCE {
                    return KeyStep::Read;
                }
                self.finish()
            },
        }
    }

    fn finish(&self) -> (r: KeyStep)
        ensures
            r == KeyStep::Got(key_of(self.buf@)),
    {
        match decode(self.buf.as_slice()) {
            Some(k) => KeyStep::Got(k.0),
            None => KeyStep::Got(Key::Esc),
        }
    }
}

/// An arrow is one key, with or without a modifier between its start and its
/// letter: only the last byte decides.
pub proof fn law_a_modifier_changes_no_arrow(middle: Seq<u8>, last: u8)
    requires
        last == 0x41 || last == 0x42,
        middle.len() + 3 <= usize::MAX,
    ensures
        ({
            let bytes = seq![ESC, 0x5bu8] + middle + seq![last];
            decoded(bytes) == Some(
                (
                    if last == 0x41 {
                        Key::Up
                    } else {
                        Key::Down
                    },
                    bytes.len() as usize,
                ),
            )
        }),
{
    let bytes = seq![ESC, 0x5bu8] + middle + seq![last];
    assert(bytes.last() == last);
    assert(bytes[0] == ESC);
    assert(bytes[1] == 0x5b);
}

/// Every key that arrives is taken one time, in the order of arrival.
pub proof fn law_no_key_is_lost(before: Seq<Key>, keys: Seq<Key>)
    ensures
        keys.fold_left(before, |q: Seq<Key>, k: Key| q.push(k)) == before + keys,
    decreases keys.len(),
{
    if keys.len() > 0 {
        law_no_key_is_lost(before, keys.drop_last());
        assert(before + keys == (before + keys.drop_last()).push(keys.last()));
    } else {
        assert(before + keys == before);
    }
}

/// A byte that is not `ESC` is a key of its own: a line feed and a carriage
/// return are `Enter`, and each other byte is its character. A lone `ESC` is the
/// key `Esc`, and so is one before bytes that name no key.
pub proof fn law_the_keys_of_one_byte(bytes: Seq<u8>)
    requires
        bytes.len() > 0,
    ensures
        bytes[0] == 10 || bytes[0] == 13 ==> decoded(bytes) == Some((Key::Enter, 1usize)),
        bytes[0] != 10 && bytes[0] != 13 && bytes[0] != 0x1b ==> decoded(bytes) == Some(
            (Key::Char(bytes[0]), 1usize),
        ),
        bytes[0] == 0x1b && (bytes.len() < 3 || (bytes[1] != 0x5b && bytes[1] != 0x4f)) ==> decoded(
            bytes,
        ) == Some((Key::Esc, 1usize)),
        decoded(Seq::empty()) is None,
{
}

/// The letter at the end of a sequence names an arrow, `Home` or `End`, whatever
/// stands between the start of the sequence and the letter.
pub proof fn law_the_keys_of_a_letter(start: u8, middle: Seq<u8>, last: u8)
    requires
        start == 0x5b || start == 0x4f,
        middle.len() + 3 <= usize::MAX,
    ensures
        ({
            let bytes = seq![0x1bu8, start] + middle + seq![last];
            let n = bytes.len() as usize;
            &&& last == 0x41 ==> decoded(bytes) == Some((Key::Up, n))
            &&& last == 0x42 ==> decoded(bytes) == Some((Key::Down, n))
            &&& last == 0x48 ==> decoded(bytes) == Some((Key::Home, n))
            &&& last == 0x46 ==> decoded(bytes) == Some((Key::End, n))
            &&& last != 0x41 && last != 0x42 && last != 0x48 && last != 0x46 && last != 0x7e
                ==> decoded(bytes) == Some((Key::Esc, 1usize))
        }),
{
    let bytes = seq![0x1bu8, start] + middle + seq![last];
    assert(bytes[0] == 0x1b && bytes[1] == start && bytes.last() == last);
}

/// In a sequence that ends with `~` the number in it names the key: 5 and 6 the
/// pages, 1 and 7 `Home`, 4 and 8 `End`. What follows the number, such as a
/// modifier, changes nothing.
pub proof fn law_the_keys_of_a_number(d: u8, rest: Seq<u8>)
    requires
        0x30 <= d <= 0x39,
        rest.len() == 0 || !(0x30 <= rest[0] <= 0x39),
        rest.len() + 4 <= usize::MAX,
    ensures
        ({
            let bytes = seq![0x1bu8, 0x5bu8, d] + rest + seq![0x7eu8];
            let n = bytes.len() as usize;
            &&& d == 0x35 ==> decoded(bytes) == Some((Key::PageUp, n))
            &&& d == 0x36 ==> decoded(bytes) == Some((Key::PageDown, n))
            &&& d == 0x31 || d == 0x37 ==> decoded(bytes) == Some((Key::Home, n))
            &&& d == 0x34 || d == 0x38 ==> decoded(bytes) == Some((Key::End, n))
            &&& d == 0x30 || d == 0x32 || d == 0x33 || d == 0x39 ==> decoded(bytes) == Some(
                (Key::Esc, 1usize),
            )
        }),
{
    let bytes = seq![0x1bu8, 0x5bu8, d] + rest + seq![0x7eu8];
    let end = (bytes.len() - 1) as nat;
    assert(bytes[0] == 0x1b && bytes[1] == 0x5b && bytes[2] == d && bytes.last() == 0x7e);
    if rest.len() > 0 {
        assert(bytes[3] == rest[0]);
    }
    assert(digits_end(bytes, 3, end) == 3);
    assert(digits_end(bytes, 2, end) == 3);
    let one = bytes.subrange(2, 3);
    assert(one == seq![d]);
    assert(one.drop_last() == Seq::<u8>::empty());
    assert(spelled(Seq::<u8>::empty()) == 0);
    assert(spelled(one) == d - 0x30);
}

/// The digits of a number count ten times the number before them and their own
/// value.
pub proof fn law_a_digit_of_a_number(digits: Seq<u8>, d: u8)
    requires
        0x30 <= d <= 0x39,
    ensures
        spelled(digits.push(d)) == 10 * spelled(digits) + (d - 0x30),
        spelled(Seq::empty()) == 0,
{
    assert(digits.push(d).drop_last() == digits);
}

/// The read of a key: a byte that is not `ESC` is a key at once. After `ESC` the
/// reader waits 50 milliseconds, and with no byte in them the key is `Esc`. A
/// sequence goes on until its last byte, and no longer than 16 bytes.
pub proof fn law_how_a_key_is_read(buf: Seq<u8>, b: u8)
    requires
        buf.len() > 0 ==> buf[0] == 0x1b,
    ensures
        buf.len() == 0 && b != 0x1b ==> stepped(buf, KeyEvent::Byte(Some(b))).2 == KeyStep::Got(
            if b == 10 || b == 13 {
                Key::Enter
            } else {
                Key::Char(b)
            },
        ),
        buf.len() == 0 && b == 0x1b ==> stepped(buf, KeyEvent::Byte(Some(b))).2 == KeyStep::Wait(
            50,
        ),
        buf.len() == 0 ==> stepped(buf, KeyEvent::Byte(None)).2 == KeyStep::Ended,
        buf.len() == 1 ==> stepped(buf, KeyEvent::Ready(false)).2 == KeyStep::Got(Key::Esc),
        1 <= buf.len() < 16 ==> stepped(buf, KeyEvent::Ready(true)).2 == KeyStep::Read,
        buf.len() == 1 ==> stepped(buf, KeyEvent::Byte(Some(b))).2 == KeyStep::Wait(20),
        buf.len() >= 2 && buf[1] == 0x5b && !(0x40 <= b <= 0x7e) ==> stepped(
            buf,
            KeyEvent::Byte(Some(b)),
        ).2 == KeyStep::Wait(20),
        buf.len() >= 2 && (buf[1] != 0x5b || 0x40 <= b <= 0x7e) ==> stepped(
            buf,
            KeyEvent::Byte(Some(b)),
        ).2 == KeyStep::Got(key_of(buf.push(b))),
        stepped(buf, KeyEvent::Byte(Some(b))).0 == buf.push(b),
        buf.len() >= 16 ==> stepped(buf, KeyEvent::Ready(true)).2 is Got,
{
    if buf.len() >= 1 {
        assert(buf.push(b)[0] == buf[0]);
    }
    if buf.len() >= 2 {
        assert(buf.push(b)[1] == buf[1]);
    }
}

/// The decoder gives the key of the bytes.
pub proof fn law_the_decoder_reads_the_keys(bytes: &[u8], r: Option<(Key, usize)>)
    requires
        call_ensures(decode, (bytes,), r),
        bytes@.len() > 0,
    ensures
        bytes@[0] != 0x1b ==> r == Some(
            (
                if bytes@[0] == 10 || bytes@[0] == 13 {
                    Key::Enter
                } else {
                    Key::Char(bytes@[0])
                },
                1usize,
            ),
        ),
        bytes@.len() >= 3 && bytes@[0] == 0x1b && bytes@[1] == 0x5b && bytes@.last() == 0x41 ==> r
            == Some((Key::Up, bytes@.len() as usize)),
        bytes@.len() >= 3 && bytes@[0] == 0x1b && bytes@[1] == 0x5b && bytes@.last() == 0x42 ==> r
            == Some((Key::Down, bytes@.len() as usize)),
        bytes@ == seq![0x1bu8] ==> r == Some((Key::Esc, 1usize)),
{
}

/// One step of the reader: a plain byte is a key at once, `ESC` waits for more,
/// and silence after it makes it the key `Esc`.
pub proof fn law_one_step_of_the_reader(read: &mut KeyRead, event: KeyEvent, r: KeyStep, b: u8)
    requires
        old(read).wf(),
        call_ensures(KeyRead::read_key, (read, event), r),
    ensures
        event == KeyEvent::Byte(Some(b)) && old(read).buf@.len() == 0 && b != 0x1b ==> r
            == KeyStep::Got(
            if b == 10 || b == 13 {
                Key::Enter
            } else {
                Key::Char(b)
            },
        ),
        event == KeyEvent::Byte(Some(b)) && old(read).buf@.len() == 0 && b == 0x1b ==> r
            == KeyStep::Wait(50) && final(read).buf@ == seq![0x1bu8],
        event == KeyEvent::Ready(false) && old(read).buf@.len() == 1 ==> r == KeyStep::Got(Key::Esc),
        event == KeyEvent::Byte(None::<u8>) && old(read).buf@.len() == 0 ==> r == KeyStep::Ended,
        event == KeyEvent::Byte(Some(b)) ==> final(read).buf@ == old(read).buf@.push(b),
        event == KeyEvent::Byte(Some(b)) && old(read).buf@ == seq![0x1bu8, 0x5bu8] && b == 0x41 ==> r
            == KeyStep::Got(Key::Up),
        event == KeyEvent::Byte(Some(b)) && old(read).buf@ == seq![0x1bu8, 0x5bu8] && b == 0x42 ==> r
            == KeyStep::Got(Key::Down),
{
    law_how_a_key_is_read(old(read).buf@, b);
    assert(Seq::<u8>::empty().push(b) == seq![b]);
    if old(read).buf@.len() == 0 {
        assert(old(read).buf@ == Seq::<u8>::empty());
    }
    if old(read).buf@ == seq![0x1bu8, 0x5bu8] {
        let none = Seq::<u8>::empty();
        law_the_keys_of_a_letter(0x5b, none, b);
        assert(seq![0x1bu8, 0x5bu8] + none + seq![b] == old(read).buf@.push(b));
    }
}

/// Every key that was kept is taken, in order, and none is left.
pub proof fn law_a_take_empties_the_keys(events: &mut Vec<Key>, r: Vec<Key>, more: &mut Vec<Key>, key: Key, u: ())
    requires
        call_ensures(take, (events,), r),
        call_ensures(push, (more, key), u),
    ensures
        r@ == old(events)@,
        final(events)@.len() == 0,
        final(more)@ == old(more)@.push(key),
{
}

} // verus!
