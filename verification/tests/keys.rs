use qex::keys::{
    csi_number, decode, decode_csi, decode_plain, push, sequence_done, take, Key, KeyEvent, KeyRead, KeyStep,
};

#[test]
fn a_letter_is_a_character() {
    assert_eq!(decode(b"q"), Some((Key::Char(b'q'), 1)));
    assert_eq!(decode(b"j"), Some((Key::Char(b'j'), 1)));
}

#[test]
fn enter_and_return_are_the_same_key() {
    assert_eq!(decode(b"\n"), Some((Key::Enter, 1)));
    assert_eq!(decode(b"\r"), Some((Key::Enter, 1)));
}

#[test]
fn an_arrow_is_one_key() {
    assert_eq!(decode(b"\x1b[A"), Some((Key::Up, 3)));
    assert_eq!(decode(b"\x1b[B"), Some((Key::Down, 3)));
    assert_eq!(decode(b"\x1bOA"), Some((Key::Up, 3)));
    assert_eq!(decode(b"\x1bOB"), Some((Key::Down, 3)));
    // A modifier sits in the middle. The last letter is still the arrow.
    assert_eq!(decode(b"\x1b[1;5A"), Some((Key::Up, 6)));
    assert_eq!(decode(b"\x1b[1;2B"), Some((Key::Down, 6)));
}

#[test]
fn page_and_home_keys_decode() {
    assert_eq!(decode(b"\x1b[5~"), Some((Key::PageUp, 4)));
    assert_eq!(decode(b"\x1b[6~"), Some((Key::PageDown, 4)));
    assert_eq!(decode(b"\x1b[H"), Some((Key::Home, 3)));
    assert_eq!(decode(b"\x1b[F"), Some((Key::End, 3)));
    assert_eq!(decode(b"\x1b[1~"), Some((Key::Home, 4)));
    assert_eq!(decode(b"\x1b[4~"), Some((Key::End, 4)));
}

#[test]
fn a_lone_escape_is_escape() {
    assert_eq!(decode(b"\x1b"), Some((Key::Esc, 1)));
}

#[test]
fn a_sequence_that_no_key_has_is_escape() {
    assert_eq!(decode(b"\x1b[9~"), Some((Key::Esc, 1)));
    assert_eq!(decode(b"\x1b[99999999999~"), Some((Key::Esc, 1)));
    assert_eq!(decode(b""), None);
    assert_eq!(csi_number(b"\x1b[12;5~"), 12);
    assert_eq!(csi_number(b"\x1b[4294967295~"), u32::MAX);
    assert_eq!(csi_number(b"\x1b[4294967296~"), 0);
    assert_eq!(csi_number(b"\x1b~"), 0);
}

#[test]
fn a_sequence_ends_at_its_letter() {
    assert!(!sequence_done(b"\x1b["));
    assert!(!sequence_done(b"\x1b[1"));
    assert!(sequence_done(b"\x1b[A"));
    assert!(sequence_done(b"\x1bOA"));
    assert!(!sequence_done(b"abc"));
}

#[test]
fn the_reader_puts_the_bytes_of_an_arrow_together() {
    let mut r = KeyRead::new();
    assert_eq!(r.read_key(KeyEvent::Byte(Some(0x1b))), KeyStep::Wait(50));
    assert_eq!(r.read_key(KeyEvent::Ready(true)), KeyStep::Read);
    assert_eq!(r.read_key(KeyEvent::Byte(Some(b'['))), KeyStep::Wait(20));
    assert_eq!(r.read_key(KeyEvent::Ready(true)), KeyStep::Read);
    assert_eq!(r.read_key(KeyEvent::Byte(Some(b'A'))), KeyStep::Got(Key::Up));
}

#[test]
fn the_reader_tells_a_lone_escape_apart() {
    let mut r = KeyRead::new();
    assert_eq!(r.read_key(KeyEvent::Byte(Some(0x1b))), KeyStep::Wait(50));
    assert_eq!(r.read_key(KeyEvent::Ready(false)), KeyStep::Got(Key::Esc));
    let mut r = KeyRead::new();
    assert_eq!(
        r.read_key(KeyEvent::Byte(Some(b'q'))),
        KeyStep::Got(Key::Char(b'q'))
    );
    let mut r = KeyRead::new();
    assert_eq!(r.read_key(KeyEvent::Byte(None)), KeyStep::Ended);
}

#[test]
fn a_sequence_that_never_ends_is_read_to_its_limit() {
    let mut r = KeyRead::new();
    assert_eq!(r.read_key(KeyEvent::Byte(Some(0x1b))), KeyStep::Wait(50));
    let mut next = r.read_key(KeyEvent::Ready(true));
    let mut bytes = 1;
    let first = [b'['];
    while next == KeyStep::Read {
        let b = if bytes == 1 { first[0] } else { b'0' };
        bytes += 1;
        assert_eq!(r.read_key(KeyEvent::Byte(Some(b))), KeyStep::Wait(20));
        next = r.read_key(KeyEvent::Ready(true));
    }
    assert_eq!(bytes, 16);
    assert_eq!(next, KeyStep::Got(Key::Esc));
}

#[test]
fn the_keys_come_out_in_the_order_of_arrival() {
    let mut events = Vec::new();
    push(&mut events, decode_plain(b'a'));
    push(&mut events, Key::Up);
    assert_eq!(take(&mut events), vec![Key::Char(b'a'), Key::Up]);
    assert_eq!(take(&mut events), Vec::new());
}

#[test]
fn the_last_byte_of_a_sequence_names_its_key() {
    assert_eq!(decode_csi(b"\x1b[1;5A"), Some(Key::Up));
    assert_eq!(decode_csi(b"\x1b[6~"), Some(Key::PageDown));
    assert_eq!(decode_csi(b"\x1b[9~"), None);
    assert_eq!(decode_csi(b"\x1b[Z"), None);
}
