use itm_writer::Aligned;
use itm_writer::Port;
use itm_writer::WriteOp;
use itm_writer::forward_rendered;
use itm_writer::write_aligned;
use itm_writer::write_all;
use itm_writer::write_str;

/// Decomposes each logged transfer back into its constituent bytes, in the
/// order written.
fn decoded(log: &[WriteOp]) -> Vec<u8> {
    let mut out: Vec<u8> = Vec::new();
    for op in log {
        match *op {
            WriteOp::Byte(b) => out.push(b),
            WriteOp::Half(h) => {
                out.push((h & 0xff) as u8);
                out.push(((h >> 8) & 0xff) as u8);
            }
            WriteOp::Word(w) => {
                out.push((w & 0xff) as u8);
                out.push(((w >> 8) & 0xff) as u8);
                out.push(((w >> 16) & 0xff) as u8);
                out.push(((w >> 24) & 0xff) as u8);
            }
        }
    }
    out
}

fn counts(log: &[WriteOp]) -> (usize, usize, usize) {
    let mut bytes: usize = 0;
    let mut halves: usize = 0;
    let mut words: usize = 0;
    for op in log {
        match *op {
            WriteOp::Byte(_) => bytes += 1,
            WriteOp::Half(_) => halves += 1,
            WriteOp::Word(_) => words += 1,
        }
    }
    (bytes, halves, words)
}

#[test]
fn zero_length_is_a_no_op() {
    let mut port = Port::new(5);
    write_all(&mut port, &[], 3);
    assert_eq!(port.polls, 0);
    assert_eq!(port.log.len(), 0);
    write_aligned(&mut port, &Aligned(Vec::new()));
    assert_eq!(port.polls, 0);
    assert_eq!(port.log.len(), 0);
    write_str(&mut port, "", 7);
    assert_eq!(port.polls, 0);
    assert_eq!(port.log.len(), 0);
}

#[test]
fn odd_address_length_fourteen() {
    let mut port = Port::new(0);
    write_all(&mut port, b"Hello, world!\n", 1);
    assert_eq!(
        port.log,
        vec![
            WriteOp::Byte(b'H'),
            WriteOp::Half(u16::from_le_bytes([b'e', b'l'])),
            WriteOp::Word(u32::from_le_bytes([b'l', b'o', b',', b' '])),
            WriteOp::Word(u32::from_le_bytes([b'w', b'o', b'r', b'l'])),
            WriteOp::Half(u16::from_le_bytes([b'd', b'!'])),
            WriteOp::Byte(b'\n'),
        ]
    );
    let (bytes, halves, words) = counts(&port.log);
    assert_eq!((bytes, halves, words), (2, 2, 2));
}

#[test]
fn word_aligned_length_four_is_one_word() {
    let mut port = Port::new(0);
    write_all(&mut port, &[1, 2, 3, 4], 8);
    assert_eq!(port.log, vec![WriteOp::Word(0x04030201)]);
}

#[test]
fn every_alignment_and_length_round_trips() {
    for align in 0..4usize {
        for len in 0..=12usize {
            let buf: Vec<u8> = (0..len as u8).map(|i| i.wrapping_mul(7).wrapping_add(3)).collect();
            let mut port = Port::new(2);
            write_all(&mut port, &buf, 100 + align);
            assert_eq!(decoded(&port.log), buf, "align {} len {}", align, len);
        }
    }
}

#[test]
fn write_counts_are_minimal() {
    for align in 0..4usize {
        for len in 0..=12usize {
            let buf: Vec<u8> = vec![0xa5; len];
            let mut port = Port::new(0);
            write_all(&mut port, &buf, 40 + align);
            let (bytes, halves, words) = counts(&port.log);
            assert!(bytes <= 2, "align {} len {}", align, len);
            assert!(halves <= 2, "align {} len {}", align, len);
            assert_eq!(bytes + 2 * halves + 4 * words, len, "align {} len {}", align, len);
        }
    }
}

#[test]
fn readiness_is_polled_before_every_write() {
    let delay: u32 = 3;
    let mut port = Port::new(delay);
    write_all(&mut port, b"Hello, world!\n", 1);
    let transfers = port.log.len() as u64;
    assert_eq!(transfers, 6);
    assert_eq!(port.polls, transfers * (delay as u64 + 1));
}

#[test]
fn a_ready_port_is_polled_once_per_write() {
    let mut port = Port::new(0);
    write_all(&mut port, &[9], 0);
    assert_eq!(port.polls, 1);
    assert_eq!(port.log, vec![WriteOp::Byte(9)]);
}

#[test]
fn port_reports_ready_after_its_delay() {
    let mut port = Port::new(2);
    assert!(!port.is_ready());
    assert!(!port.is_ready());
    assert!(port.is_ready());
    assert!(port.is_ready());
    assert_eq!(port.polls, 4);
    port.write8(0x55);
    assert!(!port.is_ready());
    assert_eq!(port.log, vec![WriteOp::Byte(0x55)]);
}

#[test]
fn aligned_buffer_skips_the_leading_corrections() {
    let mut port = Port::new(0);
    write_aligned(&mut port, &Aligned(vec![1, 2, 3, 4, 5, 6, 7]));
    assert_eq!(
        port.log,
        vec![
            WriteOp::Word(0x04030201),
            WriteOp::Half(0x0605),
            WriteOp::Byte(7),
        ]
    );
}

#[test]
fn rendered_text_that_fits_is_forwarded_whole() {
    let mut port = Port::new(1);
    let written = forward_rendered(&mut port, b"AB\n", 2);
    assert!(written);
    assert_eq!(port.log, vec![WriteOp::Half(u16::from_le_bytes([b'A', b'B'])), WriteOp::Byte(b'\n')]);
    assert_eq!(port.polls, 4);
}

#[test]
fn rendered_text_that_overruns_the_poll_counter_is_dropped() {
    let mut port = Port::new(0);
    port.polls = u64::MAX - 1;
    let written = forward_rendered(&mut port, b"AB\n", 2);
    assert!(!written);
    assert_eq!(port.log.len(), 0);
    assert_eq!(port.polls, u64::MAX - 1);
}

#[test]
fn text_goes_through_the_generic_writer() {
    let mut with_str = Port::new(1);
    write_str(&mut with_str, "AB\n", 2);
    let mut with_bytes = Port::new(1);
    write_all(&mut with_bytes, b"AB\n", 2);
    assert_eq!(with_str.log, with_bytes.log);
    assert_eq!(with_str.polls, with_bytes.polls);
    assert_eq!(with_str.log, vec![WriteOp::Half(u16::from_le_bytes([b'A', b'B'])), WriteOp::Byte(b'\n')]);
}
