use rcore_os::fs::mail::{MailBox, MailRingBuffer, MAIL_SLOTS, MAIL_SLOT_SIZE};
use rcore_os::fs::{File, StatMode, STAT_MODE_DIR, STAT_MODE_FILE};

#[test]
fn new_ring_is_empty() {
    let ring = MailRingBuffer::new();
    assert_eq!(ring.available_read(), usize::MAX);
    assert_eq!(ring.available_write(), 0);
}

#[test]
fn write_then_read_gives_datagram_back() {
    let mut ring = MailRingBuffer::new();
    assert_eq!(ring.write_datagram(b"hello"), 5);
    assert_eq!(ring.available_read(), 0);
    let mut buf = vec![9u8; 10];
    assert_eq!(ring.read_datagram(&mut buf), 5);
    assert_eq!(&buf[..5], b"hello");
    assert_eq!(&buf[5..], &[9u8; 5]);
    assert_eq!(ring.available_read(), usize::MAX);
}

#[test]
fn long_datagram_is_cut_to_one_slot() {
    let mut ring = MailRingBuffer::new();
    let data: Vec<u8> = (0..300u32).map(|i| (i % 251) as u8).collect();
    assert_eq!(ring.write_datagram(&data), MAIL_SLOT_SIZE);
    let mut buf = vec![0u8; 512];
    assert_eq!(ring.read_datagram(&mut buf), MAIL_SLOT_SIZE);
    assert_eq!(&buf[..MAIL_SLOT_SIZE], &data[..MAIL_SLOT_SIZE]);
    assert!(buf[MAIL_SLOT_SIZE..].iter().all(|&b| b == 0));
}

#[test]
fn short_buffer_takes_prefix_and_drops_rest() {
    let mut ring = MailRingBuffer::new();
    ring.write_datagram(b"abcdef");
    ring.write_datagram(b"xyz");
    let mut buf = vec![0u8; 3];
    assert_eq!(ring.read_datagram(&mut buf), 3);
    assert_eq!(&buf, b"abc");
    let mut buf2 = vec![0u8; 8];
    assert_eq!(ring.read_datagram(&mut buf2), 3);
    assert_eq!(&buf2[..3], b"xyz");
}

#[test]
fn datagrams_come_out_in_order() {
    let mut ring = MailRingBuffer::new();
    for i in 0..5u8 {
        ring.write_datagram(&[i, i, i]);
    }
    for i in 0..5u8 {
        let mut buf = vec![0u8; 3];
        assert_eq!(ring.read_datagram(&mut buf), 3);
        assert_eq!(buf, vec![i, i, i]);
    }
}

#[test]
fn ring_wraps_around() {
    let mut ring = MailRingBuffer::new();
    for round in 0..40u8 {
        assert_eq!(ring.write_datagram(&[round; 7]), 7);
        assert_eq!(ring.write_datagram(&[round.wrapping_add(100); 2]), 2);
        let mut buf = vec![0u8; 16];
        assert_eq!(ring.read_datagram(&mut buf), 7);
        assert_eq!(&buf[..7], &[round; 7]);
        assert_eq!(ring.read_datagram(&mut buf), 2);
        assert_eq!(&buf[..2], &[round.wrapping_add(100); 2]);
    }
    assert_eq!(ring.available_read(), usize::MAX);
}

#[test]
fn sixteen_datagrams_fill_the_ring() {
    let mut ring = MailRingBuffer::new();
    for i in 0..MAIL_SLOTS {
        assert_eq!(ring.available_write(), 0);
        ring.write_datagram(&[i as u8]);
    }
    assert_eq!(ring.available_write(), usize::MAX);
    let mut buf = vec![0u8; 1];
    ring.read_datagram(&mut buf);
    assert_eq!(buf[0], 0);
    assert_eq!(ring.available_write(), 0);
}

#[test]
fn mailbox_read_when_empty_signals() {
    let mut mb = MailBox::new();
    let mut buf = vec![1u8; 4];
    assert_eq!(mb.read(&mut buf), usize::MAX);
    assert_eq!(buf, vec![1u8; 4]);
}

#[test]
fn mailbox_empty_buffers_move_nothing() {
    let mut mb = MailBox::new();
    assert_eq!(mb.write(&[]), 0);
    let mut empty: Vec<u8> = Vec::new();
    assert_eq!(mb.read(&mut empty), usize::MAX);
    assert_eq!(mb.write(b"hi"), 2);
    assert_eq!(mb.read(&mut empty), 0);
    let mut buf = vec![0u8; 2];
    assert_eq!(mb.read(&mut buf), 2);
    assert_eq!(&buf, b"hi");
}

#[test]
fn mailbox_full_refuses_write() {
    let mut mb = MailBox::new();
    for i in 0..MAIL_SLOTS {
        assert_eq!(mb.write(&[i as u8, 1]), 2);
    }
    assert_eq!(mb.write(b"more"), usize::MAX);
    assert_eq!(mb.write(&[]), usize::MAX);
    let mut buf = vec![0u8; 4];
    assert_eq!(mb.read(&mut buf), 2);
    assert_eq!(&buf[..2], &[0, 1]);
    assert_eq!(mb.write(b"more"), 4);
}

#[test]
fn mailbox_is_readable_and_writable() {
    let mb = MailBox::new();
    assert!(mb.readable());
    assert!(mb.writable());
}

#[test]
fn mailbox_stat_is_plain() {
    let mb = MailBox::new();
    let st = mb.get_stat();
    assert_eq!(st.dev, 0);
    assert_eq!(st.ino, 0);
    assert_eq!(st.mode.bits(), 0);
    assert_eq!(st.nlink, 1);
    assert_eq!(st.pad, [0u64; 7]);
}

#[test]
fn stat_mode_truncates_unknown_bits() {
    assert_eq!(StatMode::from_bits_truncate(0xffff_ffff).bits(), STAT_MODE_DIR | STAT_MODE_FILE);
    assert_eq!(StatMode::from_bits_truncate(0o040777).bits(), STAT_MODE_DIR);
    assert_eq!(StatMode::from_bits_truncate(0).bits(), 0);
    assert!(StatMode::dir().contains(&StatMode::dir()));
    assert!(!StatMode::file().contains(&StatMode::dir()));
    assert_eq!(StatMode::empty().bits(), 0);
    assert_eq!(StatMode::file().bits(), 0o100000);
}
