use occlum::util::dirty::Dirty;
use occlum::util::host_file_util::{parse_host_file, HostFile};
use occlum::util::hosts_parser_util::{hostname_check_result, lines_are_utf8, hosts_first_words, parse_hostname_buffer, parse_hosts_buffer, HostEntry};
use occlum::util::mem_util::{check_array, check_mut_ptr, check_ptr, is_inside_user_space};
use occlum::util::mpx_util::{mpx_bndmk, MpxReg};
use occlum::util::object_id::{ObjectId, MAX_OBJECT_ID};
use occlum::util::resolv_conf_util::{parse_resolv_conf, resolv_conf_text};
use occlum::util::quote::{validate_platform, EnclaveIdentity, quote_call_result, sigrl_size, Quote, QuoteVerifier, SGX_ERROR_BUSY, SGX_QUOTE_SIZE, SGX_SUCCESS};
use occlum::util::ring_buf::{read_after_wait, read_step, write_after_wait, write_step, IoEvent, ReadStep, RingBufMeta, WriteStep, POLLIN, POLLOUT};
use occlum::util::sync::{
    keep_spinning, read_wait_word, try_read_transition, try_write_transition, unlock_transition, unlock_wakes, waiter_word,
    write_wait_word, MAX_READERS, WRITER_HELD,
};
use occlum::util::untrusted_slice::claim_slice;
use occlum::vm_range::VMRange;
use occlum::Errno;

#[test]
fn dirty_flag_follows_mutable_access() {
    let mut d = Dirty::new(5u32);
    assert!(!d.dirty());
    assert_eq!(*d.as_ref(), 5);
    assert!(!d.dirty());
    *d.as_mut() = 6;
    assert!(d.dirty());
    d.clear_dirty();
    assert!(!d.dirty());
    d.set_dirty();
    assert!(d.dirty());
    assert_eq!(d.unwrap(), 6);
}

#[test]
fn rwlock_word_transitions() {
    assert_eq!(try_read_transition(0), Ok(1));
    assert_eq!(try_read_transition(5), Ok(6));
    assert_eq!(try_read_transition(WRITER_HELD), Err(Errno::EBUSY));
    assert_eq!(try_read_transition(MAX_READERS), Err(Errno::EAGAIN));
    assert_eq!(try_write_transition(0), Ok(WRITER_HELD));
    assert_eq!(try_write_transition(1), Err(Errno::EBUSY));
    // A write unlock clears the word and wakes waiters when there are any.
    assert_eq!(unlock_transition(WRITER_HELD, 0), (0, None));
    assert_eq!(unlock_transition(WRITER_HELD, 2), (0, Some(WRITER_HELD)));
    let waiting_writer = waiter_word(WRITER_HELD);
    assert!(waiting_writer < 0);
    assert_eq!(unlock_transition(waiting_writer, 0), (0, Some(WRITER_HELD)));
    // Read unlocks count down and wake only at the last reader.
    assert_eq!(unlock_transition(3, 1), (2, None));
    assert_eq!(unlock_transition(1, 1), (0, Some(1)));
    assert_eq!(unlock_transition(1, 0), (0, None));
    assert_eq!(read_wait_word(3), None);
    assert_eq!(read_wait_word(WRITER_HELD), Some(waiting_writer));
    assert_eq!(write_wait_word(0), None);
    assert_eq!(write_wait_word(2), Some(waiter_word(2)));
    assert!(keep_spinning(10, 1, 0));
    assert!(!keep_spinning(0, 1, 0));
    assert!(!keep_spinning(10, 1, 1));
    assert!(unlock_wakes(2));
    assert!(!unlock_wakes(1));
}

#[test]
fn read_lock_then_unlock_restores_word() {
    for val in [0i32, 1, 7, 1000] {
        let locked = try_read_transition(val).unwrap();
        assert_eq!(unlock_transition(locked, 0).0, val);
    }
    let held = try_write_transition(0).unwrap();
    assert_eq!(unlock_transition(held, 0).0, 0);
}

#[test]
fn ring_buffer_steps() {
    assert_eq!(read_step(true, true, true), Ok(ReadStep::Pop));
    assert_eq!(read_step(false, true, true), Ok(ReadStep::EndOfFile));
    assert_eq!(read_step(false, false, false), Err(Errno::EAGAIN));
    assert_eq!(read_step(false, false, true), Ok(ReadStep::Wait));
    assert_eq!(write_step(true, true, true), Err(Errno::EPIPE));
    assert_eq!(write_step(true, false, true), Ok(WriteStep::Push));
    assert_eq!(write_step(false, false, false), Err(Errno::EAGAIN));
    assert_eq!(write_step(false, false, true), Ok(WriteStep::Wait));
    assert_eq!(read_after_wait(0), Ok(0));
    assert_eq!(write_after_wait(0), Err(Errno::EPIPE));
    assert_eq!(write_after_wait(4), Ok(4));
}

#[test]
fn ring_buffer_wait_queues() {
    let mut m = RingBufMeta::new();
    assert!(m.blocking_read() && m.blocking_write());
    m.set_non_blocking_read();
    assert!(!m.blocking_read() && m.blocking_write());
    m.enqueue_reader_event(1, IoEvent::BlockingRead).unwrap();
    m.enqueue_reader_event(2, IoEvent::Poll(POLLOUT)).unwrap();
    m.enqueue_reader_event(3, IoEvent::Poll(POLLIN)).unwrap();
    m.enqueue_writer_event(4, IoEvent::BlockingWrite).unwrap();
    let mut woken = m.readers_to_wake_after_write();
    woken.sort();
    assert_eq!(woken, vec![1, 3]);
    let mut all = m.readers_to_wake_on_writer_drop();
    all.sort();
    assert_eq!(all, vec![1, 2, 3]);
    assert_eq!(m.writers_to_wake_after_read(), vec![4]);
    m.dequeue_reader_event(1).unwrap();
    assert_eq!(m.reader_wait_queue().len(), 2);
    m.dequeue_writer_event(4).unwrap();
    assert!(m.writers_to_wake_on_reader_drop().is_empty());
    m.close_writer();
    assert!(m.is_writer_closed() && !m.is_reader_closed());
}

#[test]
fn user_pointer_checks() {
    let user = VMRange { start: 0x10000, end: 0x20000 };
    assert!(is_inside_user_space(&user, 0x10000, 0x10000));
    assert!(!is_inside_user_space(&user, 0x10000, 0x10001));
    assert!(!is_inside_user_space(&user, 0x20000, 0));
    assert_eq!(check_ptr(&user, 0x1ff00, 0x100), Ok(()));
    assert_eq!(check_mut_ptr(&user, 0x8000, 0x10), Err(Errno::EFAULT));
    assert_eq!(check_array(&user, 0x10000, 0x100, 0x10), Ok(()));
    assert_eq!(check_array(&user, 0x10000, 0x1001, 0x10), Err(Errno::EFAULT));
    assert_eq!(check_array(&user, 0x10000, usize::MAX, 2), Err(Errno::EINVAL));
}

#[test]
fn small_helpers() {
    assert_eq!(mpx_bndmk(MpxReg::BND1, 0x1000, 0x20), Ok((MpxReg::BND1, 0x1000, 0x20)));
    assert_eq!(mpx_bndmk(MpxReg::BND0, usize::MAX, 1), Err(Errno::ERANGE));
    assert_eq!(claim_slice(4, 8, 16), Ok((4, 12)));
    assert_eq!(claim_slice(10, 8, 16), Err(Errno::ENOMEM));
    assert_eq!(claim_slice(usize::MAX, 1, 16), Err(Errno::ENOMEM));
    assert_eq!(ObjectId::new_with(42).unwrap().get(), 42);
    assert!(ObjectId::new_with(MAX_OBJECT_ID + 1).is_none());
    assert_eq!(ObjectId::null().get(), 0);
    assert!(ObjectId::new_with(0).is_none());
    assert_eq!(ObjectId::new_with(1).unwrap().get(), 1);
    assert_ne!(ObjectId::new_with(1).unwrap(), ObjectId::null());
    assert_eq!(ObjectId::new_with(7), ObjectId::new_with(7));
}

#[test]
fn dirty_flag_after_a_run_of_calls() {
    let mut d = Dirty::new(vec![1u8]);
    d.as_mut().push(2);
    let _ = d.as_ref();
    assert!(d.dirty());
    d.clear_dirty();
    let _ = d.as_ref();
    assert!(!d.dirty());
    d.set_dirty();
    let _ = d.as_ref();
    assert!(d.dirty());
    assert_eq!(d.unwrap(), vec![1u8, 2]);
}

fn quote_bytes(signature_len: u32, extra: usize) -> Vec<u8> {
    let mut b = vec![7u8; SGX_QUOTE_SIZE + signature_len as usize + extra];
    b[432..436].copy_from_slice(&signature_len.to_le_bytes());
    b
}

#[test]
fn quote_length_and_hash_checks() {
    let raw = quote_bytes(0x20, 5);
    let buf = Quote::new_buf(&raw).unwrap();
    assert_eq!(buf.len(), SGX_QUOTE_SIZE + 0x20);
    assert_eq!(Quote::new_buf(&raw[..100]), Err(Errno::EINVAL));
    assert_eq!(Quote::new_buf(&quote_bytes(0x20, 0)[..SGX_QUOTE_SIZE + 0x10]), Err(Errno::EINVAL));
    let hash = [9u8; 32];
    let mut report_data = [9u8; 64];
    let q = Quote::new(&raw, &report_data, &hash).unwrap();
    assert_eq!(q.get_size(), SGX_QUOTE_SIZE + 0x20);
    assert_eq!(q.get_signature().len(), 0x20);
    let mut dst = vec![0u8; 600];
    assert_eq!(q.dump_to_buf(&mut dst), Ok(()));
    assert_eq!(&dst[..buf.len()], &buf[..]);
    assert_eq!(dst[buf.len()], 0);
    let mut small = vec![0u8; 10];
    assert_eq!(q.dump_to_buf(&mut small), Err(Errno::EINVAL));
    report_data[3] = 0;
    assert_eq!(Quote::new(&raw, &report_data, &hash).err(), Some(Errno::EINVAL));
    assert_eq!(Quote::new(&raw[..100], &[9u8; 64], &hash).err(), Some(Errno::EINVAL));
    assert!(QuoteVerifier::from_supplement_size(false, 10).is_none());
    assert!(QuoteVerifier::from_supplement_size(true, 0).is_none());
    assert_eq!(QuoteVerifier::from_supplement_size(true, 10).unwrap().get_supplemental_data_size(), 10);
}

#[test]
fn hosts_file_parsing() {
    let text = b"# comment\n127.0.0.1 localhost\n\n  ::1\tip6-localhost ip6-loopback\n";
    let firsts = hosts_first_words(text);
    assert_eq!(firsts, vec!["127.0.0.1".to_string(), "::1".to_string()]);
    let hosts = parse_hosts_buffer(text, &[true, true]).unwrap();
    assert_eq!(hosts.entries.len(), 2);
    assert_eq!(hosts.entries[0].ip(), "127.0.0.1");
    assert_eq!(hosts.entries[0].hostname(), &vec!["localhost".to_string()]);
    assert_eq!(hosts.entries[1].ip(), "::1");
    assert_eq!(hosts.entries[1].hostname(), &vec!["ip6-localhost".to_string(), "ip6-loopback".to_string()]);
    assert_eq!(parse_hosts_buffer(text, &[true, false]).err(), Some(Errno::EINVAL));
    assert_eq!(parse_hosts_buffer(b"10.0.0.1\n", &[true]).err(), Some(Errno::EINVAL));
    assert_eq!(parse_hosts_buffer(b"10.0.0.1 bad_name!\n", &[true]).err(), Some(Errno::EINVAL));
}

#[test]
fn host_entry_from_line() {
    let e = HostEntry::from_str("192.168.1.1 my-host.example.com other", true).unwrap();
    assert_eq!(e.ip(), "192.168.1.1");
    assert_eq!(e.hostname().len(), 2);
    assert_eq!(HostEntry::from_str("192.168.1.1 -bad", true).err(), Some(Errno::EINVAL));
    assert_eq!(HostEntry::first_word("  1.2.3.4 x"), "1.2.3.4");
    assert_eq!(HostEntry::first_word("   "), "");
}

#[test]
fn hostname_file_parsing() {
    assert_eq!(parse_hostname_buffer(b"# name\nocclum-node\n"), Ok("occlum-node".to_string()));
    assert_eq!(parse_hostname_buffer(b"a\nb\n"), Err(Errno::EINVAL));
    assert_eq!(parse_hostname_buffer(b"\n"), Err(Errno::EINVAL));
    assert_eq!(parse_hostname_buffer(b"bad_name\n"), Err(Errno::EINVAL));
    let long = format!("{}\n", "a".repeat(65));
    assert_eq!(parse_hostname_buffer(long.as_bytes()), Err(Errno::EINVAL));
}

#[test]
fn whitespace_agrees_with_char_is_whitespace() {
    for u in 0u32..0x3100 {
        let c = match char::from_u32(u) {
            Some(c) => c,
            None => continue,
        };
        let line = format!("{c}x{c}y");
        let expected = if c.is_whitespace() { "x".to_string() } else { line.clone() };
        assert_eq!(HostEntry::first_word(&line), expected, "at U+{:04X}", u);
    }
}

#[test]
fn quote_call_decisions() {
    assert_eq!(sigrl_size(None), Ok(0));
    assert_eq!(sigrl_size(Some(0x80)), Ok(0x80));
    assert_eq!(sigrl_size(Some(u32::MAX as usize)), Ok(u32::MAX));
    assert_eq!(sigrl_size(Some(u32::MAX as usize + 1)), Err(Errno::EINVAL));
    assert_eq!(quote_call_result(SGX_SUCCESS), Ok(()));
    assert_eq!(quote_call_result(SGX_ERROR_BUSY), Err(Errno::EBUSY));
    assert_eq!(quote_call_result(1), Err(Errno::EINVAL));
}

#[test]
fn resolv_conf_checks() {
    let good = b"# resolver\nnameserver 8.8.8.8\nsearch example.com\n";
    assert_eq!(parse_resolv_conf(good), Ok(String::from("# resolver\nnameserver 8.8.8.8\nsearch example.com\n")));
    assert_eq!(parse_resolv_conf(b"nameserver\n"), Err(Errno::EINVAL));
    assert_eq!(parse_resolv_conf(b"nameserver not-an-address\n"), Err(Errno::EINVAL));
    assert_eq!(parse_resolv_conf(&[0x6e, 0xff, 0x0a]), Err(Errno::EINVAL));
    assert_eq!(resolv_conf_text(b"nameserver 1.1.1.1", true), Ok(String::from("nameserver 1.1.1.1")));
    assert_eq!(resolv_conf_text(b"nameserver 1.1.1.1", false), Err(Errno::EINVAL));
    assert_eq!(resolv_conf_text(&[0xff], true), Err(Errno::EINVAL));
}

#[test]
fn host_file_checks_by_kind() {
    let hosts = b"127.0.0.1 localhost\n# comment\n10.0.0.2 db db.local\n";
    let text = String::from_utf8(hosts.to_vec()).unwrap();
    assert_eq!(parse_host_file(HostFile::Hosts, hosts, &[true, true]), Ok(text));
    assert_eq!(parse_host_file(HostFile::Hosts, hosts, &[true, false]), Err(Errno::EINVAL));
    assert_eq!(parse_host_file(HostFile::Hosts, hosts, &[true]), Err(Errno::EINVAL));
    assert_eq!(parse_host_file(HostFile::Hosts, b"127.0.0.1 bad_name!\n", &[true]), Err(Errno::EINVAL));
    assert_eq!(parse_host_file(HostFile::HostName, b"myhost\n", &[]), Ok(String::from("myhost")));
    assert_eq!(parse_host_file(HostFile::HostName, b"a\nb\n", &[]), Err(Errno::EINVAL));
    assert_eq!(parse_host_file(HostFile::ResolvConf, b"nameserver 8.8.8.8\n", &[]), Ok(String::from("nameserver 8.8.8.8\n")));
    assert_eq!(parse_host_file(HostFile::ResolvConf, b"nameserver\n", &[]), Err(Errno::EINVAL));
    assert_eq!(parse_host_file(HostFile::HostName, &[0x61, 0xc3], &[]), Err(Errno::EINVAL));
    assert!(lines_are_utf8(b"ab\ncd"));
    assert!(!lines_are_utf8(&[0x61, 0x0a, 0xff, 0x0a]));
}

#[test]
fn host_entry_from_checked_words() {
    let e = HostEntry::from_words("10.0.0.1 a b", true, &[true, true]).unwrap();
    assert_eq!(e.ip(), "10.0.0.1");
    assert_eq!(e.hostname().clone(), vec![String::from("a"), String::from("b")]);
    assert_eq!(HostEntry::from_words("10.0.0.1 a b", true, &[true, false]).err(), Some(Errno::EINVAL));
    assert_eq!(HostEntry::from_words("10.0.0.1 a b", false, &[true, true]).err(), Some(Errno::EINVAL));
    assert_eq!(HostEntry::from_words("10.0.0.1", true, &[]).err(), Some(Errno::EINVAL));
    assert_eq!(HostEntry::from_words("10.0.0.1 a", true, &[true, true]).err(), Some(Errno::EINVAL));
    assert!(hostname_check_result(Some(true)));
    assert!(!hostname_check_result(Some(false)));
    assert!(!hostname_check_result(None));
}

#[test]
fn dirty_clone_keeps_the_flag() {
    let mut d = Dirty::new(vec![3u8]);
    let c = d.clone();
    assert!(!c.dirty());
    d.as_mut().push(4);
    let e = d.clone();
    assert!(e.dirty());
    assert_eq!(e.unwrap(), vec![3u8, 4]);
}

#[test]
fn quoting_enclave_platform_check() {
    let target = EnclaveIdentity { mr_enclave: [5u8; 32], flags: 0x7, xfrm: 0x3 };
    assert_eq!(validate_platform(&target, &target.clone()), Ok(()));
    let mut other = target;
    other.mr_enclave[31] = 6;
    assert_eq!(validate_platform(&target, &other), Err(Errno::EINVAL));
    let mut other = target;
    other.flags = 0x5;
    assert_eq!(validate_platform(&target, &other), Err(Errno::EINVAL));
    let mut other = target;
    other.xfrm = 0x1;
    assert_eq!(validate_platform(&target, &other), Err(Errno::EINVAL));
}
