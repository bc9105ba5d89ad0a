use iomon::taskstats::{
    delays_from_reply, encode_request, family_id, family_request, find_stats, message_payload,
    nl_errno, parse_delays, read_u16, read_u64, reply_fits, walk_attrs, Delays, Taskstats,
    NLMSG_ERROR, TASKSTATS_TYPE_AGGR_PID, TASKSTATS_TYPE_STATS,
};

fn put_u16(buf: &mut [u8], off: usize, v: u16) {
    buf[off..off + 2].copy_from_slice(&v.to_le_bytes());
}

fn put_u64(buf: &mut [u8], off: usize, v: u64) {
    buf[off..off + 8].copy_from_slice(&v.to_le_bytes());
}

#[test]
fn v14_offsets() {
    let mut stats = vec![0u8; 64];
    put_u16(&mut stats, 0, 8);
    put_u64(&mut stats, 40, 111);
    put_u64(&mut stats, 56, 222);
    let d = parse_delays(&stats).unwrap();
    assert_eq!(d.blkio_ns, 111);
    assert_eq!(d.swapin_ns, 222);
}

#[test]
fn v15_offsets_skip_inserted_minmax() {
    let mut stats = vec![0u8; 96];
    put_u16(&mut stats, 0, 15);
    put_u64(&mut stats, 40, 999);
    put_u64(&mut stats, 56, 111);
    put_u64(&mut stats, 88, 222);
    let d = parse_delays(&stats).unwrap();
    assert_eq!(d.blkio_ns, 111);
    assert_eq!(d.swapin_ns, 222);
}

#[test]
fn rejects_short_or_unknown_version() {
    assert!(parse_delays(&[]).is_none());
    let mut stats = vec![0u8; 64];
    put_u16(&mut stats, 0, 0);
    assert!(parse_delays(&stats).is_none());
    put_u16(&mut stats, 0, 15);
    assert!(parse_delays(&stats).is_none());
}

fn nla(ty: u16, payload: &[u8]) -> Vec<u8> {
    let nla_len = 4 + payload.len();
    let aligned = (nla_len + 3) & !3;
    let mut buf = vec![0u8; aligned];
    buf[0..2].copy_from_slice(&(nla_len as u16).to_le_bytes());
    buf[2..4].copy_from_slice(&ty.to_le_bytes());
    buf[4..4 + payload.len()].copy_from_slice(payload);
    buf
}

fn message(ty: u16, attrs: &[u8]) -> Vec<u8> {
    let total = 20 + attrs.len();
    let mut msg = vec![0u8; total];
    msg[0..4].copy_from_slice(&(total as u32).to_le_bytes());
    msg[4..6].copy_from_slice(&ty.to_le_bytes());
    msg[20..].copy_from_slice(attrs);
    msg
}

#[test]
fn parses_nested_aggr_pid() {
    let mut stats = vec![0u8; 64];
    put_u16(&mut stats, 0, 14);
    put_u64(&mut stats, 40, 50);
    put_u64(&mut stats, 56, 60);
    let inner = {
        let mut v = nla(1, &7u32.to_le_bytes());
        v.extend(nla(TASKSTATS_TYPE_STATS, &stats));
        v
    };
    let attrs = nla(TASKSTATS_TYPE_AGGR_PID, &inner);
    let total = 20 + attrs.len();
    let mut msg = vec![0u8; total];
    msg[0..4].copy_from_slice(&(total as u32).to_le_bytes());
    msg[4..6].copy_from_slice(&20u16.to_le_bytes());
    msg[20..].copy_from_slice(&attrs);
    let d = delays_from_reply(&msg).unwrap();
    assert_eq!(d.blkio_ns, 50);
    assert_eq!(d.swapin_ns, 60);
}

#[test]
fn nlmsg_error_becomes_errno() {
    let mut msg = vec![0u8; 20];
    msg[0..4].copy_from_slice(&20u32.to_le_bytes());
    msg[4..6].copy_from_slice(&NLMSG_ERROR.to_le_bytes());
    msg[16..20].copy_from_slice(&(-1i32).to_le_bytes());
    assert_eq!(delays_from_reply(&msg), Err(1));
}

#[test]
fn malformed_replies_are_invalid() {
    assert_eq!(delays_from_reply(&[]), Err(22));
    assert_eq!(delays_from_reply(&message(20, &[])), Err(22));
    let short = nla(TASKSTATS_TYPE_STATS, &[8, 0, 0]);
    assert_eq!(delays_from_reply(&message(20, &short)), Err(22));
    let mut cut = message(20, &short);
    cut[0] = 19;
    assert!(message_payload(&cut).is_none());
    cut[0] = 22;
    assert_eq!(message_payload(&cut).unwrap().len(), 2);
    cut[0] = 255;
    assert_eq!(message_payload(&cut).unwrap().len(), 8);
}

#[test]
fn errors_without_a_number_are_none() {
    let mut msg = message(NLMSG_ERROR, &[]);
    assert_eq!(nl_errno(&msg), None);
    msg[16..20].copy_from_slice(&(-13i32).to_le_bytes());
    assert_eq!(nl_errno(&msg), Some(13));
    assert!(reply_fits(&msg));
    msg[16..20].copy_from_slice(&i32::MIN.to_le_bytes());
    assert!(!reply_fits(&msg));
    msg[4] = 3;
    assert!(reply_fits(&msg));
    assert_eq!(nl_errno(&msg), None);
}

#[test]
fn attributes_are_walked_in_order() {
    let mut attrs = nla(9, &[1, 2, 3, 4, 5]);
    attrs.extend(nla(0x8001, &[6]));
    attrs.extend(nla(1, &[7, 8, 9]));
    assert_eq!(walk_attrs(&attrs, 1, 2), Some(&[7u8, 8, 9][..]));
    assert_eq!(walk_attrs(&attrs, 1, 0), Some(&[6u8][..]));
    assert_eq!(walk_attrs(&attrs, 2, 0), None);
    assert_eq!(find_stats(&attrs), None);
    let mut broken = nla(3, &[1]);
    broken[0] = 3;
    assert_eq!(find_stats(&broken), None);
    // an empty group does not end the search
    let mut groups = nla(5, &nla(1, &[0; 4]));
    groups.extend(nla(3, &[42]));
    assert_eq!(find_stats(&groups), Some(&[42u8][..]));
}

#[test]
fn numbers_are_read_lowest_byte_first() {
    let b = [1u8, 2, 3, 4, 5, 6, 7, 8, 9];
    assert_eq!(read_u16(&b, 1), Some(0x0302));
    assert_eq!(read_u16(&b, 8), None);
    assert_eq!(read_u64(&b, 1), Some(0x0908_0706_0504_0302));
    assert_eq!(read_u64(&b, 2), None);
}

#[test]
fn requests_hold_what_went_into_them() {
    let req = encode_request(0x1c, 1, 1, &7u32.to_le_bytes(), 5);
    assert_eq!(
        req,
        vec![28, 0, 0, 0, 0x1c, 0, 1, 0, 5, 0, 0, 0, 0, 0, 0, 0, 1, 1, 0, 0, 8, 0, 1, 0, 7, 0, 0, 0]
    );
    let attrs = message_payload(&req).unwrap();
    assert_eq!(walk_attrs(attrs, 1, 4), Some(&[7u8, 0, 0, 0][..]));

    let ask = family_request();
    assert_eq!(ask.len(), 36);
    assert_eq!(&ask[24..34], b"TASKSTATS\0");
    assert_eq!(ask[16], 3);
}

fn family_reply(id: u16) -> Vec<u8> {
    let mut attrs = nla(2, b"TASKSTATS\0");
    attrs.extend(nla(1, &id.to_le_bytes()));
    message(0x10, &attrs)
}

#[test]
fn a_conversation_begins_with_a_family() {
    assert_eq!(family_id(&family_reply(0x1c)), Some(0x1c));
    assert!(Taskstats::open(false, Some(&family_reply(0x1c))).is_none());
    assert!(Taskstats::open(true, None).is_none());
    assert!(Taskstats::open(true, Some(&family_reply(0))).is_none());
    assert!(Taskstats::open(true, Some(&message(0x10, &[]))).is_none());
    assert!(Taskstats::open(true, Some(&family_reply(0x1c))).is_some());
}

#[test]
fn want_of_privilege_ends_the_conversation() {
    let mut stats = vec![0u8; 64];
    put_u16(&mut stats, 0, 14);
    put_u64(&mut stats, 40, 5);
    put_u64(&mut stats, 56, 6);
    let reply = message(0x1c, &nla(TASKSTATS_TYPE_STATS, &stats));

    let mut ts = Taskstats::open(true, Some(&family_reply(0x1c))).unwrap();
    let first = ts.roundtrip(99).unwrap();
    assert_eq!(&first[8..12], &[1, 0, 0, 0]);
    assert_eq!(&first[24..28], &[99, 0, 0, 0]);
    assert_eq!(ts.query(Ok(&reply)), Some(Delays { blkio_ns: 5, swapin_ns: 6 }));
    let second = ts.roundtrip(99).unwrap();
    assert_eq!(&second[8..12], &[2, 0, 0, 0]);
    assert_eq!(ts.query(Err(11)), None);
    assert!(ts.roundtrip(99).is_some());
    assert_eq!(ts.query(Err(1)), None);
    assert!(ts.roundtrip(99).is_none());
    assert_eq!(ts.query(Ok(&reply)), None);

    let mut other = Taskstats::open(true, Some(&family_reply(0x1c))).unwrap();
    let mut refused = message(NLMSG_ERROR, &[]);
    refused[16..20].copy_from_slice(&(-13i32).to_le_bytes());
    assert_eq!(other.query(Ok(&refused)), None);
    assert!(other.roundtrip(1).is_none());
}
