use backshots::counter::MonotonicCounter;
use backshots::record::{convert_did_from_db, convert_did_to_db, parse_at_uri, AtUriError, RecordId};
use backshots::tid::{is_tid, s32decode, s32decode_checked, s32encode};
use backshots::varint::{read_u32, read_u64, write_u32, write_u64};

#[test]
fn s32_encodes_padded_tids() {
    assert_eq!(s32encode(0), "2222222222222");
    assert_eq!(s32encode(1), "2222222222223");
    assert_eq!(s32encode(32), "2222222222232");
    assert_eq!(s32encode(31), "222222222222z");
    assert_eq!(s32decode("3lkpfgi6mck23"), s32decode(&s32encode(s32decode("3lkpfgi6mck23"))));
    assert_eq!(s32encode(s32decode("3lkpfgi6mck23")), "3lkpfgi6mck23");
}

#[test]
fn s32_round_trips_below_two_to_the_63() {
    for n in [0u64, 1, 31, 32, 1_000_000, 1 << 40, (1 << 63) - 1, 123_456_789_012_345] {
        let s = s32encode(n);
        assert!(is_tid(&s));
        assert_eq!(s32decode(&s), n);
    }
}

#[test]
fn s32_decode_values() {
    assert_eq!(s32decode("3"), 1);
    assert_eq!(s32decode("32"), 32);
    assert_eq!(s32decode("z"), 31);
    assert_eq!(s32decode(""), 0);
    assert_eq!(s32decode_checked("zzzzzzzzzzzzz"), None);
    assert_eq!(s32decode_checked("bzzzzzzzzzzzz"), Some((1u64 << 63) - 1));
}

#[test]
fn tid_grammar() {
    assert!(is_tid("3lkpfgi6mck23"));
    assert!(!is_tid("3lkpfgi6mck2"));
    assert!(!is_tid("3lkpfgi6mck231"));
    assert!(!is_tid("3lkaaaa111111"));
    assert!(!is_tid("3LKPFGI6MCK23"));
    assert!(!is_tid("self"));
}

#[test]
fn at_uri_parts() {
    assert_eq!(
        parse_at_uri("at://did:plc:abc/app.bsky.feed.post/3lkpfgi6mck23"),
        Ok(("did:plc:abc", "app.bsky.feed.post", "3lkpfgi6mck23"))
    );
    assert_eq!(
        parse_at_uri("at://did:plc:abc/app.bsky.feed.post/3lk?x=1#frag"),
        Ok(("did:plc:abc", "app.bsky.feed.post", "3lk"))
    );
    assert_eq!(parse_at_uri("at://a/b/c#f?q"), Ok(("a", "b", "c")));
    assert_eq!(parse_at_uri("at://a/b/c/d"), Ok(("a", "b", "c/d")));
    assert_eq!(parse_at_uri("http://a/b/c"), Err(AtUriError::NoRepo));
    assert_eq!(parse_at_uri("at:/"), Err(AtUriError::NoRepo));
    assert_eq!(parse_at_uri("at://did:plc:abc"), Err(AtUriError::NoCollection));
    assert_eq!(parse_at_uri("at://did:plc:abc/app.bsky.feed.post"), Err(AtUriError::NoRkey));
}

#[test]
fn record_id_layout() {
    let r = RecordId::new(0x0102_0304_0506_0708, 0x0a0b_0c0d, 0x1112_1314_1516_1718);
    let mut out = Vec::new();
    r.write_bytes(&mut out);
    assert_eq!(
        out,
        vec![
            0x18, 0x17, 0x16, 0x15, 0x14, 0x13, 0x12, 0x11, 0x0d, 0x0c, 0x0b, 0x0a, 0x08, 0x07,
            0x06, 0x05, 0x04, 0x03, 0x02, 0x01, 0, 0, 0, 0
        ]
    );
    let mut padded = vec![9u8, 9];
    padded.extend_from_slice(&out);
    assert_eq!(RecordId::read_bytes(&padded, 2), r);
    assert!(RecordId::new(5, 5, 1).lt(&RecordId::new(0, 0, 2)));
    assert!(RecordId::new(5, 1, 1).lt(&RecordId::new(0, 2, 1)));
    assert!(RecordId::new(1, 1, 1).lt(&RecordId::new(2, 1, 1)));
    assert!(!RecordId::new(1, 1, 1).lt(&RecordId::new(1, 1, 1)));
}

#[test]
fn varint_bytes() {
    let mut out = Vec::new();
    write_u64(&mut out, 300);
    write_u32(&mut out, 0);
    write_u32(&mut out, 127);
    write_u64(&mut out, u64::MAX);
    assert_eq!(&out[..4], &[0xac, 0x02, 0x00, 0x7f]);
    assert_eq!(out.len(), 4 + 10);
    assert_eq!(read_u64(&out, 0), Some((300, 2)));
    assert_eq!(read_u32(&out, 2), Some((0, 1)));
    assert_eq!(read_u32(&out, 3), Some((127, 1)));
    assert_eq!(read_u64(&out, 4), Some((u64::MAX, 10)));
    assert_eq!(read_u64(&[0x80], 0), None);
}

#[test]
fn did_database_form() {
    assert_eq!(convert_did_to_db(5), 5);
    assert_eq!(convert_did_to_db(5 | (1 << 63)), -5);
    assert_eq!(convert_did_from_db(-5), 5 | (1 << 63));
    assert_eq!(convert_did_from_db(5), 5);
}

#[test]
fn counter_flushes_pending() {
    let mut c = MonotonicCounter::new("backlinks");
    c.add(3);
    c.add(4);
    assert_eq!(c.key_str(), "backlinks");
    assert_eq!(c.flush(), 7);
    assert_eq!(c.flush(), 0);
    c.add(u64::MAX);
    c.add(1);
    assert_eq!(c.flush(), u64::MAX);
}
