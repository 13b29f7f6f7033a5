use tango_bridge::zxh::{read_zxh_frame, ZxhError, ZxhProgress, ZxhReader, ZxhVersion, MAX_PAYLOAD};

fn version_one(timestamp_us: u64, announced: u32, payload: &[u8]) -> Vec<u8> {
    let mut out = b"ZXH1".to_vec();
    out.extend_from_slice(&[9, 9, 9, 9]);
    out.extend_from_slice(&timestamp_us.to_be_bytes());
    out.extend_from_slice(&announced.to_be_bytes());
    out.extend_from_slice(payload);
    out
}

fn version_two(timestamp_us: u64, announced: u32, payload: &[u8]) -> Vec<u8> {
    let mut out = b"ZXH2".to_vec();
    out.extend_from_slice(&[7; 12]);
    out.extend_from_slice(&timestamp_us.to_be_bytes());
    out.extend_from_slice(&[8; 24]);
    out.extend_from_slice(&announced.to_be_bytes());
    out.extend_from_slice(payload);
    out
}

#[test]
fn version_one_frame_is_read() {
    let stream = version_one(0x0102030405060708, 3, b"abc");
    let (frame, used) = read_zxh_frame(&stream).unwrap().unwrap();
    assert_eq!(frame.timestamp_us, 0x0102030405060708);
    assert_eq!(frame.payload, b"abc".to_vec());
    assert_eq!(used, 23);
}

#[test]
fn version_two_frame_is_read() {
    let stream = version_two(u64::MAX, 5, b"hello");
    let (frame, used) = read_zxh_frame(&stream).unwrap().unwrap();
    assert_eq!(frame.timestamp_us, u64::MAX);
    assert_eq!(frame.payload, b"hello".to_vec());
    assert_eq!(used, 57);
}

#[test]
fn bytes_after_a_frame_do_not_matter() {
    let mut stream = version_two(17, 2, b"xy");
    stream.extend_from_slice(b"garbage");
    let (frame, used) = read_zxh_frame(&stream).unwrap().unwrap();
    assert_eq!(frame.payload, b"xy".to_vec());
    assert_eq!(used, 54);
    let rest = stream[used..].to_vec();
    assert_eq!(rest, b"garbage".to_vec());
}

#[test]
fn frames_follow_one_another() {
    let mut stream = version_one(1, 1, b"a");
    stream.extend_from_slice(&version_two(2, 1, b"b"));
    let (first, used) = read_zxh_frame(&stream).unwrap().unwrap();
    let rest = stream[used..].to_vec();
    let (second, end) = read_zxh_frame(&rest).unwrap().unwrap();
    assert_eq!((first.timestamp_us, second.timestamp_us), (1, 2));
    assert_eq!(end, rest.len());
}

#[test]
fn stream_may_end_inside_the_magic() {
    assert!(read_zxh_frame(&Vec::new()).unwrap().is_none());
    assert!(read_zxh_frame(&b"ZXH".to_vec()).unwrap().is_none());
    assert!(read_zxh_frame(&b"abc".to_vec()).unwrap().is_none());
}

#[test]
fn stream_may_not_end_later() {
    let whole = version_one(1, 3, b"abc");
    for n in 4..whole.len() {
        let cut = whole[..n].to_vec();
        assert_eq!(read_zxh_frame(&cut).unwrap_err(), ZxhError::Truncated);
    }
}

#[test]
fn magic_and_version_are_checked() {
    let mut stream = version_one(1, 1, b"a");
    stream[0] = b'z';
    assert_eq!(read_zxh_frame(&stream).unwrap_err(), ZxhError::BadMagic);
    let mut stream = version_one(1, 1, b"a");
    stream[3] = b'3';
    assert_eq!(read_zxh_frame(&stream).unwrap_err(), ZxhError::BadVersion);
}

#[test]
fn payload_length_is_bounded() {
    assert_eq!(MAX_PAYLOAD, 4 * 1024 * 1024);
    let stream = version_one(1, 0, b"");
    assert_eq!(read_zxh_frame(&stream).unwrap_err(), ZxhError::BadPayloadLen);
    let stream = version_two(1, MAX_PAYLOAD + 1, b"");
    assert_eq!(read_zxh_frame(&stream).unwrap_err(), ZxhError::BadPayloadLen);
    let stream = version_two(1, MAX_PAYLOAD, b"");
    assert_eq!(read_zxh_frame(&stream).unwrap_err(), ZxhError::Truncated);
    let payload = vec![1u8; MAX_PAYLOAD as usize];
    let stream = version_two(1, MAX_PAYLOAD, &payload);
    let (frame, _) = read_zxh_frame(&stream).unwrap().unwrap();
    assert_eq!(frame.payload, payload);
}

#[test]
fn reader_asks_for_what_it_needs() {
    let reader = ZxhReader::Magic;
    assert_eq!(reader.wanted(), 4);
    assert!(reader.end_of_stream().is_ok());
    let reader = match reader.feed(b"ZXH2".to_vec()) {
        Ok(ZxhProgress::More(next)) => next,
        _ => panic!("no header"),
    };
    assert_eq!(reader, ZxhReader::Header(ZxhVersion::Two));
    assert_eq!(reader.wanted(), 48);
    assert_eq!(reader.end_of_stream(), Err(ZxhError::Truncated));
    let header = version_two(5, 2, b"")[4..].to_vec();
    let reader = match reader.feed(header) {
        Ok(ZxhProgress::More(next)) => next,
        _ => panic!("no payload"),
    };
    assert_eq!(reader, ZxhReader::Payload { timestamp_us: 5, len: 2 });
    assert_eq!(reader.wanted(), 2);
    assert_eq!(reader.end_of_stream(), Err(ZxhError::Truncated));
    match reader.feed(b"ok".to_vec()) {
        Ok(ZxhProgress::Done(frame)) => {
            assert_eq!(frame.timestamp_us, 5);
            assert_eq!(frame.payload, b"ok".to_vec());
        }
        _ => panic!("no frame"),
    }
    assert_eq!(ZxhReader::Header(ZxhVersion::One).wanted(), 16);
}
