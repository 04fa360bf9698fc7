use protohackers::means_to_an_end_server::{
    decode_i32, encode_i32, MessageOutcome, PriceStore, Request,
};

#[test]
fn sample_test() {
    let msg: [u8; 9] = [0x49, 0x00, 0x00, 0x30, 0x39, 0x00, 0x00, 0x00, 0x65];
    let req = Request::from_message(&msg);
    assert_eq!(req.char, 'I');
    assert_eq!(req.data1, 12345);
    assert_eq!(req.data2, 101);
}

#[test]
fn decodes_readme_session() {
    let msgs: [[u8; 9]; 5] = [
        [0x49, 0x00, 0x00, 0x30, 0x39, 0x00, 0x00, 0x00, 0x65],
        [0x49, 0x00, 0x00, 0x30, 0x3a, 0x00, 0x00, 0x00, 0x66],
        [0x49, 0x00, 0x00, 0x30, 0x3b, 0x00, 0x00, 0x00, 0x64],
        [0x49, 0x00, 0x00, 0xa0, 0x00, 0x00, 0x00, 0x00, 0x05],
        [0x51, 0x00, 0x00, 0x30, 0x00, 0x00, 0x00, 0x40, 0x00],
    ];
    let expected = [('I', 12345, 101), ('I', 12346, 102), ('I', 12347, 100), ('I', 40960, 5), ('Q', 12288, 16384)];
    for (msg, (c, a, b)) in msgs.iter().zip(expected.iter()) {
        let req = Request::from_message(msg);
        assert_eq!((req.char, req.data1, req.data2), (*c, *a, *b));
    }
    assert_eq!(decode_i32(0x00, 0x00, 0x13, 0xf3), 5107);
}

#[test]
fn decodes_negative_and_extreme_values() {
    assert_eq!(decode_i32(0xff, 0xff, 0xff, 0xff), -1);
    assert_eq!(decode_i32(0x80, 0x00, 0x00, 0x00), i32::MIN);
    assert_eq!(decode_i32(0x7f, 0xff, 0xff, 0xff), i32::MAX);
    for v in [0i32, 1, -1, 5107, -5107, i32::MIN, i32::MAX, 0x1234_5678, -0x1234_5678] {
        let b = v.to_be_bytes();
        assert_eq!(decode_i32(b[0], b[1], b[2], b[3]), v);
    }
    let msg: [u8; 9] = [0xe9, 0xff, 0xff, 0xff, 0xfe, 0x80, 0, 0, 1];
    let req = Request::from_message(&msg);
    assert_eq!(req.char as u32, 0xe9);
    assert_eq!(req.data1, -2);
    assert_eq!(req.data2, i32::MIN + 1);
}

#[test]
fn readme_session_answers_101() {
    let msgs: [[u8; 9]; 5] = [
        [0x49, 0x00, 0x00, 0x30, 0x39, 0x00, 0x00, 0x00, 0x65],
        [0x49, 0x00, 0x00, 0x30, 0x3a, 0x00, 0x00, 0x00, 0x66],
        [0x49, 0x00, 0x00, 0x30, 0x3b, 0x00, 0x00, 0x00, 0x64],
        [0x49, 0x00, 0x00, 0xa0, 0x00, 0x00, 0x00, 0x00, 0x05],
        [0x51, 0x00, 0x00, 0x30, 0x00, 0x00, 0x00, 0x40, 0x00],
    ];
    let mut store = PriceStore::new();
    let mut sent = Vec::new();
    for msg in msgs.iter() {
        match store.handle(&Request::from_message(msg)) {
            MessageOutcome::Inserted => {}
            MessageOutcome::Answer(mean) => sent.extend_from_slice(&encode_i32(mean)),
            MessageOutcome::Invalid => panic!("valid message refused"),
        }
    }
    assert_eq!(sent, vec![0x00, 0x00, 0x00, 0x65]);
}

#[test]
fn query_without_samples_or_reversed_range_is_zero() {
    let mut store = PriceStore::new();
    assert_eq!(store.query(0, 100), 0);
    store.insert(50, 7);
    assert_eq!(store.query(60, 100), 0);
    assert_eq!(store.query(100, 0), 0);
    assert_eq!(store.query(50, 50), 7);
    assert_eq!(store.query(i32::MIN, i32::MAX), 7);
}

#[test]
fn query_rounds_down_and_handles_extremes() {
    let mut store = PriceStore::new();
    store.insert(1, -1);
    store.insert(2, -2);
    assert_eq!(store.query(1, 2), -2);
    store.insert(3, 4);
    assert_eq!(store.query(1, 3), 0);
    let mut store = PriceStore::new();
    store.insert(1, i32::MAX);
    store.insert(2, i32::MAX);
    store.insert(3, i32::MAX - 1);
    assert_eq!(store.query(1, 3), i32::MAX - 1);
    let mut store = PriceStore::new();
    store.insert(-5, i32::MIN);
    store.insert(5, i32::MIN);
    assert_eq!(store.query(-10, 10), i32::MIN);
}

#[test]
fn invalid_message_type_is_refused() {
    let mut store = PriceStore::new();
    let req = Request::from_message(&[0x58, 0, 0, 0, 1, 0, 0, 0, 2]);
    assert_eq!(store.handle(&req), MessageOutcome::Invalid);
    assert_eq!(store.query(i32::MIN, i32::MAX), 0);
}

#[test]
fn encode_i32_is_big_endian_twos_complement() {
    assert_eq!(encode_i32(5107), [0x00, 0x00, 0x13, 0xf3]);
    assert_eq!(encode_i32(-1), [0xff, 0xff, 0xff, 0xff]);
    for v in [0i32, 101, -2, i32::MIN, i32::MAX, 0x1234_5678] {
        let b = encode_i32(v);
        assert_eq!(b, v.to_be_bytes());
        assert_eq!(decode_i32(b[0], b[1], b[2], b[3]), v);
    }
}

#[test]
fn query_answer_does_not_depend_on_insert_order() {
    let inserts = [(12345, 101), (12346, 102), (12347, 100), (40960, 5), (-7, -50)];
    let mut forward = PriceStore::new();
    for &(t, p) in inserts.iter() {
        forward.insert(t, p);
    }
    let mut backward = PriceStore::new();
    for &(t, p) in inserts.iter().rev() {
        backward.insert(t, p);
    }
    for &(lo, hi) in [(12288, 16384), (i32::MIN, i32::MAX), (-10, 0), (50000, 60000)].iter() {
        assert_eq!(forward.query(lo, hi), backward.query(lo, hi));
    }
    assert_eq!(forward.query(12288, 16384), 101);
}
