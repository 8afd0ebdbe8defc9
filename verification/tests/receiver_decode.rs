use live_datadash::receiver::{decode, packet_count, try_decode, Reading};

fn reading(r: &Reading) -> (Vec<u8>, u32, bool) {
    (r.digits.clone(), r.scale, r.negative)
}

fn readings(p: &Vec<Reading>) -> Vec<(Vec<u8>, u32, bool)> {
    p.iter().map(reading).collect()
}

/// The value the receiver program computes from a reading.
fn value(r: &Reading) -> f32 {
    let mut v: f32 = 0.0;
    for d in &r.digits {
        v = v * 10.0 + *d as f32;
    }
    v /= 10i32.pow(r.scale) as f32;
    if r.negative {
        v *= -1.0;
    }
    v
}

#[test]
fn packet_counts_per_mode() {
    assert_eq!(packet_count(0), 1);
    assert_eq!(packet_count(1), 2);
    assert_eq!(packet_count(2), 9);
    assert_eq!(packet_count(3), 2);
    assert_eq!(packet_count(4), 5);
    assert_eq!(packet_count(-3), 1);
    assert_eq!(packet_count(17), 1);
}

#[test]
fn decodes_signed_decimal_readings() {
    let packets = decode(1, b"1.5,-2.25,3\n4,5\n".to_vec());
    assert_eq!(packets.len(), 2);
    assert_eq!(
        readings(&packets[0]),
        vec![(vec![1, 5], 1, false), (vec![2, 2, 5], 2, true), (vec![3], 0, false)]
    );
    assert_eq!(readings(&packets[1]), vec![(vec![4], 0, false), (vec![5], 0, false)]);
    assert_eq!(value(&packets[0][0]), 1.5);
    assert_eq!(value(&packets[0][1]), -2.25);
}

#[test]
fn last_field_of_a_line_is_not_scaled() {
    let packets = decode(0, b"7,-1.5\n".to_vec());
    assert_eq!(readings(&packets[0]), vec![(vec![7], 0, false), (vec![1, 5], 0, false)]);
    assert_eq!(value(&packets[0][1]), 15.0);
}

#[test]
fn lines_past_the_mode_are_not_read() {
    let packets = decode(0, b"1\n2\n3".to_vec());
    assert_eq!(packets.len(), 1);
    assert_eq!(readings(&packets[0]), vec![(vec![1], 0, false)]);
}

#[test]
fn missing_lines_give_empty_packets() {
    let packets = decode(2, b"8\n".to_vec());
    assert_eq!(packets.len(), 9);
    assert_eq!(readings(&packets[0]), vec![(vec![8], 0, false)]);
    for p in &packets[1..] {
        assert!(p.is_empty());
    }
}

#[test]
fn line_without_digits_gives_no_reading() {
    let packets = decode(1, b"-.\n\n".to_vec());
    assert!(packets[0].is_empty());
    assert!(packets[1].is_empty());
}

#[test]
fn empty_fields_give_zero_readings() {
    let packets = decode(0, b"1,,-,2".to_vec());
    assert_eq!(
        readings(&packets[0]),
        vec![(vec![1], 0, false), (vec![], 0, false), (vec![], 0, true), (vec![2], 0, false)]
    );
    assert_eq!(value(&packets[0][2]), 0.0);
}

#[test]
fn comma_before_any_digit_fails() {
    assert!(try_decode(0, &b",1\n".to_vec()).is_none());
    assert!(try_decode(0, &b"-.,1\n".to_vec()).is_none());
    assert!(try_decode(1, &b"1\n,2\n".to_vec()).is_none());
    assert!(try_decode(0, &b"1\n,2\n".to_vec()).is_some());
}

#[test]
fn closed_field_allows_nine_decimals() {
    assert!(try_decode(0, &b"1.123456789,2".to_vec()).is_some());
    assert!(try_decode(0, &b"1.1234567890,2".to_vec()).is_none());
    assert!(try_decode(0, &b"2,1.1234567890".to_vec()).is_some());
}

#[test]
fn sent_packets_read_back() {
    let packets = decode(1, b"-12.50,3.1,42\n.5,8".to_vec());
    assert_eq!(
        readings(&packets[0]),
        vec![(vec![1, 2, 5, 0], 2, true), (vec![3, 1], 1, false), (vec![4, 2], 0, false)]
    );
    assert_eq!(readings(&packets[1]), vec![(vec![5], 1, false), (vec![8], 0, false)]);
    assert_eq!(value(&packets[0][0]), -12.5);
    assert_eq!(value(&packets[1][0]), 0.5);
}

#[test]
fn skipped_bytes_do_not_change_packets() {
    let plain = decode(1, b"1.5,-2,3\n4,5\n".to_vec());
    let padded = decode(1, b" 1.5 ,\r-2,3\r\n4, 5\n\0\0".to_vec());
    assert_eq!(plain.len(), padded.len());
    for (p, q) in plain.iter().zip(padded.iter()) {
        assert_eq!(readings(p), readings(q));
    }
}
