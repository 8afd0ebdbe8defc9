use live_datadash::live::{decode, try_decode};

#[test]
fn decodes_comma_separated_numbers() {
    assert_eq!(decode(b"12,34,5\n".to_vec()), vec![12, 34, 5]);
}

#[test]
fn skips_spaces_and_other_bytes() {
    assert_eq!(decode(b"1, 2 ,3\n".to_vec()), vec![1, 2, 3]);
    assert_eq!(decode(b"1a2,x3\n".to_vec()), vec![12, 3]);
}

#[test]
fn stops_at_the_first_newline() {
    assert_eq!(decode(b"7,8\n9,10\n".to_vec()), vec![7, 8]);
}

#[test]
fn reads_to_the_end_without_a_newline() {
    assert_eq!(decode(b"42".to_vec()), vec![42]);
    assert_eq!(decode(Vec::new()), Vec::<i32>::new());
}

#[test]
fn ignores_the_padding_of_a_serial_buffer() {
    let mut buf = b"3,4\n".to_vec();
    buf.extend(vec![0u8; 20]);
    assert_eq!(decode(buf), vec![3, 4]);
}

#[test]
fn fields_without_digits_give_no_number() {
    assert_eq!(decode(b"1,,2\n".to_vec()), vec![1, 2]);
    assert_eq!(decode(b",1\n".to_vec()), vec![1]);
}

#[test]
fn multi_digit_field_after_an_empty_one_fails() {
    assert_eq!(try_decode(&b",12\n".to_vec()), None);
    assert_eq!(try_decode(&b"5,,67\n".to_vec()), None);
}

#[test]
fn numbers_must_fit_an_i32() {
    assert_eq!(try_decode(&b"2147483647\n".to_vec()), Some(vec![2147483647]));
    assert_eq!(try_decode(&b"2147483648\n".to_vec()), None);
}

#[test]
fn a_sent_line_reads_back() {
    let values = vec![0, 7, 2147483647, 65];
    let line: Vec<u8> = format!("{},{},{},{}\n", values[0], values[1], values[2], values[3]).into_bytes();
    assert_eq!(decode(line), values);
}

#[test]
fn text_after_the_newline_does_not_matter() {
    assert_eq!(try_decode(&b"1,2\n,99".to_vec()), try_decode(&b"1,2\n".to_vec()));
}

#[test]
fn skipped_bytes_do_not_change_the_numbers() {
    assert_eq!(decode(b"12,34\n".to_vec()), decode(b"1 2,\r3-4.\n".to_vec()));
}
