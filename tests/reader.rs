use comp_io::{FracStep, IntParse, IntStep, Reader, CHUNK};

#[test]
fn test_reader_from_str() {
    let reader = Reader::from_str("-4.1");

    assert_eq!(reader.buffer(), vec![45, 52, 46, 49]);
    assert_eq!(reader.index(), 0);
    assert_eq!(reader.len(), 4);
}

#[test]
fn test_next_char() {
    let mut reader = Reader::from_str("ab cd");
    assert_eq!(reader.next_char().unwrap(), 'a');
    assert_eq!(reader.next_char().unwrap(), 'b');
    assert_eq!(reader.next_char().unwrap(), ' ');
    assert_eq!(reader.next_char().unwrap(), 'c');
    assert_eq!(reader.next_char().unwrap(), 'd');
}

#[test]
fn test_next_pair() {
    let mut reader = Reader::from_str("23 32\n12 -34 57 97\n-12 3");
    assert_eq!(reader.next_pair().unwrap(), (23, 32));
    assert_eq!(reader.next_pair().unwrap(), (12, -34));
    assert_eq!(reader.next_pair().unwrap(), (57, 97));
    assert_eq!(reader.next_pair().unwrap(), (-12, 3));
}

#[test]
fn test_next_usize() {
    let mut reader = Reader::from_str("23 32\n12\n34");
    assert_eq!(reader.next_usize().unwrap(), 23);
    assert_eq!(reader.next_usize().unwrap(), 32);
    assert_eq!(reader.next_usize().unwrap(), 12);
    assert_eq!(reader.next_usize().unwrap(), 34);
}

#[test]
fn from_str_of_empty_text() {
    let mut reader = Reader::from_str("");
    assert_eq!(reader.len(), 0);
    assert_eq!(reader.index(), 0);
    assert!(!reader.needs_refill());
    assert_eq!(reader.next(), None);
}

#[test]
fn exhaustion_is_permanent() {
    let mut reader = Reader::from_str("7");
    assert_eq!(reader.next_i32(), Some(7));
    assert_eq!(reader.next_i32(), None);
    assert_eq!(reader.next_i32(), None);
    assert_eq!(reader.next_char(), None);
    assert_eq!(reader.next(), None);
    assert_eq!(reader.next_pair(), None);
    assert_eq!(reader.read_fraction(), Vec::<u8>::new());
    assert_eq!(reader.index(), 1);
}

#[test]
fn bytes_beyond_the_text_are_never_read() {
    let mut reader = Reader::from_str("ab");
    assert_eq!(reader.next(), Some(b'a'));
    assert_eq!(reader.next(), Some(b'b'));
    assert_eq!(reader.next(), None);
    assert_eq!(reader.index(), 2);
}

#[test]
fn integer_round_trip_at_the_extremes() {
    let text = format!("{} {} {} {} {}\n", i32::MIN, i32::MAX, 0, -1, 1000000007);
    let mut reader = Reader::from_str(&text);
    assert_eq!(reader.read_i32(), Some((i32::MIN, b' ' as i32)));
    assert_eq!(reader.read_i32(), Some((i32::MAX, b' ' as i32)));
    assert_eq!(reader.read_i32(), Some((0, b' ' as i32)));
    assert_eq!(reader.read_i32(), Some((-1, b' ' as i32)));
    assert_eq!(reader.read_i32(), Some((1000000007, b'\n' as i32)));
    assert_eq!(reader.read_i32(), None);
}

#[test]
fn signed_zeros_read_as_zero() {
    let mut reader = Reader::from_str("-0 +000 -\n+ 0");
    assert_eq!(reader.next_i32(), Some(0));
    assert_eq!(reader.next_i32(), Some(0));
    assert_eq!(reader.read_i32(), Some((0, b'\n' as i32)));
    assert_eq!(reader.read_i32(), Some((0, b' ' as i32)));
    assert_eq!(reader.next_i32(), Some(0));
}

#[test]
fn terminator_at_end_of_input_is_last_digit() {
    let mut reader = Reader::from_str("-95");
    assert_eq!(reader.read_i32(), Some((-95, b'5' as i32)));
    let mut reader = Reader::from_str("+");
    assert_eq!(reader.read_i32(), Some((0, b'0' as i32)));
}

#[test]
fn unexpected_leading_byte_gives_none() {
    let mut reader = Reader::from_str(" 5 x");
    assert_eq!(reader.next_i32(), None);
    assert_eq!(reader.next_i32(), Some(5));
    assert_eq!(reader.next_u32(), None);
    assert_eq!(reader.index(), 4);
}

#[test]
fn magnitudes_of_negative_numbers() {
    let mut reader = Reader::from_str("-17 -2147483648 42");
    assert_eq!(reader.next_u32(), Some(17));
    assert_eq!(reader.next_u32(), Some(2147483648));
    assert_eq!(reader.next_usize(), Some(42));
}

#[test]
fn overflow_wraps() {
    let mut reader = Reader::from_str("2147483648 4294967297 -2147483649");
    assert_eq!(reader.next_i32(), Some(i32::MIN));
    assert_eq!(reader.next_i32(), Some(1));
    assert_eq!(reader.next_i32(), Some(i32::MAX));
}

#[test]
fn pair_missing_its_second_number() {
    let mut reader = Reader::from_str("5 x9");
    assert_eq!(reader.next_pair(), None);
    assert_eq!(reader.next_i32(), Some(9));
}

#[test]
fn decimal_parts_of_floats() {
    let mut reader = Reader::from_str("-4 45 -754.3 32. 45");
    assert_eq!(reader.read_i32(), Some((-4, b' ' as i32)));
    assert_eq!(reader.read_i32(), Some((45, b' ' as i32)));
    assert_eq!(reader.read_i32(), Some((-754, b'.' as i32)));
    assert_eq!(reader.read_fraction(), b"3".to_vec());
    assert_eq!(reader.read_i32(), Some((32, b'.' as i32)));
    assert_eq!(reader.read_fraction(), Vec::<u8>::new());
    assert_eq!(reader.read_i32(), Some((45, b'5' as i32)));
}

#[test]
fn long_fraction_digits() {
    let mut reader = Reader::from_str("4.323580432456786");
    assert_eq!(reader.read_i32(), Some((4, b'.' as i32)));
    assert_eq!(reader.read_fraction(), b"323580432456786".to_vec());
    assert_eq!(reader.next(), None);
}

fn skip(reader: &mut Reader, n: usize) {
    for _ in 0..n {
        assert!(reader.next().is_some());
    }
}

#[test]
fn new_reader_asks_for_a_chunk_first() {
    let mut reader = Reader::new();
    assert!(reader.needs_refill());
    assert_eq!(reader.next(), None);
    reader.refill(b"12 ".to_vec());
    assert!(!reader.needs_refill());
    assert_eq!(reader.next_i32(), Some(12));
    assert!(!reader.needs_refill());
}

#[test]
fn short_chunk_ends_the_stream() {
    let mut reader = Reader::new();
    reader.refill(vec![b'x'; CHUNK]);
    skip(&mut reader, CHUNK);
    assert!(reader.needs_refill());
    reader.refill(vec![b'y'; CHUNK - 1]);
    skip(&mut reader, CHUNK - 1);
    assert!(!reader.needs_refill());
    assert_eq!(reader.next(), None);
}

#[test]
fn empty_chunk_ends_the_stream() {
    let mut reader = Reader::new();
    reader.refill(Vec::new());
    assert!(!reader.needs_refill());
    assert_eq!(reader.next_char(), None);
    assert_eq!(reader.resume_i32(IntParse::Start), IntStep::Done(None));
}

#[test]
fn integer_across_two_chunks() {
    let mut reader = Reader::new();
    let mut chunk = vec![b'x'; CHUNK];
    chunk[CHUNK - 2] = b'-';
    chunk[CHUNK - 1] = b'1';
    reader.refill(chunk);
    skip(&mut reader, CHUNK - 2);
    let state = match reader.resume_i32(IntParse::Start) {
        IntStep::Pending(state) => state,
        IntStep::Done(o) => panic!("finished early: {:?}", o),
    };
    assert_eq!(state, IntParse::Digits { value: 1, negative: true, last: b'1' });
    assert!(reader.needs_refill());
    reader.refill(b"23 4".to_vec());
    assert_eq!(reader.resume_i32(state), IntStep::Done(Some((-123, b' ' as i32))));
    assert_eq!(reader.resume_i32(IntParse::Start), IntStep::Done(Some((4, b'4' as i32))));
}

#[test]
fn empty_chunk_finishes_a_pending_integer() {
    let mut reader = Reader::new();
    assert_eq!(reader.resume_i32(IntParse::Start), IntStep::Pending(IntParse::Start));
    let mut chunk = vec![b' '; CHUNK];
    chunk[CHUNK - 1] = b'8';
    reader.refill(chunk);
    skip(&mut reader, CHUNK - 1);
    let state = match reader.resume_i32(IntParse::Start) {
        IntStep::Pending(state) => state,
        IntStep::Done(o) => panic!("finished early: {:?}", o),
    };
    reader.refill(Vec::new());
    assert_eq!(reader.resume_i32(state), IntStep::Done(Some((8, b'8' as i32))));
}

#[test]
fn fraction_across_two_chunks() {
    let mut reader = Reader::new();
    let mut chunk = vec![b'x'; CHUNK];
    chunk[CHUNK - 2] = b'2';
    chunk[CHUNK - 1] = b'5';
    reader.refill(chunk);
    skip(&mut reader, CHUNK - 2);
    let digits = match reader.resume_fraction(Vec::new()) {
        FracStep::Pending(d) => d,
        FracStep::Done(d) => panic!("finished early: {:?}", d),
    };
    assert_eq!(digits, b"25".to_vec());
    reader.refill(b"07\n1".to_vec());
    assert_eq!(reader.resume_fraction(digits), FracStep::Done(b"2507".to_vec()));
    assert_eq!(reader.next_i32(), Some(1));
}

#[test]
fn cursor_moves_by_the_bytes_taken() {
    let mut reader = Reader::from_str("x-12 7");
    assert_eq!(reader.next_i32(), None);
    assert_eq!(reader.index(), 1);
    assert_eq!(reader.next_i32(), Some(-12));
    assert_eq!(reader.index(), 5);
    assert_eq!(reader.next_char(), Some('7'));
    assert_eq!(reader.index(), 6);
    assert_eq!(reader.next_i32(), None);
    assert_eq!(reader.index(), 6);
    assert_eq!(reader.len(), 6);
    assert_eq!(reader.buffer(), b"x-12 7".to_vec());
}

#[test]
fn first_byte_after_refill() {
    let mut reader = Reader::new();
    assert_eq!(reader.buffer().len(), 0);
    reader.refill(b"ab".to_vec());
    assert_eq!(reader.next(), Some(b'a'));
    assert_eq!(reader.index(), 1);
    assert_eq!(reader.len(), 2);
    assert_eq!(reader.buffer(), b"ab".to_vec());
}
