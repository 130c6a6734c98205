use arithmetic_coding::bitmanipulator::BitManipulator;

fn write_all(buffer: &mut BitManipulator, bits: &[u8]) {
    for bit in bits {
        buffer.write_bit(*bit);
    }
}

fn read_n(buffer: &mut BitManipulator, n: usize) -> Vec<u8> {
    let mut bits = Vec::new();
    for _ in 0..n {
        bits.push(buffer.read_next_bit());
    }
    bits
}

#[test]
fn new_buffer_is_empty() {
    let buffer = BitManipulator::new();
    assert_eq!(buffer.buffer, 0);
    assert_eq!(buffer.buffer_size, 0);
    assert_eq!(buffer.output, Vec::<u8>::new());
    assert_eq!(buffer.current_bit, 0);
}

#[test]
fn eight_bits_make_one_byte_most_significant_first() {
    let mut buffer = BitManipulator::new();
    write_all(&mut buffer, &[1, 0, 0, 0, 0, 0, 0]);
    assert_eq!(buffer.output, Vec::<u8>::new());
    assert_eq!(buffer.buffer_size, 7);
    buffer.write_bit(1);
    assert_eq!(buffer.output, vec![0x81]);
    assert_eq!(buffer.buffer_size, 0);
    assert_eq!(buffer.buffer, 0);
}

#[test]
fn flush_pads_the_low_bits_with_zeros() {
    let mut buffer = BitManipulator::new();
    write_all(&mut buffer, &[1, 0, 1]);
    buffer.flush();
    assert_eq!(buffer.output, vec![0b1010_0000]);
    assert_eq!(buffer.buffer_size, 0);
    assert_eq!(buffer.buffer, 0);
    assert_eq!(buffer.current_bit, 0);
}

#[test]
fn write_bit_doubles_the_staging_byte_and_adds_the_bit() {
    let mut buffer = BitManipulator::new();
    buffer.write_bit(1);
    assert_eq!((buffer.buffer, buffer.buffer_size), (1, 1));
    buffer.write_bit(0);
    assert_eq!((buffer.buffer, buffer.buffer_size), (2, 2));
    buffer.write_bit(1);
    assert_eq!((buffer.buffer, buffer.buffer_size), (5, 3));
    write_all(&mut buffer, &[1, 0, 0, 1]);
    assert_eq!((buffer.buffer, buffer.buffer_size), (0b101_1001, 7));
    assert_eq!(buffer.output, Vec::<u8>::new());
    buffer.write_bit(1);
    assert_eq!((buffer.buffer, buffer.buffer_size), (0, 0));
    assert_eq!(buffer.output, vec![0b1011_0011]);
}

#[test]
fn flush_of_three_bits() {
    let mut buffer = BitManipulator::new();
    write_all(&mut buffer, &[0, 1, 1]);
    buffer.flush();
    assert_eq!(buffer.output, vec![0x60]);
    assert_eq!((buffer.buffer, buffer.buffer_size, buffer.current_bit), (0, 0, 0));
}

#[test]
fn flush_of_an_empty_stage_adds_nothing() {
    let mut buffer = BitManipulator::new();
    buffer.flush();
    assert_eq!(buffer.output, Vec::<u8>::new());
    write_all(&mut buffer, &[1, 1, 1, 1, 0, 0, 0, 0]);
    buffer.flush();
    assert_eq!(buffer.output, vec![0xf0]);
}

#[test]
fn second_flush_changes_nothing() {
    let mut once = BitManipulator::new();
    write_all(&mut once, &[0, 1, 1, 0, 1]);
    once.flush();
    let mut twice = BitManipulator::new();
    write_all(&mut twice, &[0, 1, 1, 0, 1]);
    twice.flush();
    twice.flush();
    assert_eq!(once.output, vec![0b0110_1000]);
    assert_eq!(twice.output, once.output);
    assert_eq!(twice.buffer, once.buffer);
    assert_eq!(twice.buffer_size, once.buffer_size);
    assert_eq!(twice.current_bit, once.current_bit);
    assert_eq!((twice.buffer, twice.buffer_size), (0, 0));
}

#[test]
fn full_bytes_are_read_back_then_zeros() {
    let bits: Vec<u8> = vec![1, 0, 1, 1, 0, 0, 1, 0, 0, 1, 1, 1, 1, 0, 0, 1];
    let mut buffer = BitManipulator::new();
    write_all(&mut buffer, &bits);
    assert_eq!(buffer.output, vec![0b1011_0010, 0b0111_1001]);
    assert_eq!(read_n(&mut buffer, 16), bits);
    assert_eq!(read_n(&mut buffer, 10), vec![0; 10]);
    assert_eq!(buffer.current_bit, 16);
}

#[test]
fn flushed_bits_are_read_back_with_their_padding() {
    let bits: Vec<u8> = vec![1, 1, 0, 1, 0, 1, 1, 1, 1, 0, 1];
    let mut buffer = BitManipulator::new();
    write_all(&mut buffer, &bits);
    buffer.flush();
    assert_eq!(buffer.output.len(), 2);
    let mut expected = bits.clone();
    expected.extend_from_slice(&[0, 0, 0, 0, 0, 0, 0, 0, 0]);
    assert_eq!(read_n(&mut buffer, 20), expected);
}

#[test]
fn staged_bits_cannot_be_read_before_their_byte_is_complete() {
    let mut buffer = BitManipulator::new();
    write_all(&mut buffer, &[1, 1, 1]);
    assert_eq!(buffer.read_next_bit(), 0);
    assert_eq!(buffer.current_bit, 0);
}

#[test]
fn read_bit_at_index_counts_from_the_top_of_each_byte() {
    let mut buffer = BitManipulator::new();
    buffer.output = vec![0x80, 0x01];
    assert_eq!(buffer.read_bit_at_index(0), 1);
    assert_eq!(buffer.read_bit_at_index(1), 0);
    assert_eq!(buffer.read_bit_at_index(7), 0);
    assert_eq!(buffer.read_bit_at_index(8), 0);
    assert_eq!(buffer.read_bit_at_index(15), 1);
    assert_eq!(buffer.current_bit, 0);
}

#[test]
fn reading_does_not_disturb_writing() {
    let mut buffer = BitManipulator::new();
    write_all(&mut buffer, &[1, 0, 0, 0, 0, 0, 0, 0, 1, 1]);
    assert_eq!(read_n(&mut buffer, 3), vec![1, 0, 0]);
    write_all(&mut buffer, &[0, 0, 0, 0, 0, 1]);
    assert_eq!(buffer.output, vec![0x80, 0xc1]);
    assert_eq!(read_n(&mut buffer, 13), vec![0, 0, 0, 0, 0, 1, 1, 0, 0, 0, 0, 0, 1]);
}
