#![allow(non_snake_case)]

use evm_extensions::{CodeStream, STOP};

#[test]
fn test_is_valid_opcode_invalidates_bytes_after_PUSHXX_opcodes() {
    let mut stream = CodeStream::new(vec![2, 96, 2, 4]);
    assert_eq!(stream.is_valid_opcode(0), true);
    assert_eq!(stream.is_valid_opcode(1), true);
    assert_eq!(stream.is_valid_opcode(2), false);
    assert_eq!(stream.is_valid_opcode(3), true);
    assert_eq!(stream.is_valid_opcode(4), false);
}

#[test]
fn length_is_byte_count_and_stays() {
    let mut stream = CodeStream::new(vec![1, 2, 3, 0x60, 5]);
    assert_eq!(stream.len(), 5);
    stream.read(2);
    stream.is_valid_opcode(4);
    stream.set_program_counter(9);
    assert_eq!(stream.len(), 5);
    assert_eq!(CodeStream::new(vec![]).len(), 0);
}

#[test]
fn peek_returns_byte_then_stop_at_end() {
    let mut stream = CodeStream::new(vec![0x42, 0x7f]);
    assert_eq!(stream.peek(), 0x42);
    assert_eq!(stream.program_counter(), 0);
    stream.set_program_counter(1);
    assert_eq!(stream.peek(), 0x7f);
    stream.set_program_counter(2);
    assert_eq!(stream.peek(), STOP);
    stream.set_program_counter(100);
    assert_eq!(stream.peek(), 0);
    assert_eq!(CodeStream::new(vec![]).peek(), 0);
}

#[test]
fn read_returns_bytes_and_advances() {
    let mut stream = CodeStream::new(vec![10, 11, 12, 13, 14]);
    assert_eq!(stream.read(0), &[] as &[u8]);
    assert_eq!(stream.program_counter(), 0);
    assert_eq!(stream.read(2), &[10, 11]);
    assert_eq!(stream.program_counter(), 2);
    assert_eq!(stream.read(3), &[12, 13, 14]);
    assert_eq!(stream.program_counter(), 5);
    assert_eq!(stream.peek(), 0);
}

#[test]
fn two_reads_equal_one_combined_read() {
    let bytes = vec![1, 2, 3, 4, 5, 6, 7];
    let mut split = CodeStream::new(bytes.clone());
    split.set_program_counter(1);
    let mut joined: Vec<u8> = split.read(2).to_vec();
    joined.extend_from_slice(split.read(3));
    let mut whole = CodeStream::new(bytes);
    whole.set_program_counter(1);
    assert_eq!(whole.read(5), joined.as_slice());
    assert_eq!(split.program_counter(), whole.program_counter());
}

#[test]
fn get_item_returns_stored_byte() {
    let stream = CodeStream::new(vec![0, 0x60, 0xff]);
    assert_eq!(stream.get_item(0), 0);
    assert_eq!(stream.get_item(1), 0x60);
    assert_eq!(stream.get_item(2), 255);
}

#[test]
fn repeated_query_gives_same_answer() {
    let mut stream = CodeStream::new(vec![0x60, 0x60, 0x01, 0x02]);
    for p in 0..6 {
        let first = stream.is_valid_opcode(p);
        let second = stream.is_valid_opcode(p);
        assert_eq!(first, second);
    }
    let mut fresh = CodeStream::new(vec![0x60, 0x60, 0x01, 0x02]);
    assert_eq!(fresh.is_valid_opcode(2), true);
    assert_eq!(fresh.is_valid_opcode(2), true);
}

#[test]
fn plain_push_operand_is_data() {
    let mut stream = CodeStream::new(vec![0x02, 0x60, 0x02, 0x04]);
    let got: Vec<bool> = (0..4).map(|p| stream.is_valid_opcode(p)).collect();
    assert_eq!(got, vec![true, true, false, true]);
}

#[test]
fn push_of_push_operand_resolves_recursively() {
    let mut stream = CodeStream::new(vec![0x60, 0x60, 0x01]);
    assert_eq!(stream.is_valid_opcode(2), true);
    assert_eq!(stream.is_valid_opcode(1), false);
    assert_eq!(stream.is_valid_opcode(0), true);
    let mut backwards_first = CodeStream::new(vec![0x60, 0x60, 0x01]);
    assert_eq!(backwards_first.is_valid_opcode(1), false);
    assert_eq!(backwards_first.is_valid_opcode(2), true);
}

#[test]
fn positions_past_end_are_never_valid() {
    let mut stream = CodeStream::new(vec![0x01, 0x02]);
    assert_eq!(stream.is_valid_opcode(2), false);
    assert_eq!(stream.is_valid_opcode(3), false);
    assert_eq!(stream.is_valid_opcode(usize::MAX), false);
    assert_eq!(CodeStream::new(vec![]).is_valid_opcode(0), false);
}

#[test]
fn push32_covers_thirty_two_bytes() {
    let mut code = vec![0x7f];
    code.extend(vec![0x01; 32]);
    code.push(0x02);
    let mut stream = CodeStream::new(code);
    assert_eq!(stream.is_valid_opcode(0), true);
    for p in 1..33 {
        assert_eq!(stream.is_valid_opcode(p), false);
    }
    assert_eq!(stream.is_valid_opcode(33), true);
}

#[test]
fn short_push_does_not_reach_far_offset() {
    // push2 at 0 covers 1 and 2 only.
    let mut stream = CodeStream::new(vec![0x61, 0x00, 0x00, 0x05, 0x06]);
    assert_eq!(stream.is_valid_opcode(1), false);
    assert_eq!(stream.is_valid_opcode(2), false);
    assert_eq!(stream.is_valid_opcode(3), true);
    assert_eq!(stream.is_valid_opcode(4), true);
}

#[test]
fn push_hidden_in_operand_does_not_count() {
    // push1 at 0 hides a push2 at 1; offsets 2 and 3 are instructions.
    let mut stream = CodeStream::new(vec![0x60, 0x61, 0x05, 0x06]);
    assert_eq!(stream.is_valid_opcode(3), true);
    assert_eq!(stream.is_valid_opcode(2), true);
    assert_eq!(stream.is_valid_opcode(1), false);
}
