use health_sync::jump::{continuation_of, decode_jump, encode_jump, JUMP_OPCODE, PATCH_LEN};

#[test]
fn forward_jump_has_the_expected_bytes() {
    // From 0x1000 to 0x2000: the displacement counts from 0x1005.
    assert_eq!(encode_jump(0x1000, 0x2000), vec![0xE9, 0xFB, 0x0F, 0x00, 0x00]);
}

#[test]
fn backward_jump_wraps_around() {
    // From 0x2000 to 0x1000: 0x1000 - 0x2005 = -0x1005.
    assert_eq!(encode_jump(0x2000, 0x1000), vec![0xE9, 0xFB, 0xEF, 0xFF, 0xFF]);
}

#[test]
fn jump_to_the_next_instruction_has_displacement_zero() {
    assert_eq!(encode_jump(0x40_0000, 0x40_0005), vec![0xE9, 0, 0, 0, 0]);
}

#[test]
fn jump_is_exactly_one_patch_long() {
    assert_eq!(encode_jump(7, 0xFFFF_FFF0).len(), PATCH_LEN);
    assert_eq!(encode_jump(7, 0xFFFF_FFF0)[0], JUMP_OPCODE);
}

#[test]
fn decoding_returns_the_destination() {
    for (from, to) in [
        (0x72_8640u32, 0x1000_0000u32),
        (0x1000_0000, 0x72_8645),
        (0, 0xFFFF_FFFF),
        (0xFFFF_FFFE, 3),
        (5, 5),
    ] {
        assert_eq!(decode_jump(from, &encode_jump(from, to)), Some(to));
    }
}

#[test]
fn decoding_refuses_what_is_no_jump() {
    assert_eq!(decode_jump(0x1000, &vec![0x55, 0x8B, 0xEC, 0x83, 0xEC]), None);
    assert_eq!(decode_jump(0x1000, &vec![0xE9, 0, 0, 0]), None);
    assert_eq!(decode_jump(0x1000, &vec![]), None);
}

#[test]
fn decoding_reads_only_the_first_five_bytes() {
    assert_eq!(decode_jump(0x1000, &vec![0xE9, 0xFB, 0x0F, 0x00, 0x00, 0x90, 0x90]), Some(0x2000));
}

#[test]
fn continuation_is_five_bytes_on() {
    assert_eq!(continuation_of(0x72_8640), 0x72_8645);
    assert_eq!(continuation_of(0xFFFF_FFFD), 2);
}
