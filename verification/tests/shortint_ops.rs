use fhe_strings::shortint::{CarryModulus, Ciphertext, MessageModulus, ServerKey, ShortintEngine};

fn key() -> ServerKey {
    ServerKey { message_modulus: MessageModulus(4), carry_modulus: CarryModulus(4) }
}

fn block(payload: u64) -> Ciphertext {
    Ciphertext {
        payload,
        degree: 15,
        message_modulus: MessageModulus(4),
        carry_modulus: CarryModulus(4),
    }
}

#[test]
fn scalar_bitand_masks_the_message() {
    let mut engine = ShortintEngine::new();
    let out = engine.unchecked_scalar_bitand(&key(), &block(3), 2);
    assert_eq!(out.payload, 2);
    assert_eq!(out.degree, 2);
    assert_eq!(out.message_modulus.0, 4);
    assert_eq!(out.carry_modulus.0, 4);
}

#[test]
fn scalar_bitand_drops_the_carry() {
    let mut engine = ShortintEngine::new();
    // 13 = carry 3, message 1
    let out = engine.unchecked_scalar_bitand(&key(), &block(13), 3);
    assert_eq!(out.payload, 1);
    assert_eq!(out.degree, 3);
}

#[test]
fn scalar_bitxor_flips_message_bits() {
    let mut engine = ShortintEngine::new();
    let out = engine.unchecked_scalar_bitxor(&key(), &block(2), 3);
    assert_eq!(out.payload, 1);
    assert_eq!(out.degree, 3);
}

#[test]
fn scalar_bitor_sets_message_bits() {
    let mut engine = ShortintEngine::new();
    let out = engine.unchecked_scalar_bitor(&key(), &block(5), 2);
    assert_eq!(out.payload, 3);
    assert_eq!(out.degree, 3);
}

#[test]
fn assign_forms_change_the_block_in_place() {
    let mut engine = ShortintEngine::new();
    let mut a = block(7);
    engine.unchecked_scalar_bitand_assign(&key(), &mut a, 1);
    assert_eq!(a.payload, 1);
    let mut b = block(7);
    engine.unchecked_scalar_bitxor_assign(&key(), &mut b, 1);
    assert_eq!(b.payload, 2);
    let mut c = block(4);
    engine.unchecked_scalar_bitor_assign(&key(), &mut c, 1);
    assert_eq!(c.payload, 1);
}

#[test]
fn smart_forms_leave_the_operand_alone() {
    let mut engine = ShortintEngine::new();
    let mut a = block(6);
    let and = engine.smart_scalar_bitand(&key(), &mut a, 3);
    let xor = engine.smart_scalar_bitxor(&key(), &mut a, 3);
    let or = engine.smart_scalar_bitor(&key(), &mut a, 1);
    assert_eq!(a.payload, 6);
    assert_eq!(and.payload, 2);
    assert_eq!(xor.payload, 1);
    assert_eq!(or.payload, 3);
    let mut d = block(6);
    engine.smart_scalar_bitand_assign(&key(), &mut d, 2);
    assert_eq!(d.payload, 2);
    let mut e = block(6);
    engine.smart_scalar_bitxor_assign(&key(), &mut e, 2);
    assert_eq!(e.payload, 0);
    let mut f = block(6);
    engine.smart_scalar_bitor_assign(&key(), &mut f, 1);
    assert_eq!(f.payload, 3);
}

#[test]
fn lookup_table_lists_every_payload() {
    let lut = key().generate_lookup_table(|x| x / 2);
    assert_eq!(lut.values.len(), 16);
    assert_eq!(lut.values[7], 3);
    assert_eq!(lut.degree, 7);
    let msg = key().generate_msg_lookup_table(|x| x + 1, MessageModulus(4));
    assert_eq!(msg.values, vec![1, 2, 3, 0, 1, 2, 3, 0, 1, 2, 3, 0, 1, 2, 3, 0]);
    assert_eq!(msg.degree, 3);
}

#[test]
fn scalar_bitxor_ignores_scalar_bits_above_the_message() {
    let mut engine = ShortintEngine::new();
    let out = engine.unchecked_scalar_bitxor(&key(), &block(3), 5);
    assert_eq!(out.payload, 2);
    assert_eq!(out.degree, 3);
    let low = engine.unchecked_scalar_bitxor(&key(), &block(3), 1);
    assert_eq!(low.payload, 2);
    assert_eq!(engine.unchecked_scalar_bitxor(&key(), &block(0), 7).payload, 3);
    let mut operand = block(3);
    assert_eq!(engine.smart_scalar_bitxor(&key(), &mut operand, 5).payload, 2);
    assert_eq!(operand.payload, 3);
}

#[test]
fn scalar_bitor_ignores_scalar_bits_above_the_message() {
    let mut engine = ShortintEngine::new();
    let out = engine.unchecked_scalar_bitor(&key(), &block(3), 5);
    assert_eq!(out.payload, 3);
    assert_eq!(out.degree, 3);
    assert_eq!(engine.unchecked_scalar_bitor(&key(), &block(0), 4).payload, 0);
    assert_eq!(engine.unchecked_scalar_bitor(&key(), &block(0), 7).payload, 3);
    let mut operand = block(2);
    assert_eq!(engine.smart_scalar_bitor(&key(), &mut operand, 5).payload, 3);
    assert_eq!(operand.payload, 2);
}

#[test]
fn scalar_bitxor_is_zero_for_equal_messages() {
    let mut engine = ShortintEngine::new();
    assert_eq!(engine.unchecked_scalar_bitxor(&key(), &block(1), 5).payload, 0);
    assert_eq!(engine.unchecked_scalar_bitxor(&key(), &block(1), 1).payload, 0);
    assert_eq!(engine.unchecked_scalar_bitxor(&key(), &block(1), 3).payload, 2);
}

#[test]
fn scalar_bitxor_twice_gives_the_message_back() {
    let mut engine = ShortintEngine::new();
    let mut a = block(3);
    engine.unchecked_scalar_bitxor_assign(&key(), &mut a, 5);
    assert_eq!(a.payload, 2);
    engine.unchecked_scalar_bitxor_assign(&key(), &mut a, 5);
    assert_eq!(a.payload, 3);
    // 14 = carry 3, message 2: only the message comes back
    let mut b = block(14);
    engine.smart_scalar_bitxor_assign(&key(), &mut b, 255);
    engine.smart_scalar_bitxor_assign(&key(), &mut b, 255);
    assert_eq!(b.payload, 2);
}

#[test]
fn scalar_bitor_twice_is_scalar_bitor_once() {
    let mut engine = ShortintEngine::new();
    let mut a = block(0);
    engine.unchecked_scalar_bitor_assign(&key(), &mut a, 255);
    assert_eq!(a.payload, 3);
    assert_eq!(a.degree, 3);
    engine.unchecked_scalar_bitor_assign(&key(), &mut a, 255);
    assert_eq!(a.payload, 3);
    let mut b = block(9);
    engine.smart_scalar_bitor_assign(&key(), &mut b, 6);
    assert_eq!(b.payload, 3);
    engine.smart_scalar_bitor_assign(&key(), &mut b, 6);
    assert_eq!(b.payload, 3);
}

#[test]
fn blocks_with_one_message_end_alike() {
    let mut engine = ShortintEngine::new();
    let mut a = block(3);
    let mut b = block(7);
    engine.unchecked_scalar_bitxor_assign(&key(), &mut a, 5);
    engine.unchecked_scalar_bitxor_assign(&key(), &mut b, 5);
    assert_eq!(a.payload, 2);
    assert_eq!(b.payload, 2);
}

fn all_ops(x: u64, rhs: u8) -> (u64, u64, u64) {
    let mut engine = ShortintEngine::new();
    (
        engine.unchecked_scalar_bitand(&key(), &block(x), rhs).payload,
        engine.unchecked_scalar_bitxor(&key(), &block(x), rhs).payload,
        engine.unchecked_scalar_bitor(&key(), &block(x), rhs).payload,
    )
}

#[test]
fn every_payload_and_scalar_gives_the_operation_on_the_messages() {
    for x in 0u64..16 {
        for rhs in 0u8..=255 {
            let (and, xor, or) = all_ops(x, rhs);
            let message = x % 4;
            let scalar = (rhs as u64) % 4;
            assert_eq!(and, message & scalar);
            assert_eq!(xor, message ^ scalar);
            assert_eq!(or, message | scalar);
            assert_eq!(or + and, message + scalar);
            assert_eq!(xor == 0, message == scalar);
            assert_eq!(or == 0, message == 0 && scalar == 0);
            assert_eq!(all_ops(x, scalar as u8), (and, xor, or));
            assert_eq!(all_ops(message, rhs), (and, xor, or));
        }
    }
}

#[test]
fn applying_an_operation_to_its_outcome() {
    for x in 0u64..16 {
        for rhs in [0u8, 1, 2, 3, 5, 6, 128, 255] {
            let (and, xor, or) = all_ops(x, rhs);
            assert_eq!(all_ops(and, rhs).0, and);
            assert_eq!(all_ops(xor, rhs).1, x % 4);
            assert_eq!(all_ops(or, rhs).2, or);
        }
    }
}

#[test]
fn extreme_scalars() {
    for x in 0u64..16 {
        assert_eq!(all_ops(x, 4), (0, x % 4, x % 4));
        assert_eq!(all_ops(x, 7), (x % 4, 3 - x % 4, 3));
    }
}

#[test]
fn reversing_the_bits_of_message_and_scalar_reverses_the_outcome() {
    // on two bits: 0 -> 0, 1 -> 2, 2 -> 1, 3 -> 3
    let mirror = [0u64, 2, 1, 3];
    for x in 0usize..4 {
        for rhs in 0usize..4 {
            let (and, xor, or) = all_ops(x as u64, rhs as u8);
            let (m_and, m_xor, m_or) = all_ops(mirror[x], mirror[rhs] as u8);
            assert_eq!(m_and, mirror[and as usize]);
            assert_eq!(m_xor, mirror[xor as usize]);
            assert_eq!(m_or, mirror[or as usize]);
        }
    }
}

#[test]
fn a_modulus_that_is_no_power_of_two_reduces_the_outcome() {
    let server_key = ServerKey { message_modulus: MessageModulus(3), carry_modulus: CarryModulus(2) };
    let three = |payload: u64| Ciphertext {
        payload,
        degree: 5,
        message_modulus: MessageModulus(3),
        carry_modulus: CarryModulus(2),
    };
    let mut engine = ShortintEngine::new();
    // 5 % 3 = 2; 2 | 1 = 3; 3 % 3 = 0
    assert_eq!(engine.unchecked_scalar_bitor(&server_key, &three(5), 1).payload, 0);
    // 2 ^ 5 = 7; 7 % 3 = 1
    assert_eq!(engine.unchecked_scalar_bitxor(&server_key, &three(2), 5).payload, 1);
    // 2 & 7 = 2
    assert_eq!(engine.unchecked_scalar_bitand(&server_key, &three(2), 7).payload, 2);
    let out = engine.unchecked_scalar_bitor(&server_key, &three(0), 4);
    // entries: (0 | 4) % 3 = 1, (1 | 4) % 3 = 2, (2 | 4) % 3 = 0
    assert_eq!(out.payload, 1);
    assert_eq!(out.degree, 2);
}
