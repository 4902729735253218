use chip8::cpu::{CpuError, CPU};

fn fresh() -> CPU {
    CPU::new()
}

#[test]
fn add_with_carry_overflow() {
    let mut cpu = fresh();
    cpu.v[1] = 200;
    cpu.v[2] = 100;
    assert_eq!(cpu.exec_opcode(0x8124, 0), Ok(()));
    assert_eq!(cpu.v[1], 44); // 300 mod 256
    assert_eq!(cpu.v[0xF], 1);
}

#[test]
fn add_with_carry_no_overflow() {
    let mut cpu = fresh();
    cpu.v[1] = 20;
    cpu.v[2] = 30;
    cpu.v[0xF] = 7;
    assert_eq!(cpu.exec_opcode(0x8124, 0), Ok(()));
    assert_eq!(cpu.v[1], 50);
    assert_eq!(cpu.v[0xF], 0);
}

#[test]
fn subtract_with_borrow() {
    let mut cpu = fresh();
    cpu.v[1] = 50;
    cpu.v[2] = 60;
    assert_eq!(cpu.exec_opcode(0x8125, 0), Ok(()));
    assert_eq!(cpu.v[1], 246); // (50 - 60) mod 256
    assert_eq!(cpu.v[0xF], 0);
}

#[test]
fn subtract_no_borrow() {
    let mut cpu = fresh();
    cpu.v[1] = 60;
    cpu.v[2] = 50;
    assert_eq!(cpu.exec_opcode(0x8125, 0), Ok(()));
    assert_eq!(cpu.v[1], 10);
    assert_eq!(cpu.v[0xF], 1);
}

#[test]
fn subtract_equal_sets_flag() {
    let mut cpu = fresh();
    cpu.v[1] = 9;
    cpu.v[2] = 9;
    assert_eq!(cpu.exec_opcode(0x8125, 0), Ok(()));
    assert_eq!(cpu.v[1], 0);
    assert_eq!(cpu.v[0xF], 1);
}

#[test]
fn subtract_reverse() {
    let mut cpu = fresh();
    cpu.v[1] = 5;
    cpu.v[2] = 7;
    assert_eq!(cpu.exec_opcode(0x8127, 0), Ok(()));
    assert_eq!(cpu.v[1], 2); // V2 - V1
    assert_eq!(cpu.v[0xF], 1);
}

#[test]
fn shift_right_takes_low_bit() {
    let mut cpu = fresh();
    cpu.v[3] = 0b0000_1011;
    assert_eq!(cpu.exec_opcode(0x8306, 0), Ok(()));
    assert_eq!(cpu.v[3], 0b0000_0101);
    assert_eq!(cpu.v[0xF], 1);

    cpu.v[3] = 0b0000_0100;
    assert_eq!(cpu.exec_opcode(0x8306, 0), Ok(()));
    assert_eq!(cpu.v[3], 0b0000_0010);
    assert_eq!(cpu.v[0xF], 0);
}

#[test]
fn shift_left_takes_high_bit() {
    let mut cpu = fresh();
    cpu.v[3] = 0b1000_0001;
    assert_eq!(cpu.exec_opcode(0x830E, 0), Ok(()));
    assert_eq!(cpu.v[3], 0b0000_0010);
    assert_eq!(cpu.v[0xF], 1);

    cpu.v[3] = 0b0100_0000;
    assert_eq!(cpu.exec_opcode(0x830E, 0), Ok(()));
    assert_eq!(cpu.v[3], 0b1000_0000);
    assert_eq!(cpu.v[0xF], 0);
}

#[test]
fn load_and_add_immediate() {
    let mut cpu = fresh();
    assert_eq!(cpu.exec_opcode(0x6512, 0), Ok(()));
    assert_eq!(cpu.v[5], 0x12);
    assert_eq!(cpu.exec_opcode(0x75F0, 0), Ok(()));
    assert_eq!(cpu.v[5], 0x02); // 0x12 + 0xF0 wraps silently
    assert_eq!(cpu.v[0xF], 0);
}

#[test]
fn register_move_and_bitwise() {
    let mut cpu = fresh();
    cpu.v[1] = 0b1100;
    cpu.v[2] = 0b1010;
    assert_eq!(cpu.exec_opcode(0x8120, 0), Ok(()));
    assert_eq!(cpu.v[1], 0b1010);
    cpu.v[1] = 0b1100;
    assert_eq!(cpu.exec_opcode(0x8121, 0), Ok(()));
    assert_eq!(cpu.v[1], 0b1110);
    cpu.v[1] = 0b1100;
    assert_eq!(cpu.exec_opcode(0x8122, 0), Ok(()));
    assert_eq!(cpu.v[1], 0b1000);
    cpu.v[1] = 0b1100;
    assert_eq!(cpu.exec_opcode(0x8123, 0), Ok(()));
    assert_eq!(cpu.v[1], 0b0110);
}

#[test]
fn skip_instructions() {
    let mut cpu = fresh();
    cpu.v[5] = 7;
    assert_eq!(cpu.exec_opcode(0x3507, 0), Ok(()));
    assert_eq!(cpu.pc, 0x204); // equal: skipped
    assert_eq!(cpu.exec_opcode(0x3508, 0), Ok(()));
    assert_eq!(cpu.pc, 0x206); // not equal: no skip
    assert_eq!(cpu.exec_opcode(0x4508, 0), Ok(()));
    assert_eq!(cpu.pc, 0x20A); // not equal: skipped
    cpu.v[6] = 7;
    assert_eq!(cpu.exec_opcode(0x5560, 0), Ok(()));
    assert_eq!(cpu.pc, 0x20E); // registers equal: skipped
    assert_eq!(cpu.exec_opcode(0x9560, 0), Ok(()));
    assert_eq!(cpu.pc, 0x210); // registers equal: no skip
}

#[test]
fn jump_and_jump_with_offset() {
    let mut cpu = fresh();
    assert_eq!(cpu.exec_opcode(0x1234, 0), Ok(()));
    assert_eq!(cpu.pc, 0x234);
    cpu.v[0] = 5;
    assert_eq!(cpu.exec_opcode(0xB210, 0), Ok(()));
    assert_eq!(cpu.pc, 0x215);
}

#[test]
fn call_and_return() {
    let mut cpu = fresh();
    assert_eq!(cpu.exec_opcode(0x2300, 0), Ok(()));
    assert_eq!(cpu.pc, 0x300);
    assert_eq!(cpu.sp, 1);
    assert_eq!(cpu.stack[0], 0x202);
    assert_eq!(cpu.exec_opcode(0x00EE, 0), Ok(()));
    assert_eq!(cpu.pc, 0x202);
    assert_eq!(cpu.sp, 0);
}

#[test]
fn return_on_empty_stack_fails() {
    let mut cpu = fresh();
    assert_eq!(cpu.exec_opcode(0x00EE, 0), Err(CpuError::StackUnderflow));
    assert_eq!(cpu.pc, 0x202); // only the automatic advance happened
}

#[test]
fn call_on_full_stack_fails() {
    let mut cpu = fresh();
    for _ in 0..16 {
        assert_eq!(cpu.exec_opcode(0x2300, 0), Ok(()));
    }
    assert_eq!(cpu.sp, 16);
    assert_eq!(cpu.exec_opcode(0x2300, 0), Err(CpuError::StackOverflow));
    assert_eq!(cpu.sp, 16);
}

#[test]
fn index_register_ops() {
    let mut cpu = fresh();
    assert_eq!(cpu.exec_opcode(0xA123, 0), Ok(()));
    assert_eq!(cpu.i, 0x123);
    cpu.v[1] = 0x10;
    assert_eq!(cpu.exec_opcode(0xF11E, 0), Ok(()));
    assert_eq!(cpu.i, 0x133);
    cpu.i = 0xFFFF;
    cpu.v[1] = 2;
    assert_eq!(cpu.exec_opcode(0xF11E, 0), Ok(()));
    assert_eq!(cpu.i, 1); // 16-bit wraparound
}

#[test]
fn timers_set_and_read() {
    let mut cpu = fresh();
    cpu.v[1] = 42;
    assert_eq!(cpu.exec_opcode(0xF115, 0), Ok(()));
    assert_eq!(cpu.delay_timer, 42);
    assert_eq!(cpu.exec_opcode(0xF207, 0), Ok(()));
    assert_eq!(cpu.v[2], 42);
    cpu.v[3] = 9;
    assert_eq!(cpu.exec_opcode(0xF318, 0), Ok(()));
    assert_eq!(cpu.sound_timer, 9);
}

#[test]
fn timer_decrement_floors_at_zero() {
    let mut cpu = fresh();
    cpu.delay_timer = 2;
    cpu.sound_timer = 1;
    cpu.decrement_dt();
    assert_eq!(cpu.delay_timer, 1);
    assert_eq!(cpu.sound_timer, 0);
    cpu.decrement_dt();
    cpu.decrement_dt();
    cpu.decrement_dt();
    assert_eq!(cpu.delay_timer, 0);
    assert_eq!(cpu.sound_timer, 0);
}

#[test]
fn bcd_store_of_255() {
    let mut cpu = fresh();
    cpu.v[0] = 255;
    cpu.i = 0x300;
    assert_eq!(cpu.exec_opcode(0xF033, 0), Ok(()));
    assert_eq!(cpu.memory[0x300], 2);
    assert_eq!(cpu.memory[0x301], 5);
    assert_eq!(cpu.memory[0x302], 5);
}

#[test]
fn bcd_store_near_end_fails() {
    let mut cpu = fresh();
    cpu.v[0] = 7;
    cpu.i = 4094;
    assert_eq!(cpu.exec_opcode(0xF033, 0), Err(CpuError::MemoryOutOfRange));
    assert_eq!(cpu.memory[4094], 0); // untouched
}

#[test]
fn register_dump_and_load() {
    let mut cpu = fresh();
    cpu.v[0] = 11;
    cpu.v[1] = 22;
    cpu.v[2] = 33;
    cpu.i = 0x400;
    assert_eq!(cpu.exec_opcode(0xF255, 0), Ok(()));
    assert_eq!(cpu.memory[0x400], 11);
    assert_eq!(cpu.memory[0x401], 22);
    assert_eq!(cpu.memory[0x402], 33);
    assert_eq!(cpu.memory[0x403], 0); // V3 not dumped
    cpu.v[0] = 0;
    cpu.v[1] = 0;
    cpu.v[2] = 0;
    cpu.v[3] = 99;
    assert_eq!(cpu.exec_opcode(0xF265, 0), Ok(()));
    assert_eq!(cpu.v[0], 11);
    assert_eq!(cpu.v[1], 22);
    assert_eq!(cpu.v[2], 33);
    assert_eq!(cpu.v[3], 99); // V3 not loaded
}

#[test]
fn register_dump_past_end_fails() {
    let mut cpu = fresh();
    cpu.i = 4090;
    assert_eq!(cpu.exec_opcode(0xFF55, 0), Err(CpuError::MemoryOutOfRange));
    assert_eq!(cpu.memory[4090], 0);
}

#[test]
fn unknown_opcodes_are_no_ops() {
    let mut cpu = fresh();
    assert_eq!(cpu.exec_opcode(0x0123, 0), Ok(()));
    assert_eq!(cpu.pc, 0x202);
    cpu.v[1] = 3;
    cpu.v[2] = 4;
    assert_eq!(cpu.exec_opcode(0x8129, 0), Ok(()));
    assert_eq!(cpu.v[1], 3);
    assert_eq!(cpu.v[2], 4);
    assert_eq!(cpu.pc, 0x204);
}

#[test]
fn random_masked_by_immediate() {
    let mut cpu = fresh();
    cpu.v[5] = 0xAA;
    assert_eq!(cpu.exec_opcode(0xC500, 123), Ok(()));
    assert_eq!(cpu.v[5], 0); // any byte masked by 0x00
    assert_eq!(cpu.exec_opcode(0xC50F, 0xAB), Ok(()));
    assert_eq!(cpu.v[5], 0x0B);
}
