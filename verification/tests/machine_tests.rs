use chip8::cpu::{CpuError, CPU};
use chip8::emulator::Emulator;
use chip8::keypad::Keypad;

const FONT: [u8; 80] = [
    0xF0, 0x90, 0x90, 0x90, 0xF0, 0x20, 0x60, 0x20, 0x20, 0x70, 0xF0, 0x10, 0xF0, 0x80, 0xF0,
    0xF0, 0x10, 0xF0, 0x10, 0xF0, 0x90, 0x90, 0xF0, 0x10, 0x10, 0xF0, 0x80, 0xF0, 0x10, 0xF0,
    0xF0, 0x80, 0xF0, 0x90, 0xF0, 0xF0, 0x10, 0x20, 0x40, 0x40, 0xF0, 0x90, 0xF0, 0x90, 0xF0,
    0xF0, 0x90, 0xF0, 0x10, 0xF0, 0xF0, 0x90, 0xF0, 0x90, 0x90, 0xE0, 0x90, 0xE0, 0x90, 0xE0,
    0xF0, 0x80, 0x80, 0x80, 0xF0, 0xE0, 0x90, 0x90, 0x90, 0xE0, 0xF0, 0x80, 0xF0, 0x80, 0xF0,
    0xF0, 0x80, 0xF0, 0x80, 0x80,
];

#[test]
fn fresh_machine_state() {
    let cpu = CPU::new();
    assert_eq!(cpu.pc, 0x200);
    assert_eq!(cpu.i, 0);
    assert_eq!(cpu.sp, 0);
    assert_eq!(cpu.memory.len(), 4096);
    assert_eq!(&cpu.memory[0..80], &FONT);
    assert!(cpu.memory[80..].iter().all(|&b| b == 0));
    assert!(cpu.v.iter().all(|&r| r == 0));
}

#[test]
fn load_rom_of_exactly_3584_bytes_succeeds() {
    let mut cpu = CPU::new();
    let rom: Vec<u8> = vec![0xAB; 3584];
    assert_eq!(cpu.load_rom(&rom), Ok(()));
    assert_eq!(cpu.memory[0x200], 0xAB);
    assert_eq!(cpu.memory[4095], 0xAB);
    assert_eq!(&cpu.memory[0..80], &FONT); // nothing below 0x200 touched
    assert!(cpu.memory[80..0x200].iter().all(|&b| b == 0));
}

#[test]
fn load_rom_of_3585_bytes_fails_untouched() {
    let mut cpu = CPU::new();
    let rom: Vec<u8> = vec![0xAB; 3585];
    assert_eq!(cpu.load_rom(&rom), Err(CpuError::ProgramTooLarge));
    assert!(cpu.memory[0x200..].iter().all(|&b| b == 0));
    assert_eq!(&cpu.memory[0..80], &FONT);
}

#[test]
fn run_cycle_fetches_big_endian() {
    let mut cpu = CPU::new();
    cpu.load_rom(&vec![0x12, 0x34]).unwrap();
    assert_eq!(cpu.run_cycle(), Ok(()));
    assert_eq!(cpu.pc, 0x234);
}

#[test]
fn run_cycle_masks_the_random_byte() {
    let mut cpu = CPU::new();
    cpu.v[5] = 0xFF;
    cpu.load_rom(&vec![0xC5, 0x00, 0xC5, 0x0F]).unwrap();
    assert_eq!(cpu.run_cycle(), Ok(()));
    assert_eq!(cpu.v[5], 0); // any random byte masked by 0x00
    assert_eq!(cpu.run_cycle(), Ok(()));
    assert!(cpu.v[5] <= 0x0F);
}

#[test]
fn block_for_key_replays_until_a_key_is_down() {
    let mut cpu = CPU::new();
    cpu.load_rom(&vec![0xF3, 0x0A]).unwrap();
    assert_eq!(cpu.run_cycle(), Ok(()));
    assert_eq!(cpu.pc, 0x200); // rewound: same instruction next cycle
    assert_eq!(cpu.run_cycle(), Ok(()));
    assert_eq!(cpu.pc, 0x200);
    cpu.keypad.set(0x8, true);
    cpu.keypad.set(0x5, true);
    assert_eq!(cpu.run_cycle(), Ok(()));
    assert_eq!(cpu.pc, 0x202); // advanced normally
    assert_eq!(cpu.v[3], 0x5); // the lowest-indexed key that is down
}

#[test]
fn skip_if_key_down_and_up() {
    let mut cpu = CPU::new();
    cpu.v[5] = 0xA;
    assert_eq!(cpu.exec_opcode(0xE59E, 0), Ok(()));
    assert_eq!(cpu.pc, 0x202); // key up: no skip
    assert_eq!(cpu.exec_opcode(0xE5A1, 0), Ok(()));
    assert_eq!(cpu.pc, 0x206); // key up: skipped
    cpu.keypad.set(0xA, true);
    assert_eq!(cpu.exec_opcode(0xE59E, 0), Ok(()));
    assert_eq!(cpu.pc, 0x20A); // key down: skipped
    assert_eq!(cpu.exec_opcode(0xE5A1, 0), Ok(()));
    assert_eq!(cpu.pc, 0x20C); // key down: no skip
}

#[test]
fn glyph_address_and_table() {
    let mut cpu = CPU::new();
    for d in 0u8..16 {
        cpu.v[4] = d;
        assert_eq!(cpu.exec_opcode(0xF429, 0), Ok(()));
        assert_eq!(cpu.i, 5 * d as u16);
        let at = cpu.i as usize;
        assert_eq!(&cpu.memory[at..at + 5], &FONT[5 * d as usize..5 * d as usize + 5]);
    }
}

#[test]
fn glyph_for_zero_draws_a_ring() {
    let mut cpu = CPU::new();
    assert_eq!(&cpu.memory[0..5], &[0xF0, 0x90, 0x90, 0x90, 0xF0]);
    // draw digit 0's glyph and check a lit and an unlit pixel
    cpu.i = 0;
    cpu.v[0] = 0;
    cpu.v[1] = 0;
    assert_eq!(cpu.exec_opcode(0xD015, 0), Ok(()));
    assert_eq!(cpu.v[0xF], 0);
    let fb = cpu.display.get_frame_buffer();
    assert_eq!(fb[0], 1); // top-left of the ring
    assert_eq!(fb[64 + 1], 0); // hollow inside
    assert_eq!(fb[64 + 3], 1); // right wall
}

#[test]
fn draw_instruction_reports_collision_in_vf() {
    let mut cpu = CPU::new();
    cpu.memory[0x800] = 0x80;
    cpu.i = 0x800;
    assert_eq!(cpu.exec_opcode(0xD011, 0), Ok(()));
    assert_eq!(cpu.v[0xF], 0);
    assert_eq!(cpu.exec_opcode(0xD011, 0), Ok(()));
    assert_eq!(cpu.v[0xF], 1); // same pixel again: collision
    assert_eq!(cpu.display.get_frame_buffer()[0], 0);
}

#[test]
fn draw_instruction_wraps_coordinates() {
    let mut cpu = CPU::new();
    cpu.memory[0x800] = 0xFF;
    cpu.i = 0x800;
    cpu.v[0] = 60;
    cpu.v[1] = 0;
    assert_eq!(cpu.exec_opcode(0xD011, 0), Ok(()));
    let fb = cpu.display.get_frame_buffer();
    for col in [60usize, 61, 62, 63, 0, 1, 2, 3] {
        assert_eq!(fb[col], 1);
    }
}

#[test]
fn draw_past_memory_end_fails() {
    let mut cpu = CPU::new();
    cpu.i = 4090;
    assert_eq!(cpu.exec_opcode(0xD01F, 0), Err(CpuError::MemoryOutOfRange));
}

#[test]
fn clear_screen_instruction() {
    let mut cpu = CPU::new();
    cpu.memory[0x800] = 0xFF;
    cpu.i = 0x800;
    assert_eq!(cpu.exec_opcode(0xD011, 0), Ok(()));
    assert_eq!(cpu.exec_opcode(0x00E0, 0), Ok(()));
    assert!(cpu.display.get_frame_buffer().iter().all(|&p| p == 0));
}

#[test]
fn emulator_loads_a_rom() {
    let em = Emulator::new(&vec![0x00, 0xE0]).unwrap();
    assert_eq!(em.cpu.pc, 0x200);
    assert_eq!(em.cpu.memory[0x200], 0x00);
    assert_eq!(em.cpu.memory[0x201], 0xE0);
}

#[test]
fn emulator_rejects_an_oversized_rom() {
    match Emulator::new(&vec![0u8; 3585]) {
        Err(e) => assert_eq!(e, CpuError::ProgramTooLarge),
        Ok(_) => panic!("an oversized image must be rejected"),
    }
}

#[test]
fn keypad_set_and_query() {
    let mut kp = Keypad::new();
    assert_eq!(kp.get_pressed_key(), None);
    assert!(!kp.is_key_down(7));
    kp.set(7, true);
    assert!(kp.is_key_down(7));
    assert_eq!(kp.get_pressed_key(), Some(7));
    kp.set(3, true);
    assert_eq!(kp.get_pressed_key(), Some(3)); // lowest wins
    kp.set(3, false);
    kp.set(7, false);
    assert_eq!(kp.get_pressed_key(), None);
}
