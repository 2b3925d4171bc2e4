use chip8::Chip8;
use chip8::Chip8Error;

fn exec(c: &mut Chip8, op: u16) {
    c.execute_with_random(op, 0).unwrap();
}

#[test]
fn power_on_state() {
    let c = Chip8::new();
    assert_eq!(c.pc, 0x200);
    assert_eq!(c.i, 0);
    assert_eq!(c.memory.len(), 4096);
    assert_eq!(c.v, vec![0u8; 16]);
    assert!(c.stack.is_empty());
    assert_eq!(c.delay_timer, 0);
    assert_eq!(c.sound_timer, 0);
    assert_eq!(&c.memory[0..80], &chip8::chip8::FONT_SPRITES[..]);
    assert!(c.memory[80..].iter().all(|&b| b == 0));
    assert!(c.display.buffer.iter().all(|&p| !p));
    assert!(c.keypad.keys.iter().all(|&k| !k));
}

#[test]
fn load_set_and_add_scenario() {
    // 6005 7003: set V0 = 5 then add 3; VF stays untouched by the add.
    let mut c = Chip8::new();
    exec(&mut c, 0x6F42);
    let n = c.load_rom(&[0x60, 0x05, 0x70, 0x03]);
    assert_eq!(n, 4);
    c.tick().unwrap();
    c.tick().unwrap();
    assert_eq!(c.v[0], 8);
    assert_eq!(c.v[0xF], 0x42);
    assert_eq!(c.pc, 0x204);
}

#[test]
fn add_immediate_wraps_without_flag() {
    let mut c = Chip8::new();
    exec(&mut c, 0x60FA); // V0 = 250
    exec(&mut c, 0x700A); // V0 += 10, wrapping
    assert_eq!(c.v[0], 4);
    assert_eq!(c.v[0xF], 0);
}

#[test]
fn unknown_opcode_stops_a_run() {
    let mut c = Chip8::new();
    c.load_rom(&[0xFF, 0xFF]);
    assert_eq!(c.tick(), Err(Chip8Error::UnknownOpcode(0xFFFF)));
    // The counter has moved past the offending word, marking where it was met.
    assert_eq!(c.pc, 0x202);
}

#[test]
fn load_rom_truncates_to_space() {
    let mut c = Chip8::new();
    let rom = vec![0xABu8; 4000];
    let n = c.load_rom(&rom);
    assert_eq!(n, 3584);
    assert_eq!(c.memory[0x200], 0xAB);
    assert_eq!(c.memory[4095], 0xAB);
    assert_eq!(c.memory[0x1FF], 0);
}

#[test]
fn add_with_carry_flag() {
    let mut c = Chip8::new();
    exec(&mut c, 0x60C8); // V0 = 200
    exec(&mut c, 0x6164); // V1 = 100
    exec(&mut c, 0x8014); // V0 += V1
    assert_eq!(c.v[0], 44);
    assert_eq!(c.v[0xF], 1);
    exec(&mut c, 0x600A);
    exec(&mut c, 0x6114);
    exec(&mut c, 0x8014);
    assert_eq!(c.v[0], 30);
    assert_eq!(c.v[0xF], 0);
}

#[test]
fn sub_no_borrow_flags() {
    let mut c = Chip8::new();
    exec(&mut c, 0x600A); // V0 = 10
    exec(&mut c, 0x6107); // V1 = 7
    exec(&mut c, 0x8015); // V0 -= V1: 10 >= 7, no borrow
    assert_eq!(c.v[0], 3);
    assert_eq!(c.v[0xF], 1);
    exec(&mut c, 0x6003);
    exec(&mut c, 0x6107);
    exec(&mut c, 0x8015); // 3 - 7 wraps
    assert_eq!(c.v[0], 252);
    assert_eq!(c.v[0xF], 0);
}

#[test]
fn subn_reverse_no_borrow_flags() {
    let mut c = Chip8::new();
    exec(&mut c, 0x6003); // V0 = 3
    exec(&mut c, 0x6107); // V1 = 7
    exec(&mut c, 0x8017); // V0 = V1 - V0: 7 >= 3, no borrow
    assert_eq!(c.v[0], 4);
    assert_eq!(c.v[0xF], 1);
    exec(&mut c, 0x6009);
    exec(&mut c, 0x6107);
    exec(&mut c, 0x8017); // 7 - 9 wraps
    assert_eq!(c.v[0], 254);
    assert_eq!(c.v[0xF], 0);
}

#[test]
fn bitwise_ops() {
    let mut c = Chip8::new();
    exec(&mut c, 0x60F0);
    exec(&mut c, 0x613C);
    exec(&mut c, 0x8011); // OR
    assert_eq!(c.v[0], 0xFC);
    exec(&mut c, 0x60F0);
    exec(&mut c, 0x8012); // AND
    assert_eq!(c.v[0], 0x30);
    exec(&mut c, 0x60F0);
    exec(&mut c, 0x8013); // XOR
    assert_eq!(c.v[0], 0xCC);
    exec(&mut c, 0x6137);
    exec(&mut c, 0x8010); // load V1 into V0
    assert_eq!(c.v[0], 0x37);
}

#[test]
fn shifts_use_vx_and_set_flag() {
    // The shift forms read and write Vx, ignoring Vy.
    let mut c = Chip8::new();
    exec(&mut c, 0x600B); // V0 = 0b1011
    exec(&mut c, 0x61FF); // V1 differs, to show it is ignored
    exec(&mut c, 0x8016); // V0 >>= 1
    assert_eq!(c.v[0], 0b101);
    assert_eq!(c.v[0xF], 1);
    exec(&mut c, 0x8016);
    assert_eq!(c.v[0], 0b10);
    assert_eq!(c.v[0xF], 1);
    exec(&mut c, 0x60C1); // V0 = 0b1100_0001
    exec(&mut c, 0x801E); // V0 <<= 1
    assert_eq!(c.v[0], 0b1000_0010);
    assert_eq!(c.v[0xF], 1);
    exec(&mut c, 0x6041);
    exec(&mut c, 0x801E);
    assert_eq!(c.v[0], 0b1000_0010);
    assert_eq!(c.v[0xF], 0);
}

#[test]
fn skip_forms() {
    let mut c = Chip8::new();
    exec(&mut c, 0x6005);
    let pc = c.pc;
    exec(&mut c, 0x3005); // equal immediate: skip
    assert_eq!(c.pc, pc + 2);
    exec(&mut c, 0x3006); // unequal: no skip
    assert_eq!(c.pc, pc + 2);
    exec(&mut c, 0x4006); // unequal immediate: skip
    assert_eq!(c.pc, pc + 4);
    exec(&mut c, 0x6105);
    exec(&mut c, 0x5010); // V0 == V1: skip
    assert_eq!(c.pc, pc + 6);
    exec(&mut c, 0x9010); // V0 == V1: no skip
    assert_eq!(c.pc, pc + 6);
    exec(&mut c, 0x6106);
    exec(&mut c, 0x9010); // V0 != V1: skip
    assert_eq!(c.pc, pc + 8);
    exec(&mut c, 0x5010); // V0 != V1: no skip
    assert_eq!(c.pc, pc + 8);
}

#[test]
fn jump_call_return() {
    let mut c = Chip8::new();
    exec(&mut c, 0x1300); // jump
    assert_eq!(c.pc, 0x300);
    exec(&mut c, 0x2400); // call
    assert_eq!(c.pc, 0x400);
    assert_eq!(c.stack, vec![0x300]);
    exec(&mut c, 0x00EE); // return
    assert_eq!(c.pc, 0x300);
    assert!(c.stack.is_empty());
    exec(&mut c, 0x6042); // V0 = 0x42
    exec(&mut c, 0xB300); // jump to 0x300 + V0
    assert_eq!(c.pc, 0x342);
}

#[test]
fn return_on_empty_stack_is_fatal() {
    let mut c = Chip8::new();
    let r = c.execute_with_random(0x00EE, 0);
    assert_eq!(r, Err(Chip8Error::StackUnderflow));
    assert_eq!(c.pc, 0x200);
}

#[test]
fn unknown_opcodes_are_fatal() {
    let mut c = Chip8::new();
    assert_eq!(c.execute_with_random(0x0000, 0), Err(Chip8Error::UnknownOpcode(0x0000)));
    assert_eq!(c.execute_with_random(0x5011, 0), Err(Chip8Error::UnknownOpcode(0x5011)));
    assert_eq!(c.execute_with_random(0x8018, 0), Err(Chip8Error::UnknownOpcode(0x8018)));
    assert_eq!(c.execute_with_random(0x9011, 0), Err(Chip8Error::UnknownOpcode(0x9011)));
    assert_eq!(c.execute_with_random(0xE000, 0), Err(Chip8Error::UnknownOpcode(0xE000)));
    assert_eq!(c.execute_with_random(0xF0FF, 0), Err(Chip8Error::UnknownOpcode(0xF0FF)));
    assert_eq!(c.pc, 0x200);
}

#[test]
fn out_of_bounds_accesses_are_fatal() {
    let mut c = Chip8::new();
    exec(&mut c, 0xAFFF); // I = 0xFFF
    exec(&mut c, 0x6102);
    assert_eq!(c.execute_with_random(0xF155, 0), Err(Chip8Error::OutOfBounds)); // store V0..V1 past the end
    assert_eq!(c.execute_with_random(0xF165, 0), Err(Chip8Error::OutOfBounds));
    assert_eq!(c.execute_with_random(0xF033, 0), Err(Chip8Error::OutOfBounds));
    assert_eq!(c.execute_with_random(0xD002, 0), Err(Chip8Error::OutOfBounds)); // sprite read past the end
    exec(&mut c, 0x60FF);
    assert_eq!(c.execute_with_random(0xF01E, 0), Err(Chip8Error::OutOfBounds)); // I += V0 leaves memory
    assert_eq!(c.i, 0xFFF);
    // A fetch past the end of memory fails without executing.
    c.pc = 4095;
    assert_eq!(c.tick(), Err(Chip8Error::OutOfBounds));
    assert_eq!(c.pc, 4095);
}

#[test]
fn index_register_forms() {
    let mut c = Chip8::new();
    exec(&mut c, 0xA123);
    assert_eq!(c.i, 0x123);
    exec(&mut c, 0x6010); // V0 = 16
    exec(&mut c, 0xF01E); // I += V0
    assert_eq!(c.i, 0x133);
}

#[test]
fn font_addressing() {
    let mut c = Chip8::new();
    exec(&mut c, 0x600A); // V0 = glyph index 0xA
    exec(&mut c, 0xF029);
    assert_eq!(c.i, 50);
    assert_eq!(&c.memory[50..55], &[0xF0, 0x90, 0xF0, 0x90, 0x90]);
}

#[test]
fn decimal_digits_stored() {
    let mut c = Chip8::new();
    exec(&mut c, 0x60EA); // V0 = 234
    exec(&mut c, 0xA300);
    exec(&mut c, 0xF033);
    assert_eq!(&c.memory[0x300..0x303], &[2, 3, 4]);
}

#[test]
fn registers_round_trip_through_memory() {
    // A2F0 F055 then F065 with index 2 round-trips V0..V2 at I = 0x2F0.
    let mut c = Chip8::new();
    exec(&mut c, 0x6011);
    exec(&mut c, 0x6122);
    exec(&mut c, 0x6233);
    exec(&mut c, 0xA2F0);
    exec(&mut c, 0xF255);
    assert_eq!(&c.memory[0x2F0..0x2F3], &[0x11, 0x22, 0x33]);
    exec(&mut c, 0x6000);
    exec(&mut c, 0x6100);
    exec(&mut c, 0x6200);
    exec(&mut c, 0xF265);
    assert_eq!(c.v[0], 0x11);
    assert_eq!(c.v[1], 0x22);
    assert_eq!(c.v[2], 0x33);
}

#[test]
fn timers_transfer_and_tick() {
    let mut c = Chip8::new();
    exec(&mut c, 0x6005);
    exec(&mut c, 0xF015); // delay = V0
    assert_eq!(c.delay_timer, 5);
    exec(&mut c, 0x6103);
    exec(&mut c, 0xF118); // sound = V1
    assert_eq!(c.sound_timer, 3);
    exec(&mut c, 0x6200);
    exec(&mut c, 0xF207); // V2 = delay
    assert_eq!(c.v[2], 5);
    for _ in 0..4 {
        c.tick_timers();
    }
    assert_eq!(c.delay_timer, 1);
    assert_eq!(c.sound_timer, 0);
    c.tick_timers();
    assert_eq!(c.delay_timer, 0);
    assert_eq!(c.sound_timer, 0);
}

#[test]
fn random_masked_by_zero_is_zero() {
    let mut c = Chip8::new();
    exec(&mut c, 0x60AA);
    // CX00 masks the random byte with 0, whatever was drawn.
    c.execute_instruction(0xC000).unwrap();
    assert_eq!(c.v[0], 0);
}

#[test]
fn key_skip_forms() {
    let mut c = Chip8::new();
    exec(&mut c, 0x6007); // V0 = key 7
    let pc = c.pc;
    exec(&mut c, 0xE09E); // key 7 not pressed: no skip
    assert_eq!(c.pc, pc);
    exec(&mut c, 0xE0A1); // not pressed: skip
    assert_eq!(c.pc, pc + 2);
    c.set_key(7, true);
    exec(&mut c, 0xE09E); // pressed: skip
    assert_eq!(c.pc, pc + 4);
    exec(&mut c, 0xE0A1); // pressed: no skip
    assert_eq!(c.pc, pc + 4);
    // A key index past the keypad is fatal.
    exec(&mut c, 0x6010);
    assert_eq!(c.execute_with_random(0xE09E, 0), Err(Chip8Error::OutOfBounds));
}

#[test]
fn key_wait_blocks_by_rewinding() {
    let mut c = Chip8::new();
    c.load_rom(&[0xF0, 0x0A]);
    c.tick().unwrap();
    assert_eq!(c.pc, 0x200); // rewound: same instruction next time
    c.tick().unwrap();
    assert_eq!(c.pc, 0x200);
    c.set_key(0xB, true);
    c.tick().unwrap();
    assert_eq!(c.pc, 0x202);
    assert_eq!(c.v[0], 0xB);
}

#[test]
fn keypad_tracks_press_and_release() {
    let mut k = chip8::Keypad::new();
    assert_eq!(k.wait_for_key(), None);
    k.set_key(0xC, true);
    k.set_key(0x3, true);
    assert!(k.keys[0xC] && k.keys[0x3]);
    assert_eq!(k.wait_for_key(), Some(0x3));
    k.set_key(0x3, false);
    assert_eq!(k.wait_for_key(), Some(0xC));
}

#[test]
fn wait_for_key_reports_lowest() {
    let mut c = Chip8::new();
    assert_eq!(c.wait_for_key(), None);
    c.set_key(9, true);
    c.set_key(5, true);
    assert_eq!(c.wait_for_key(), Some(5));
    c.set_key(5, false);
    assert_eq!(c.wait_for_key(), Some(9));
    c.set_key(9, false);
    assert_eq!(c.wait_for_key(), None);
}
