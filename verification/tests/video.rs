use chip8::Chip8;
use chip8::Display;

fn exec(c: &mut Chip8, op: u16) {
    c.execute_with_random(op, 0).unwrap();
}

fn pixel(d: &Display, px: usize, py: usize) -> bool {
    d.buffer[py * 64 + px]
}

#[test]
fn draw_twice_restores_and_reports_collision() {
    let mut d = Display::new();
    let sprite = [0x3C, 0x42, 0x81, 0x42, 0x3C];
    let first = d.draw(3, 5, &sprite);
    assert!(!first); // the screen was clear: nothing turned off
    assert!(pixel(&d, 5, 5)); // 0x3C: bits 2..=5 of the first row
    let second = d.draw(3, 5, &sprite);
    assert!(second); // every covered pixel was set by the first draw
    assert!(d.buffer.iter().all(|&p| !p));
}

#[test]
fn draw_wraps_at_the_right_edge() {
    let mut d = Display::new();
    d.draw(60, 0, &[0xFF]);
    let lit: Vec<usize> = (0..64).filter(|&px| pixel(&d, px, 0)).collect();
    assert_eq!(lit, vec![0, 1, 2, 3, 60, 61, 62, 63]);
    assert!((1..32).all(|py| (0..64).all(|px| !pixel(&d, px, py))));
}

#[test]
fn draw_wraps_at_the_bottom_edge() {
    let mut d = Display::new();
    d.draw(0, 30, &[0x80, 0x80, 0x80, 0x80]);
    assert!(pixel(&d, 0, 30));
    assert!(pixel(&d, 0, 31));
    assert!(pixel(&d, 0, 0));
    assert!(pixel(&d, 0, 1));
    assert!(!pixel(&d, 0, 2));
    assert!(!pixel(&d, 0, 29));
}

#[test]
fn clear_draw_clear_leaves_nothing() {
    // 00E0, an 8x5 all-set sprite at (0, 0), then 00E0 again.
    let mut c = Chip8::new();
    exec(&mut c, 0x00E0);
    c.memory[0x300..0x305].copy_from_slice(&[0xFF; 5]);
    exec(&mut c, 0xA300);
    exec(&mut c, 0x6000);
    exec(&mut c, 0x6100);
    exec(&mut c, 0xD015);
    assert!(c.display.buffer[0..8].iter().all(|&p| p));
    exec(&mut c, 0x00E0);
    assert!(c.display.buffer.iter().all(|&p| !p));
}

#[test]
fn draw_sets_collision_flag_only_on_overlap() {
    let mut c = Chip8::new();
    c.memory[0x300] = 0xF0;
    exec(&mut c, 0xA300);
    exec(&mut c, 0x6000);
    exec(&mut c, 0x6100);
    exec(&mut c, 0x6F05); // VF starts dirty; the draw must reset it
    exec(&mut c, 0xD011);
    assert_eq!(c.v[0xF], 0);
    exec(&mut c, 0x6004); // shifted by four: 0xF0 overlaps nothing drawn
    exec(&mut c, 0xD011);
    assert_eq!(c.v[0xF], 0);
    exec(&mut c, 0x6002); // overlaps both earlier strips
    exec(&mut c, 0xD011);
    assert_eq!(c.v[0xF], 1);
    assert!(!pixel(&c.display, 2, 0)); // the overlapped pixels toggled off
    assert!(!pixel(&c.display, 3, 0));
}

#[test]
fn clear_resets_every_pixel() {
    let mut d = Display::new();
    d.draw(10, 10, &[0xFF, 0xFF]);
    assert!(d.buffer.iter().any(|&p| p));
    d.clear();
    assert!(d.buffer.iter().all(|&p| !p));
}

#[test]
fn opcode_fields_decode() {
    let oc = chip8::OpCode::new(0xD4, 0x2E);
    assert_eq!(oc.op, 0xD);
    assert_eq!(oc.x, 0x4);
    assert_eq!(oc.y, 0x2);
    assert_eq!(oc.n, 0xE);
    assert_eq!(oc.nn, 0x2E);
    assert_eq!(oc.nnn, 0x42E);
}
