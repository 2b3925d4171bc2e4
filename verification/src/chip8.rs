//! The interpreter core: memory, registers, call stack, timers, and the
//! fetch-decode-execute cycle over the framebuffer and keypad.

use vstd::prelude::*;

use crate::display::Display;
use crate::display::draw_collides;
use crate::display::draw_result;
use crate::keypad::Keypad;
use crate::keypad::first_pressed;
use crate::keypad::no_key_pressed;
use crate::opcode::addr12;
use crate::opcode::imm8;
use crate::opcode::nib1;
use crate::opcode::nib2;
use crate::opcode::nib3;
use crate::opcode::nib4;

verus! {

/// Size of the addressable memory in bytes.
pub const MEMORY_SIZE: usize = 4096;

/// Address at which a loaded program starts.
pub const PROGRAM_START: usize = 0x200;

/// The built-in font atlas: sixteen glyphs of five rows each, preloaded
/// at address 0; glyph `k` starts at offset `5 * k`.
pub const FONT_SPRITES: [u8; 80] = [
    0xF0, 0x90, 0x90, 0x90, 0xF0, // 0
    0x20, 0x60, 0x20, 0x20, 0x70, // 1
    0xF0, 0x10, 0xF0, 0x80, 0xF0, // 2
    0xF0, 0x10, 0xF0, 0x10, 0xF0, // 3
    0x90, 0x90, 0xF0, 0x10, 0x10, // 4
    0xF0, 0x80, 0xF0, 0x10, 0xF0, // 5
    0xF0, 0x80, 0xF0, 0x90, 0xF0, // 6
    0xF0, 0x10, 0x20, 0x40, 0x40, // 7
    0xF0, 0x90, 0xF0, 0x90, 0xF0, // 8
    0xF0, 0x90, 0xF0, 0x10, 0xF0, // 9
    0xF0, 0x90, 0xF0, 0x90, 0x90, // A
    0xE0, 0x90, 0xE0, 0x90, 0xE0, // B
    0xF0, 0x80, 0x80, 0x80, 0xF0, // C
    0xE0, 0x90, 0x90, 0x90, 0xE0, // D
    0xF0, 0x80, 0xF0, 0x80, 0xF0, // E
    0xF0, 0x80, 0xF0, 0x80, 0x80, // F
];

/// A fatal condition met while executing one instruction; none is
/// recoverable at this level.
#[derive(Clone, Copy, PartialEq, Eq, Structural, Debug)]
pub enum Chip8Error {
    /// The fetched word matches no instruction form; carries the raw word.
    UnknownOpcode(u16),
    /// A return was executed with an empty call stack.
    StackUnderflow,
    /// Address arithmetic left the valid range.
    OutOfBounds,
}

/// The mathematical model of a machine state.
#[verifier::ext_equal]
pub ghost struct Chip8View {
    pub display: Seq<bool>,
    pub memory: Seq<u8>,
    pub pc: int,
    pub i: int,
    pub v: Seq<u8>,
    pub stack: Seq<u16>,
    pub keys: Seq<bool>,
    pub delay_timer: u8,
    pub sound_timer: u8,
}

/// A structurally sound machine state: the model counterpart of
/// `Chip8::wf`.
pub open spec fn wf_view(s: Chip8View) -> bool {
    &&& s.display.len() == 2048
    &&& s.memory.len() == 4096
    &&& s.v.len() == 16
    &&& s.keys.len() == 16
    &&& 0 <= s.i < 4096
    &&& 0 <= s.pc
}

/// Eight-bit addition wrapping modulo 256.
pub open spec fn wrap_add8(a: u8, b: u8) -> u8 {
    if a + b > 255 {
        (a + b - 256) as u8
    } else {
        (a + b) as u8
    }
}

/// Eight-bit subtraction wrapping modulo 256.
pub open spec fn wrap_sub8(a: u8, b: u8) -> u8 {
    if a - b < 0 {
        (a - b + 256) as u8
    } else {
        (a - b) as u8
    }
}

/// Effect of the `8XYn` arithmetic/logic family on the machine state.
/// Flag writes go to VF after the result write, so VF holds the flag
/// even when `x` is 15.
pub open spec fn spec_step_alu(s: Chip8View, x: int, y: int, n: int, op: u16) -> Result<
    Chip8View,
    Chip8Error,
> {
    if n == 0 {
        Ok(Chip8View { v: s.v.update(x, s.v[y]), ..s })
    } else if n == 1 {
        Ok(Chip8View { v: s.v.update(x, s.v[x] | s.v[y]), ..s })
    } else if n == 2 {
        Ok(Chip8View { v: s.v.update(x, s.v[x] & s.v[y]), ..s })
    } else if n == 3 {
        Ok(Chip8View { v: s.v.update(x, s.v[x] ^ s.v[y]), ..s })
    } else if n == 4 {
        let flag: u8 = if s.v[x] + s.v[y] > 255 {
            1
        } else {
            0
        };
        Ok(Chip8View { v: s.v.update(x, wrap_add8(s.v[x], s.v[y])).update(15, flag), ..s })
    } else if n == 5 {
        let flag: u8 = if s.v[x] >= s.v[y] {
            1
        } else {
            0
        };
        Ok(Chip8View { v: s.v.update(x, wrap_sub8(s.v[x], s.v[y])).update(15, flag), ..s })
    } else if n == 6 {
        let v1 = s.v.update(15, s.v[x] & 1);
        Ok(Chip8View { v: v1.update(x, v1[x] >> 1), ..s })
    } else if n == 7 {
        let flag: u8 = if s.v[y] >= s.v[x] {
            1
        } else {
            0
        };
        Ok(Chip8View { v: s.v.update(x, wrap_sub8(s.v[y], s.v[x])).update(15, flag), ..s })
    } else if n == 0xE {
        let v1 = s.v.update(15, s.v[x] >> 7);
        Ok(Chip8View { v: v1.update(x, v1[x] << 1), ..s })
    } else {
        Err(Chip8Error::UnknownOpcode(op))
    }
}

/// Effect of `DXYN`: XOR-draw the `n` sprite rows at `Memory[I..]` at the
/// wrapped coordinates `(Vx, Vy)`, with VF recording collision.
pub open spec fn spec_step_draw(s: Chip8View, x: int, y: int, n: int) -> Result<
    Chip8View,
    Chip8Error,
> {
    if s.i + n <= 4096 {
        let sprite = s.memory.subrange(s.i, s.i + n);
        let flag: u8 = if draw_collides(s.display, sprite, s.v[x] as int, s.v[y] as int) {
            1
        } else {
            0
        };
        Ok(
            Chip8View {
                display: draw_result(s.display, sprite, s.v[x] as int, s.v[y] as int),
                v: s.v.update(15, flag),
                ..s
            },
        )
    } else {
        Err(Chip8Error::OutOfBounds)
    }
}

/// Effect of the `FXnn` family: timers, blocking key wait, index
/// arithmetic, font addressing, decimal conversion, and register
/// save/restore through memory.
pub open spec fn spec_step_fx(s: Chip8View, x: int, nn: u8, op: u16) -> Result<
    Chip8View,
    Chip8Error,
> {
    if nn == 0x07 {
        Ok(Chip8View { v: s.v.update(x, s.delay_timer), ..s })
    } else if nn == 0x0A {
        match first_pressed(s.keys) {
            Some(k) => Ok(Chip8View { v: s.v.update(x, k), ..s }),
            None => if s.pc >= 2 {
                Ok(Chip8View { pc: s.pc - 2, ..s })
            } else {
                Err(Chip8Error::OutOfBounds)
            },
        }
    } else if nn == 0x15 {
        Ok(Chip8View { delay_timer: s.v[x], ..s })
    } else if nn == 0x18 {
        Ok(Chip8View { sound_timer: s.v[x], ..s })
    } else if nn == 0x1E {
        if s.i + s.v[x] < 4096 {
            Ok(Chip8View { i: s.i + s.v[x], ..s })
        } else {
            Err(Chip8Error::OutOfBounds)
        }
    } else if nn == 0x29 {
        Ok(Chip8View { i: s.v[x] * 5, ..s })
    } else if nn == 0x33 {
        if s.i + 2 < 4096 {
            Ok(
                Chip8View {
                    memory: s.memory.update(s.i, (s.v[x] / 100) as u8).update(
                        s.i + 1,
                        ((s.v[x] / 10) % 10) as u8,
                    ).update(s.i + 2, (s.v[x] % 10) as u8),
                    ..s
                },
            )
        } else {
            Err(Chip8Error::OutOfBounds)
        }
    } else if nn == 0x55 {
        if s.i + x < 4096 {
            Ok(
                Chip8View {
                    memory: Seq::new(
                        4096,
                        |j: int|
                            if s.i <= j <= s.i + x {
                                s.v[j - s.i]
                            } else {
                                s.memory[j]
                            },
                    ),
                    ..s
                },
            )
        } else {
            Err(Chip8Error::OutOfBounds)
        }
    } else if nn == 0x65 {
        if s.i + x < 4096 {
            Ok(
                Chip8View {
                    v: Seq::new(
                        16,
                        |j: int|
                            if 0 <= j <= x {
                                s.memory[s.i + j]
                            } else {
                                s.v[j]
                            },
                    ),
                    ..s
                },
            )
        } else {
            Err(Chip8Error::OutOfBounds)
        }
    } else {
        Err(Chip8Error::UnknownOpcode(op))
    }
}

/// Effect of one instruction on the machine state: the exact semantics
/// of every instruction form, or the fatal error the instruction meets.
/// `rnd` is the byte the random source supplied for this step; only
/// `CXNN` reads it. The program counter was already advanced past the
/// instruction by the fetch. Unrecognized forms fail loud as unknown
/// opcodes; a key index past the keypad and a key-wait rewind past
/// address zero count as out-of-range errors.
pub open spec fn spec_step(s: Chip8View, op: u16, rnd: u8) -> Result<Chip8View, Chip8Error> {
    let f = nib1(op);
    let x = nib2(op) as int;
    let y = nib3(op) as int;
    let n = nib4(op) as int;
    let nn = imm8(op);
    let nnn = addr12(op) as int;
    if f == 0 {
        if op == 0x00E0 {
            Ok(Chip8View { display: Seq::new(2048, |idx: int| false), ..s })
        } else if op == 0x00EE {
            if s.stack.len() == 0 {
                Err(Chip8Error::StackUnderflow)
            } else {
                Ok(Chip8View { pc: s.stack.last() as int, stack: s.stack.drop_last(), ..s })
            }
        } else {
            Err(Chip8Error::UnknownOpcode(op))
        }
    } else if f == 1 {
        Ok(Chip8View { pc: nnn, ..s })
    } else if f == 2 {
        Ok(Chip8View { stack: s.stack.push(s.pc as u16), pc: nnn, ..s })
    } else if f == 3 {
        if s.v[x] == nn {
            Ok(Chip8View { pc: s.pc + 2, ..s })
        } else {
            Ok(s)
        }
    } else if f == 4 {
        if s.v[x] != nn {
            Ok(Chip8View { pc: s.pc + 2, ..s })
        } else {
            Ok(s)
        }
    } else if f == 5 {
        if n != 0 {
            Err(Chip8Error::UnknownOpcode(op))
        } else if s.v[x] == s.v[y] {
            Ok(Chip8View { pc: s.pc + 2, ..s })
        } else {
            Ok(s)
        }
    } else if f == 6 {
        Ok(Chip8View { v: s.v.update(x, nn), ..s })
    } else if f == 7 {
        Ok(Chip8View { v: s.v.update(x, wrap_add8(s.v[x], nn)), ..s })
    } else if f == 8 {
        spec_step_alu(s, x, y, n, op)
    } else if f == 9 {
        if n != 0 {
            Err(Chip8Error::UnknownOpcode(op))
        } else if s.v[x] != s.v[y] {
            Ok(Chip8View { pc: s.pc + 2, ..s })
        } else {
            Ok(s)
        }
    } else if f == 0xA {
        Ok(Chip8View { i: nnn, ..s })
    } else if f == 0xB {
        Ok(Chip8View { pc: nnn + s.v[0], ..s })
    } else if f == 0xC {
        Ok(Chip8View { v: s.v.update(x, rnd & nn), ..s })
    } else if f == 0xD {
        spec_step_draw(s, x, y, n)
    } else if f == 0xE {
        if nn == 0x9E {
            if s.v[x] >= 16 {
                Err(Chip8Error::OutOfBounds)
            } else if s.keys[s.v[x] as int] {
                Ok(Chip8View { pc: s.pc + 2, ..s })
            } else {
                Ok(s)
            }
        } else if nn == 0xA1 {
            if s.v[x] >= 16 {
                Err(Chip8Error::OutOfBounds)
            } else if !s.keys[s.v[x] as int] {
                Ok(Chip8View { pc: s.pc + 2, ..s })
            } else {
                Ok(s)
            }
        } else {
            Err(Chip8Error::UnknownOpcode(op))
        }
    } else if f == 0xF {
        spec_step_fx(s, x, nn, op)
    } else {
        Err(Chip8Error::UnknownOpcode(op))
    }
}

/// Whether an executed instruction relates the before and after states,
/// and the returned result, as `res` (the modelled step) demands: on
/// success the state becomes the modelled state, on error it is
/// untouched and the same error is returned.
pub open spec fn outcome_matches(
    res: Result<Chip8View, Chip8Error>,
    pre: Chip8View,
    post: Chip8View,
    r: Result<(), Chip8Error>,
) -> bool {
    match res {
        Ok(s2) => r is Ok && post == s2,
        Err(e) => r == Result::<(), Chip8Error>::Err(e) && post == pre,
    }
}

/// `outcome_matches` against the full instruction step.
pub open spec fn step_outcome(
    pre: Chip8View,
    post: Chip8View,
    op: u16,
    rnd: u8,
    r: Result<(), Chip8Error>,
) -> bool {
    outcome_matches(spec_step(pre, op, rnd), pre, post, r)
}

/// `CXNN` is the one instruction whose outcome depends on the random
/// source.
pub open spec fn is_random_op(op: u16) -> bool {
    nib1(op) == 0xC
}

/// The instruction word stored big-endian at the program counter.
pub open spec fn spec_opcode_at(s: Chip8View) -> u16 {
    ((s.memory[s.pc] as u16) << 8) | (s.memory[s.pc + 1] as u16)
}

/// The state after a fetch: the program counter has moved past the
/// two instruction bytes.
pub open spec fn spec_advance(s: Chip8View) -> Chip8View {
    Chip8View { pc: s.pc + 2, ..s }
}

/// Effect of one full fetch-decode-execute step on the machine state.
pub open spec fn spec_tick(s: Chip8View, rnd: u8) -> Result<Chip8View, Chip8Error> {
    if s.pc + 1 >= 4096 {
        Err(Chip8Error::OutOfBounds)
    } else {
        spec_step(spec_advance(s), spec_opcode_at(s), rnd)
    }
}

/// The state a failed full step leaves behind: a fetch that runs out of
/// memory leaves the state alone; a failing instruction leaves the
/// advanced program counter behind, marking where it was met.
pub open spec fn spec_tick_fail_state(s: Chip8View) -> Chip8View {
    if s.pc + 1 >= 4096 {
        s
    } else {
        spec_advance(s)
    }
}

/// `outcome_matches` against the full fetch-decode-execute step.
pub open spec fn tick_outcome(
    pre: Chip8View,
    post: Chip8View,
    rnd: u8,
    r: Result<(), Chip8Error>,
) -> bool {
    match spec_tick(pre, rnd) {
        Ok(s2) => r is Ok && post == s2,
        Err(e) => r == Result::<(), Chip8Error>::Err(e) && post == spec_tick_fail_state(pre),
    }
}

/// The random byte never reaches any instruction but `CXNN`.
pub proof fn lemma_step_rnd_independent(s: Chip8View, op: u16, r1: u8, r2: u8)
    requires
        !is_random_op(op),
    ensures
        spec_step(s, op, r1) == spec_step(s, op, r2),
{
}

/// For all registers Vx and Vy, `8XY4` sets VF to 1 exactly when the
/// unsigned sum of Vx and Vy exceeds 255, and to 0 otherwise.
pub proof fn lemma_add_sets_carry(s: Chip8View, x: u16, y: u16, rnd: u8)
    requires
        wf_view(s),
        x < 16,
        y < 16,
    ensures
        ({
            let op = 0x8004u16 | (x << 8) | (y << 4);
            spec_step(s, op, rnd) matches Ok(s2) && s2.v[15] == (if s.v[x as int] + s.v[y as int]
                > 255 {
                1u8
            } else {
                0u8
            })
        }),
{
    let op = 0x8004u16 | (x << 8) | (y << 4);
    assert(((op >> 12) & 0xF) == 8 && ((op >> 8) & 0xF) == x && ((op >> 4) & 0xF) == y && (op
        & 0xF) == 4) by (bit_vector)
        requires
            x < 16,
            y < 16,
            op == 0x8004u16 | (x << 8) | (y << 4),
    ;
}

/// For all registers, `8XY5` sets VF to 1 exactly when Vx >= Vy (the
/// no-borrow convention), and `8XY7` sets VF to 1 exactly when Vy >= Vx.
pub proof fn lemma_sub_sets_no_borrow(s: Chip8View, x: u16, y: u16, rnd: u8)
    requires
        wf_view(s),
        x < 16,
        y < 16,
    ensures
        ({
            let op = 0x8005u16 | (x << 8) | (y << 4);
            spec_step(s, op, rnd) matches Ok(s2) && s2.v[15] == (if s.v[x as int] >= s.v[y as int] {
                1u8
            } else {
                0u8
            })
        }),
        ({
            let op = 0x8007u16 | (x << 8) | (y << 4);
            spec_step(s, op, rnd) matches Ok(s2) && s2.v[15] == (if s.v[y as int] >= s.v[x as int] {
                1u8
            } else {
                0u8
            })
        }),
{
    let op5 = 0x8005u16 | (x << 8) | (y << 4);
    assert(((op5 >> 12) & 0xF) == 8 && ((op5 >> 8) & 0xF) == x && ((op5 >> 4) & 0xF) == y && (op5
        & 0xF) == 5) by (bit_vector)
        requires
            x < 16,
            y < 16,
            op5 == 0x8005u16 | (x << 8) | (y << 4),
    ;
    let op7 = 0x8007u16 | (x << 8) | (y << 4);
    assert(((op7 >> 12) & 0xF) == 8 && ((op7 >> 8) & 0xF) == x && ((op7 >> 4) & 0xF) == y && (op7
        & 0xF) == 7) by (bit_vector)
        requires
            x < 16,
            y < 16,
            op7 == 0x8007u16 | (x << 8) | (y << 4),
    ;
}

/// With no key pressed, the blocking key wait `FX0A` leaves the machine
/// exactly as it was across a full fetch-decode-execute step: the fetch
/// advances the program counter by two and the wait rewinds it by two,
/// so the same instruction is fetched again on the next step.
pub proof fn lemma_key_wait_idles(s: Chip8View, rnd: u8)
    requires
        wf_view(s),
        s.pc + 1 < 4096,
        nib1(spec_opcode_at(s)) == 0xF,
        imm8(spec_opcode_at(s)) == 0x0A,
        no_key_pressed(s.keys),
    ensures
        spec_tick(s, rnd) == Ok::<Chip8View, Chip8Error>(s),
{
    crate::keypad::lemma_first_pressed_none(s.keys);
    let s1 = spec_advance(s);
    let op = spec_opcode_at(s);
    assert((Chip8View { pc: s1.pc - 2, ..s1 }) =~= s);
}

/// Relies on rand::random: one byte drawn from the thread-local
/// generator; nothing is assumed of its value.
#[verifier::external_body]
fn random_byte() -> u8 {
    rand::random::<u8>()
}

/// The virtual machine: 4096 bytes of memory, 16 8-bit registers, a call
/// stack, two countdown timers, and its framebuffer and keypad.
pub struct Chip8 {
    pub display: Display,
    pub keypad: Keypad,
    pub memory: Vec<u8>,
    pub pc: usize,
    pub i: usize,
    pub v: Vec<u8>,
    pub stack: Vec<u16>,
    pub delay_timer: u8,
    pub sound_timer: u8,
}

impl View for Chip8 {
    type V = Chip8View;

    open spec fn view(&self) -> Chip8View {
        Chip8View {
            display: self.display.buffer@,
            memory: self.memory@,
            pc: self.pc as int,
            i: self.i as int,
            v: self.v@,
            stack: self.stack@,
            keys: self.keypad.keys@,
            delay_timer: self.delay_timer,
            sound_timer: self.sound_timer,
        }
    }
}

impl Chip8 {
    pub open spec fn wf(&self) -> bool {
        &&& self.display.wf()
        &&& self.keypad.wf()
        &&& self.memory@.len() == 4096
        &&& self.v@.len() == 16
        &&& self.i < 4096
    }

    /// Decrement each timer by one, stopping at zero; invoked by the
    /// driver at its fixed tick rate, independently of execution.
    pub fn tick_timers(&mut self)
        ensures
            final(self).delay_timer == if old(self).delay_timer > 0 {
                (old(self).delay_timer - 1) as u8
            } else {
                0u8
            },
            final(self).sound_timer == if old(self).sound_timer > 0 {
                (old(self).sound_timer - 1) as u8
            } else {
                0u8
            },
            final(self).display == old(self).display,
            final(self).keypad == old(self).keypad,
            final(self).memory == old(self).memory,
            final(self).pc == old(self).pc,
            final(self).i == old(self).i,
            final(self).v == old(self).v,
            final(self).stack == old(self).stack,
    {
        if self.delay_timer > 0 {
            self.delay_timer = self.delay_timer - 1;
        }
        if self.sound_timer > 0 {
            self.sound_timer = self.sound_timer - 1;
        }
    }

    /// The `8XYn` arithmetic/logic family.
    fn exec_alu(&mut self, x: usize, y: usize, n: u16, op: u16) -> (r: Result<(), Chip8Error>)
        requires
            old(self).wf(),
            x < 16,
            y < 16,
        ensures
            final(self).wf(),
            outcome_matches(
                spec_step_alu(old(self)@, x as int, y as int, n as int, op),
                old(self)@,
                final(self)@,
                r,
            ),
    {
        let vx = self.v[x];
        let vy = self.v[y];
        if n == 0 {
            self.v.set(x, vy);
            Ok(())
        } else if n == 1 {
            self.v.set(x, vx | vy);
            Ok(())
        } else if n == 2 {
            self.v.set(x, vx & vy);
            Ok(())
        } else if n == 3 {
            self.v.set(x, vx ^ vy);
            Ok(())
        } else if n == 4 {
            let carry: bool = (vx as u16) + (vy as u16) > 255;
            self.v.set(x, vx.wrapping_add(vy));
            self.v.set(15, if carry { 1 } else { 0 });
            Ok(())
        } else if n == 5 {
            let no_borrow: bool = vx >= vy;
            self.v.set(x, vx.wrapping_sub(vy));
            self.v.set(15, if no_borrow { 1 } else { 0 });
            Ok(())
        } else if n == 6 {
            self.v.set(15, vx & 1);
            let cur = self.v[x];
            self.v.set(x, cur >> 1);
            Ok(())
        } else if n == 7 {
            let no_borrow: bool = vy >= vx;
            self.v.set(x, vy.wrapping_sub(vx));
            self.v.set(15, if no_borrow { 1 } else { 0 });
            Ok(())
        } else if n == 0xE {
            self.v.set(15, vx >> 7);
            let cur = self.v[x];
            self.v.set(x, cur << 1);
            Ok(())
        } else {
            Err(Chip8Error::UnknownOpcode(op))
        }
    }

    /// The `FXnn` family.
    fn exec_fx(&mut self, x: usize, nn: u8, op: u16) -> (r: Result<(), Chip8Error>)
        requires
            old(self).wf(),
            x < 16,
        ensures
            final(self).wf(),
            outcome_matches(
                spec_step_fx(old(self)@, x as int, nn, op),
                old(self)@,
                final(self)@,
                r,
            ),
    {
        if nn == 0x07 {
            let d = self.delay_timer;
            self.v.set(x, d);
            Ok(())
        } else if nn == 0x0A {
            match self.keypad.wait_for_key() {
                Some(k) => {
                    self.v.set(x, k);
                    Ok(())
                },
                None => {
                    if self.pc < 2 {
                        return Err(Chip8Error::OutOfBounds);
                    }
                    self.pc = self.pc - 2;
                    Ok(())
                },
            }
        } else if nn == 0x15 {
            self.delay_timer = self.v[x];
            Ok(())
        } else if nn == 0x18 {
            self.sound_timer = self.v[x];
            Ok(())
        } else if nn == 0x1E {
            let vx = self.v[x];
            if self.i + (vx as usize) >= 4096 {
                return Err(Chip8Error::OutOfBounds);
            }
            self.i = self.i + (vx as usize);
            Ok(())
        } else if nn == 0x29 {
            let vx = self.v[x];
            self.i = (vx as usize) * 5;
            Ok(())
        } else if nn == 0x33 {
            if self.i + 2 >= 4096 {
                return Err(Chip8Error::OutOfBounds);
            }
            let vx = self.v[x];
            self.memory.set(self.i, vx / 100);
            self.memory.set(self.i + 1, (vx / 10) % 10);
            self.memory.set(self.i + 2, vx % 10);
            Ok(())
        } else if nn == 0x55 {
            if self.i + x >= 4096 {
                return Err(Chip8Error::OutOfBounds);
            }
            let mut k: usize = 0;
            while k <= x
                invariant
                    self.wf(),
                    x < 16,
                    k <= x + 1,
                    self.i + x < 4096,
                    self.display == old(self).display,
                    self.keypad == old(self).keypad,
                    self.pc == old(self).pc,
                    self.i == old(self).i,
                    self.v == old(self).v,
                    self.stack == old(self).stack,
                    self.delay_timer == old(self).delay_timer,
                    self.sound_timer == old(self).sound_timer,
                    forall|j: int|
                        0 <= j < 4096 ==> self.memory@[j] == (if old(self)@.i <= j < old(self)@.i
                            + k {
                            old(self)@.v[j - old(self)@.i]
                        } else {
                            old(self)@.memory[j]
                        }),
                decreases x + 1 - k,
            {
                let val = self.v[k];
                self.memory.set(self.i + k, val);
                k = k + 1;
            }
            proof {
                assert(self.memory@ =~= Seq::new(
                    4096,
                    |j: int|
                        if old(self)@.i <= j <= old(self)@.i + x {
                            old(self)@.v[j - old(self)@.i]
                        } else {
                            old(self)@.memory[j]
                        },
                ));
            }
            Ok(())
        } else if nn == 0x65 {
            if self.i + x >= 4096 {
                return Err(Chip8Error::OutOfBounds);
            }
            let mut k: usize = 0;
            while k <= x
                invariant
                    self.wf(),
                    x < 16,
                    k <= x + 1,
                    self.i + x < 4096,
                    self.display == old(self).display,
                    self.keypad == old(self).keypad,
                    self.pc == old(self).pc,
                    self.i == old(self).i,
                    self.memory == old(self).memory,
                    self.stack == old(self).stack,
                    self.delay_timer == old(self).delay_timer,
                    self.sound_timer == old(self).sound_timer,
                    forall|j: int|
                        0 <= j < 16 ==> self.v@[j] == (if 0 <= j < k {
                            old(self)@.memory[old(self)@.i + j]
                        } else {
                            old(self)@.v[j]
                        }),
                decreases x + 1 - k,
            {
                let val = self.memory[self.i + k];
                self.v.set(k, val);
                k = k + 1;
            }
            proof {
                assert(self.v@ =~= Seq::new(
                    16,
                    |j: int|
                        if 0 <= j <= x {
                            old(self)@.memory[old(self)@.i + j]
                        } else {
                            old(self)@.v[j]
                        },
                ));
            }
            Ok(())
        } else {
            Err(Chip8Error::UnknownOpcode(op))
        }
    }

    /// The `DXYN` sprite draw.
    fn exec_draw(&mut self, x: usize, y: usize, n: usize) -> (r: Result<(), Chip8Error>)
        requires
            old(self).wf(),
            x < 16,
            y < 16,
            n < 16,
        ensures
            final(self).wf(),
            outcome_matches(
                spec_step_draw(old(self)@, x as int, y as int, n as int),
                old(self)@,
                final(self)@,
                r,
            ),
    {
        if self.i + n > 4096 {
            return Err(Chip8Error::OutOfBounds);
        }
        let mut sprite: Vec<u8> = Vec::new();
        let mut k: usize = 0;
        while k < n
            invariant
                self.wf(),
                self == old(self),
                n < 16,
                self.i + n <= 4096,
                k <= n,
                sprite@.len() == k,
                forall|j: int| 0 <= j < k ==> sprite@[j] == self.memory@[self.i + j],
            decreases n - k,
        {
            let b = self.memory[self.i + k];
            sprite.push(b);
            k = k + 1;
        }
        proof {
            assert(sprite@ =~= self.memory@.subrange(self.i as int, self.i + n));
        }
        let vx = self.v[x];
        let vy = self.v[y];
        let collided = self.display.draw(vx as usize, vy as usize, sprite.as_slice());
        self.v.set(15, if collided { 1 } else { 0 });
        Ok(())
    }

    /// Execute one already-fetched instruction, with the random source's
    /// byte for this step supplied by the caller; every outcome is
    /// determined by the arguments.
    pub fn execute_with_random(&mut self, op: u16, rnd: u8) -> (r: Result<(), Chip8Error>)
        requires
            old(self).wf(),
            old(self).pc <= usize::MAX - 2,
        ensures
            final(self).wf(),
            step_outcome(old(self)@, final(self)@, op, rnd, r),
    {
        proof {
            assert(((op >> 12) & 0xF) < 16 && ((op >> 8) & 0xF) < 16 && ((op >> 4) & 0xF) < 16 && (
            op & 0xF) < 16 && (op & 0xFFF) < 4096) by (bit_vector);
        }
        let f: u16 = (op >> 12) & 0xF;
        let x: usize = ((op >> 8) & 0xF) as usize;
        let y: usize = ((op >> 4) & 0xF) as usize;
        let n: u16 = op & 0xF;
        let nn: u8 = (op & 0xFF) as u8;
        let nnn: u16 = op & 0xFFF;
        if f == 0 {
            if op == 0x00E0 {
                self.display.clear();
                proof {
                    assert(self@.display =~= Seq::new(2048, |idx: int| false));
                }
                Ok(())
            } else if op == 0x00EE {
                match self.stack.pop() {
                    Some(addr) => {
                        self.pc = addr as usize;
                        Ok(())
                    },
                    None => Err(Chip8Error::StackUnderflow),
                }
            } else {
                Err(Chip8Error::UnknownOpcode(op))
            }
        } else if f == 1 {
            self.pc = nnn as usize;
            Ok(())
        } else if f == 2 {
            let ret: u16 = self.pc as u16;
            self.stack.push(ret);
            self.pc = nnn as usize;
            Ok(())
        } else if f == 3 {
            if self.v[x] == nn {
                self.pc = self.pc + 2;
            }
            Ok(())
        } else if f == 4 {
            if self.v[x] != nn {
                self.pc = self.pc + 2;
            }
            Ok(())
        } else if f == 5 {
            if n != 0 {
                Err(Chip8Error::UnknownOpcode(op))
            } else {
                if self.v[x] == self.v[y] {
                    self.pc = self.pc + 2;
                }
                Ok(())
            }
        } else if f == 6 {
            self.v.set(x, nn);
            Ok(())
        } else if f == 7 {
            let vx = self.v[x];
            self.v.set(x, vx.wrapping_add(nn));
            Ok(())
        } else if f == 8 {
            self.exec_alu(x, y, n, op)
        } else if f == 9 {
            if n != 0 {
                Err(Chip8Error::UnknownOpcode(op))
            } else {
                if self.v[x] != self.v[y] {
                    self.pc = self.pc + 2;
                }
                Ok(())
            }
        } else if f == 0xA {
            self.i = nnn as usize;
            Ok(())
        } else if f == 0xB {
            let v0 = self.v[0];
            self.pc = (nnn as usize) + (v0 as usize);
            Ok(())
        } else if f == 0xC {
            self.v.set(x, rnd & nn);
            Ok(())
        } else if f == 0xD {
            self.exec_draw(x, y, n as usize)
        } else if f == 0xE {
            if nn == 0x9E {
                let vx = self.v[x];
                if vx >= 16 {
                    Err(Chip8Error::OutOfBounds)
                } else {
                    if self.keypad.keys[vx as usize] {
                        self.pc = self.pc + 2;
                    }
                    Ok(())
                }
            } else if nn == 0xA1 {
                let vx = self.v[x];
                if vx >= 16 {
                    Err(Chip8Error::OutOfBounds)
                } else {
                    if !self.keypad.keys[vx as usize] {
                        self.pc = self.pc + 2;
                    }
                    Ok(())
                }
            } else {
                Err(Chip8Error::UnknownOpcode(op))
            }
        } else if f == 0xF {
            self.exec_fx(x, nn, op)
        } else {
            Err(Chip8Error::UnknownOpcode(op))
        }
    }

    /// Execute one already-fetched instruction, drawing the step's byte
    /// from the random source; only `CXNN` depends on that byte, and for
    /// every other instruction the outcome is the deterministic step.
    pub fn execute_instruction(&mut self, op: u16) -> (r: Result<(), Chip8Error>)
        requires
            old(self).wf(),
            old(self).pc <= usize::MAX - 2,
        ensures
            final(self).wf(),
            exists|rnd: u8| #[trigger] step_outcome(old(self)@, final(self)@, op, rnd, r),
            !is_random_op(op) ==> step_outcome(old(self)@, final(self)@, op, 0u8, r),
    {
        let rnd = random_byte();
        let r = self.execute_with_random(op, rnd);
        proof {
            assert(step_outcome(old(self)@, self@, op, rnd, r));
            if !is_random_op(op) {
                lemma_step_rnd_independent(old(self)@, op, rnd, 0u8);
            }
        }
        r
    }

    /// Read the two instruction bytes at the program counter, big-endian,
    /// and advance the counter past them; fails when the counter has left
    /// the addressable memory.
    pub fn fetch_opcode(&mut self) -> (r: Result<u16, Chip8Error>)
        requires
            old(self).wf(),
        ensures
            final(self).wf(),
            old(self).pc + 1 < 4096 ==> r == Result::<u16, Chip8Error>::Ok(
                spec_opcode_at(old(self)@),
            ) && final(self)@ == spec_advance(old(self)@),
            old(self).pc + 1 >= 4096 ==> r == Result::<u16, Chip8Error>::Err(
                Chip8Error::OutOfBounds,
            ) && final(self)@ == old(self)@,
    {
        if self.pc >= MEMORY_SIZE - 1 {
            return Err(Chip8Error::OutOfBounds);
        }
        let b1 = self.memory[self.pc];
        let b2 = self.memory[self.pc + 1];
        self.pc = self.pc + 2;
        Ok(((b1 as u16) << 8) | (b2 as u16))
    }

    /// One full fetch-decode-execute step: fetch the word at the program
    /// counter, advance it, and execute; a failing step reports the fatal
    /// error and goes no further.
    pub fn tick(&mut self) -> (r: Result<(), Chip8Error>)
        requires
            old(self).wf(),
        ensures
            final(self).wf(),
            exists|rnd: u8| #[trigger] tick_outcome(old(self)@, final(self)@, rnd, r),
            old(self).pc + 1 >= 4096 || !is_random_op(spec_opcode_at(old(self)@))
                ==> tick_outcome(old(self)@, final(self)@, 0u8, r),
    {
        let fetched = self.fetch_opcode();
        match fetched {
            Err(e) => {
                proof {
                    assert(tick_outcome(old(self)@, self@, 0u8, Result::<(), Chip8Error>::Err(e)));
                }
                Err(e)
            },
            Ok(op) => {
                let r = self.execute_instruction(op);
                proof {
                    let pre = old(self)@;
                    let rnd = choose|rnd: u8|
                        #[trigger] step_outcome(spec_advance(pre), self@, op, rnd, r);
                    assert(tick_outcome(pre, self@, rnd, r));
                    if !is_random_op(op) {
                        assert(tick_outcome(pre, self@, 0u8, r));
                    }
                }
                r
            },
        }
    }

    /// A machine at power-on: cleared framebuffer and keypad, the font
    /// atlas in the first 80 memory bytes and zeroes elsewhere, the
    /// program counter at the program start, and everything else zero.
    pub fn new() -> (r: Chip8)
        ensures
            r.wf(),
            forall|k: int| 0 <= k < 80 ==> r@.memory[k] == FONT_SPRITES@[k],
            forall|k: int| 80 <= k < 4096 ==> r@.memory[k] == 0,
            r@.pc == 0x200,
            r@.i == 0,
            forall|k: int| 0 <= k < 16 ==> r@.v[k] == 0,
            r@.stack.len() == 0,
            forall|k: int| 0 <= k < 16 ==> !r@.keys[k],
            forall|idx: int| 0 <= idx < 2048 ==> !r@.display[idx],
            r@.delay_timer == 0,
            r@.sound_timer == 0,
    {
        let mut memory: Vec<u8> = Vec::new();
        let mut k: usize = 0;
        while k < MEMORY_SIZE
            invariant
                memory@.len() == k,
                k <= 4096,
                forall|j: int| 0 <= j < k ==> memory@[j] == 0,
            decreases 4096 - k,
        {
            memory.push(0);
            k = k + 1;
        }
        let mut k: usize = 0;
        while k < 80
            invariant
                memory@.len() == 4096,
                k <= 80,
                forall|j: int| 0 <= j < k ==> memory@[j] == FONT_SPRITES@[j],
                forall|j: int| k <= j < 4096 ==> memory@[j] == 0,
            decreases 80 - k,
        {
            memory.set(k, FONT_SPRITES[k]);
            k = k + 1;
        }
        let mut v: Vec<u8> = Vec::new();
        let mut k: usize = 0;
        while k < 16
            invariant
                v@.len() == k,
                k <= 16,
                forall|j: int| 0 <= j < k ==> v@[j] == 0,
            decreases 16 - k,
        {
            v.push(0);
            k = k + 1;
        }
        Chip8 {
            display: Display::new(),
            keypad: Keypad::new(),
            memory,
            pc: PROGRAM_START,
            i: 0,
            v,
            stack: Vec::new(),
            delay_timer: 0,
            sound_timer: 0,
        }
    }

    /// Copy a program image into memory at the program start, truncating
    /// to the space available there, and report how many bytes landed.
    pub fn load_rom(&mut self, rom: &[u8]) -> (n: usize)
        requires
            old(self).wf(),
        ensures
            final(self).wf(),
            rom@.len() <= 3584 ==> n == rom@.len(),
            rom@.len() > 3584 ==> n == 3584,
            forall|j: int|
                0 <= j < 4096 && !(0x200 <= j < 0x200 + n) ==> final(self).memory@[j] == old(
                    self,
                ).memory@[j],
            forall|j: int| 0 <= j < n ==> final(self).memory@[0x200 + j] == rom@[j],
            final(self).display == old(self).display,
            final(self).keypad == old(self).keypad,
            final(self).pc == old(self).pc,
            final(self).i == old(self).i,
            final(self).v == old(self).v,
            final(self).stack == old(self).stack,
            final(self).delay_timer == old(self).delay_timer,
            final(self).sound_timer == old(self).sound_timer,
    {
        let n: usize = if rom.len() > MEMORY_SIZE - PROGRAM_START {
            MEMORY_SIZE - PROGRAM_START
        } else {
            rom.len()
        };
        let mut k: usize = 0;
        while k < n
            invariant
                self.wf(),
                n <= rom@.len(),
                n <= 3584,
                k <= n,
                self.display == old(self).display,
                self.keypad == old(self).keypad,
                self.pc == old(self).pc,
                self.i == old(self).i,
                self.v == old(self).v,
                self.stack == old(self).stack,
                self.delay_timer == old(self).delay_timer,
                self.sound_timer == old(self).sound_timer,
                forall|j: int|
                    0 <= j < 4096 && !(0x200 <= j < 0x200 + k) ==> self.memory@[j] == old(
                        self,
                    ).memory@[j],
                forall|j: int| 0 <= j < k ==> self.memory@[0x200 + j] == rom@[j],
            decreases n - k,
        {
            let b = rom[k];
            self.memory.set(PROGRAM_START + k, b);
            k = k + 1;
        }
        n
    }

    /// Record a host key event for logical key `key`.
    pub fn set_key(&mut self, key: u8, pressed: bool)
        requires
            old(self).wf(),
            key < 16,
        ensures
            final(self).wf(),
            final(self)@ == (Chip8View {
                keys: old(self)@.keys.update(key as int, pressed),
                ..old(self)@
            }),
    {
        self.keypad.set_key(key, pressed);
    }

    /// The lowest-numbered pressed key, or `None` when no key is pressed.
    pub fn wait_for_key(&self) -> (r: Option<u8>)
        requires
            self.wf(),
        ensures
            r == first_pressed(self@.keys),
            r is None <==> no_key_pressed(self@.keys),
            r matches Some(k) ==> k < 16 && self@.keys[k as int] && (forall|j: int|
                0 <= j < k ==> !self@.keys[j]),
    {
        self.keypad.wait_for_key()
    }
}

} // verus!
