use crate::display::{blank_grid, draw_collision, draw_grid, grid_wf, Display};
use crate::font::font_seq;
use crate::keypad::{first_key_down, Keypad};
use rand::Rng;
use vstd::prelude::*;

verus! {

/// A fatal condition of the emulated program (stack misuse, an effective
/// address outside the 4096-byte space), or a program image that does not
/// fit in program space.
#[derive(Clone, Copy, PartialEq, Eq, Structural, Debug)]
pub enum CpuError {
    ProgramTooLarge,
    StackOverflow,
    StackUnderflow,
    MemoryOutOfRange,
}

/// The abstract machine state: registers, index register, program counter,
/// call stack with its depth, memory, the two timers, the keypad and the
/// display grid with its changed flag.
#[verifier::ext_equal]
pub ghost struct CpuView {
    pub v: Seq<u8>,
    pub i: u16,
    pub pc: u16,
    pub stack: Seq<u16>,
    pub sp: u16,
    pub mem: Seq<u8>,
    pub dt: u8,
    pub st: u8,
    pub keys: Seq<bool>,
    pub grid: Seq<u8>,
    pub dirty: bool,
}

impl CpuView {
    /// Every fixed-size component has its size, the stack pointer stays in
    /// the 16-slot stack, and the grid holds 0/1 pixels.
    pub open spec fn wf(self) -> bool {
        &&& self.v.len() == 16
        &&& self.stack.len() == 16
        &&& self.sp <= 16
        &&& self.mem.len() == 4096
        &&& self.keys.len() == 16
        &&& grid_wf(self.grid)
    }
}

/// The virtual processor, owning its memory, register file, call stack and
/// timers together with the display and keypad it reads and mutates.
#[derive(Debug)]
pub struct CPU {
    pub v: Vec<u8>,
    pub i: u16,
    pub pc: u16,
    pub stack: Vec<u16>,
    pub sp: u16,
    pub memory: Vec<u8>,
    pub delay_timer: u8,
    pub sound_timer: u8,
    pub keypad: Keypad,
    pub display: Display,
}

impl View for CPU {
    type V = CpuView;

    open spec fn view(&self) -> CpuView {
        CpuView {
            v: self.v@,
            i: self.i,
            pc: self.pc,
            stack: self.stack@,
            sp: self.sp,
            mem: self.memory@,
            dt: self.delay_timer,
            st: self.sound_timer,
            keys: self.keypad.keys@,
            grid: self.display@.grid,
            dirty: self.display@.dirty,
        }
    }
}

/// The topmost 4 bits of an instruction word.
pub open spec fn nib1(op: u16) -> u16 {
    op >> 12
}

/// The second 4-bit field, selecting register x.
pub open spec fn nib2(op: u16) -> u16 {
    (op >> 8) & 0xF
}

/// The third 4-bit field, selecting register y.
pub open spec fn nib3(op: u16) -> u16 {
    (op >> 4) & 0xF
}

/// The lowest 4-bit field, a count or a family discriminant.
pub open spec fn nib4(op: u16) -> u16 {
    op & 0xF
}

/// The 12-bit address field.
pub open spec fn addr_nnn(op: u16) -> u16 {
    op & 0x0FFF
}

/// The 8-bit immediate field.
pub open spec fn imm_kk(op: u16) -> u8 {
    (op & 0xFF) as u8
}

/// The decoded 4-bit fields stay inside the register file and the address
/// field inside the address space.
pub proof fn lemma_decode_bounds(op: u16)
    by (bit_vector)
    ensures
        nib1(op) < 16,
        nib2(op) < 16,
        nib3(op) < 16,
        nib4(op) < 16,
        addr_nnn(op) < 4096,
{
}

/// A program counter advanced past one 2-byte instruction, wrapping at 16
/// bits.
pub open spec fn skip2(pc: u16) -> u16 {
    ((pc + 2) % 0x10000) as u16
}

/// One timer tick: down one, floored at zero.
pub open spec fn tick(t: u8) -> u8 {
    if t > 0 {
        (t - 1) as u8
    } else {
        0u8
    }
}

/// The timer after `n` ticks.
pub open spec fn tick_n(t: u8, n: nat) -> u8
    decreases n,
{
    if n == 0 {
        t
    } else {
        tick(tick_n(t, (n - 1) as nat))
    }
}

/// Timer decrements floor at zero: `n` ticks subtract `n`, and once the
/// count has reached zero any further ticks leave it there; it never goes
/// below zero however many extra ticks are invoked.
pub proof fn lemma_timer_floor(t: u8, n: nat)
    ensures
        tick_n(t, n) == if n >= t {
            0u8
        } else {
            (t - n) as u8
        },
    decreases n,
{
    if n > 0 {
        lemma_timer_floor(t, (n - 1) as nat);
    }
}

/// Whether register value `vx` names a key that is currently down; values
/// outside the 16 keys never match.
pub open spec fn key_down(keys: Seq<bool>, vx: u8) -> bool {
    vx < 16 && keys[vx as int]
}

/// `bytes[..count]` copied into `mem` starting at `base`, the rest of `mem`
/// unchanged.
pub open spec fn splice_bytes(mem: Seq<u8>, base: int, bytes: Seq<u8>, count: int) -> Seq<u8> {
    Seq::new(
        mem.len(),
        |m: int|
            if base <= m < base + count {
                bytes[m - base]
            } else {
                mem[m]
            },
    )
}

/// The register file after reading `count` registers back from `mem` at
/// `base`; the registers past `count` keep their values.
pub open spec fn load_regs(v: Seq<u8>, mem: Seq<u8>, base: int, count: int) -> Seq<u8> {
    Seq::new(
        v.len(),
        |r: int|
            if r < count {
                mem[base + r]
            } else {
                v[r]
            },
    )
}

/// Memory at creation: the 80-byte glyph table, then zeros.
pub open spec fn init_mem() -> Seq<u8> {
    Seq::new(
        4096,
        |k: int|
            if k < 80 {
                font_seq()[k]
            } else {
                0u8
            },
    )
}

/// The machine as `CPU::new` creates it: glyph table installed, everything
/// else zeroed, the program counter at 0x200, the display blank.
pub open spec fn initial_cpu() -> CpuView {
    CpuView {
        v: Seq::new(16, |k: int| 0u8),
        i: 0,
        pc: 0x200,
        stack: Seq::new(16, |k: int| 0u16),
        sp: 0,
        mem: init_mem(),
        dt: 0,
        st: 0,
        keys: Seq::new(16, |k: int| false),
        grid: blank_grid(),
        dirty: true,
    }
}

/// The big-endian instruction word at the program counter, both byte
/// addresses taken modulo the 4096-byte space.
pub open spec fn fetch_spec(s: CpuView) -> u16 {
    ((s.mem[(s.pc as int) % 4096] as u16) << 8) | (s.mem[((s.pc as int) + 1) % 4096] as u16)
}

/// The machine state after executing instruction `op` on state `pre`, with
/// `rnd` the externally drawn random byte. The program counter is first
/// advanced by 2; control-flow instructions overwrite or further adjust it.
/// On the inputs where `exec_err` reports a fault the state keeps only that
/// advance: the faulting access never happens. A field combination that
/// matches no instruction is a no-op.
pub open spec fn exec_spec(pre: CpuView, op: u16, rnd: u8) -> CpuView {
    let x = nib2(op) as int;
    let y = nib3(op) as int;
    let vx = pre.v[x];
    let vy = pre.v[y];
    let nnn = addr_nnn(op);
    let kk = imm_kk(op);
    let n = nib4(op) as int;
    let base = (pre.i as int) % 4096;
    let s = CpuView { pc: skip2(pre.pc), ..pre };
    if nib1(op) == 0x0 && nib2(op) == 0x0 && nib3(op) == 0xE && nib4(op) == 0x0 {
        CpuView { grid: blank_grid(), dirty: true, ..s }
    } else if nib1(op) == 0x0 && nib2(op) == 0x0 && nib3(op) == 0xE && nib4(op) == 0xE {
        if s.sp == 0 {
            s
        } else {
            CpuView { sp: (s.sp - 1) as u16, pc: s.stack[s.sp - 1], ..s }
        }
    } else if nib1(op) == 0x1 {
        CpuView { pc: nnn, ..s }
    } else if nib1(op) == 0x2 {
        if s.sp == 16 {
            s
        } else {
            CpuView {
                stack: s.stack.update(s.sp as int, s.pc),
                sp: (s.sp + 1) as u16,
                pc: nnn,
                ..s
            }
        }
    } else if nib1(op) == 0x3 {
        if vx == kk {
            CpuView { pc: skip2(s.pc), ..s }
        } else {
            s
        }
    } else if nib1(op) == 0x4 {
        if vx != kk {
            CpuView { pc: skip2(s.pc), ..s }
        } else {
            s
        }
    } else if nib1(op) == 0x5 {
        if vx == vy {
            CpuView { pc: skip2(s.pc), ..s }
        } else {
            s
        }
    } else if nib1(op) == 0x6 {
        CpuView { v: s.v.update(x, kk), ..s }
    } else if nib1(op) == 0x7 {
        CpuView { v: s.v.update(x, ((vx + kk) % 256) as u8), ..s }
    } else if nib1(op) == 0x8 {
        let k = nib4(op);
        if k == 0x0 {
            CpuView { v: s.v.update(x, vy), ..s }
        } else if k == 0x1 {
            CpuView { v: s.v.update(x, vx | vy), ..s }
        } else if k == 0x2 {
            CpuView { v: s.v.update(x, vx & vy), ..s }
        } else if k == 0x3 {
            CpuView { v: s.v.update(x, vx ^ vy), ..s }
        } else if k == 0x4 {
            let flag: u8 = if vx + vy > 255 {
                1
            } else {
                0
            };
            CpuView { v: s.v.update(0xF, flag).update(x, ((vx + vy) % 256) as u8), ..s }
        } else if k == 0x5 {
            let flag: u8 = if vx >= vy {
                1
            } else {
                0
            };
            CpuView { v: s.v.update(0xF, flag).update(x, ((vx - vy) % 256) as u8), ..s }
        } else if k == 0x6 {
            let v1 = s.v.update(0xF, vx & 1);
            CpuView { v: v1.update(x, v1[x] >> 1), ..s }
        } else if k == 0x7 {
            let flag: u8 = if vy >= vx {
                1
            } else {
                0
            };
            CpuView { v: s.v.update(0xF, flag).update(x, ((vy - vx) % 256) as u8), ..s }
        } else if k == 0xE {
            let v1 = s.v.update(0xF, vx >> 7);
            CpuView { v: v1.update(x, v1[x] << 1), ..s }
        } else {
            s
        }
    } else if nib1(op) == 0x9 {
        if vx != vy {
            CpuView { pc: skip2(s.pc), ..s }
        } else {
            s
        }
    } else if nib1(op) == 0xA {
        CpuView { i: nnn, ..s }
    } else if nib1(op) == 0xB {
        CpuView { pc: (nnn + pre.v[0]) as u16, ..s }
    } else if nib1(op) == 0xC {
        CpuView { v: s.v.update(x, rnd & kk), ..s }
    } else if nib1(op) == 0xD {
        if base + n > 4096 {
            s
        } else {
            let sprite = s.mem.subrange(base, base + n);
            let col = draw_collision(s.grid, vx as int, vy as int, sprite);
            CpuView {
                grid: draw_grid(s.grid, vx as int, vy as int, sprite),
                dirty: true,
                v: s.v.update(0xF, if col { 1u8 } else { 0u8 }),
                ..s
            }
        }
    } else if nib1(op) == 0xE && nib3(op) == 0x9 && nib4(op) == 0xE {
        if key_down(s.keys, vx) {
            CpuView { pc: skip2(s.pc), ..s }
        } else {
            s
        }
    } else if nib1(op) == 0xE && nib3(op) == 0xA && nib4(op) == 0x1 {
        if !key_down(s.keys, vx) {
            CpuView { pc: skip2(s.pc), ..s }
        } else {
            s
        }
    } else if nib1(op) == 0xF && nib3(op) == 0x0 && nib4(op) == 0x7 {
        CpuView { v: s.v.update(x, s.dt), ..s }
    } else if nib1(op) == 0xF && nib3(op) == 0x0 && nib4(op) == 0xA {
        match first_key_down(s.keys) {
            Some(key) => CpuView { v: s.v.update(x, key), ..s },
            None => CpuView { pc: ((s.pc - 2) % 0x10000) as u16, ..s },
        }
    } else if nib1(op) == 0xF && nib3(op) == 0x1 && nib4(op) == 0x5 {
        CpuView { dt: vx, ..s }
    } else if nib1(op) == 0xF && nib3(op) == 0x1 && nib4(op) == 0x8 {
        CpuView { st: vx, ..s }
    } else if nib1(op) == 0xF && nib3(op) == 0x1 && nib4(op) == 0xE {
        CpuView { i: ((s.i + vx) % 0x10000) as u16, ..s }
    } else if nib1(op) == 0xF && nib3(op) == 0x2 && nib4(op) == 0x9 {
        CpuView { i: (vx * 5) as u16, ..s }
    } else if nib1(op) == 0xF && nib3(op) == 0x3 && nib4(op) == 0x3 {
        if base + 3 > 4096 {
            s
        } else {
            CpuView {
                mem: s.mem.update(base, vx / 100).update(base + 1, (vx / 10) % 10).update(
                    base + 2,
                    vx % 10,
                ),
                ..s
            }
        }
    } else if nib1(op) == 0xF && nib3(op) == 0x5 && nib4(op) == 0x5 {
        if base + x + 1 > 4096 {
            s
        } else {
            CpuView { mem: splice_bytes(s.mem, base, s.v, x + 1), ..s }
        }
    } else if nib1(op) == 0xF && nib3(op) == 0x6 && nib4(op) == 0x5 {
        if base + x + 1 > 4096 {
            s
        } else {
            CpuView { v: load_regs(s.v, s.mem, base, x + 1), ..s }
        }
    } else {
        s
    }
}

/// Which fault, if any, executing `op` on state `pre` reports: returning on
/// an empty stack, calling at full stack depth, or an effective address
/// running past the 4096-byte space.
pub open spec fn exec_err(pre: CpuView, op: u16) -> Result<(), CpuError> {
    let x = nib2(op) as int;
    let n = nib4(op) as int;
    let base = (pre.i as int) % 4096;
    if nib1(op) == 0x0 && nib2(op) == 0x0 && nib3(op) == 0xE && nib4(op) == 0xE && pre.sp == 0 {
        Err(CpuError::StackUnderflow)
    } else if nib1(op) == 0x2 && pre.sp == 16 {
        Err(CpuError::StackOverflow)
    } else if nib1(op) == 0xD && base + n > 4096 {
        Err(CpuError::MemoryOutOfRange)
    } else if nib1(op) == 0xF && nib3(op) == 0x3 && nib4(op) == 0x3 && base + 3 > 4096 {
        Err(CpuError::MemoryOutOfRange)
    } else if nib1(op) == 0xF && (nib3(op) == 0x5 || nib3(op) == 0x6) && nib4(op) == 0x5 && base
        + x + 1 > 4096 {
        Err(CpuError::MemoryOutOfRange)
    } else {
        Ok(())
    }
}

/// Relies on rand::thread_rng and rand::Rng::gen: draws one byte from the
/// thread-local generator. Nothing is promised of the value.
#[verifier::external_body]
fn random_byte() -> u8 {
    rand::thread_rng().gen::<u8>()
}

impl CPU {
    /// A fresh machine: glyph table installed at the bottom of memory,
    /// everything else zeroed, program counter at 0x200.
    pub fn new() -> (cpu: CPU)
        ensures
            cpu@.wf(),
            cpu@ == initial_cpu(),
    {
        let mut memory: Vec<u8> = crate::font::font_set();
        while memory.len() < 4096
            invariant
                80 <= memory@.len() <= 4096,
                forall|k: int| 0 <= k < memory@.len() ==> memory@[k] == init_mem()[k],
            decreases 4096 - memory@.len(),
        {
            memory.push(0);
        }
        let mut v: Vec<u8> = Vec::new();
        while v.len() < 16
            invariant
                v@.len() <= 16,
                forall|k: int| 0 <= k < v@.len() ==> v@[k] == 0,
            decreases 16 - v@.len(),
        {
            v.push(0);
        }
        let mut stack: Vec<u16> = Vec::new();
        while stack.len() < 16
            invariant
                stack@.len() <= 16,
                forall|k: int| 0 <= k < stack@.len() ==> stack@[k] == 0,
            decreases 16 - stack@.len(),
        {
            stack.push(0);
        }
        let cpu = CPU {
            v,
            i: 0,
            pc: 0x200,
            stack,
            sp: 0,
            memory,
            delay_timer: 0,
            sound_timer: 0,
            keypad: Keypad::new(),
            display: Display::new(),
        };
        proof {
            assert(cpu@.v =~= initial_cpu().v);
            assert(cpu@.stack =~= initial_cpu().stack);
            assert(cpu@.mem =~= initial_cpu().mem);
            assert(cpu@.keys =~= initial_cpu().keys);
            assert(cpu@ =~= initial_cpu());
        }
        cpu
    }

    /// Copies a program image into memory at 0x200. An image longer than the
    /// 3584 bytes of program space is rejected before any memory is touched;
    /// memory below 0x200 is never written either way.
    pub fn load_rom(&mut self, rom: &Vec<u8>) -> (res: Result<(), CpuError>)
        requires
            old(self)@.wf(),
        ensures
            final(self)@.wf(),
            rom@.len() <= 3584 ==> res == Ok::<(), CpuError>(()) && final(self)@ == (CpuView {
                mem: splice_bytes(old(self)@.mem, 0x200, rom@, rom@.len() as int),
                ..old(self)@
            }),
            rom@.len() > 3584 ==> res == Err::<(), CpuError>(CpuError::ProgramTooLarge)
                && final(self)@ == old(self)@,
    {
        if rom.len() > 3584 {
            return Err(CpuError::ProgramTooLarge);
        }
        let n: usize = rom.len();
        let mut k: usize = 0;
        while k < n
            invariant
                old(self)@.wf(),
                0 <= k <= n,
                n == rom@.len() <= 3584,
                self@ == (CpuView {
                    mem: splice_bytes(old(self)@.mem, 0x200, rom@, k as int),
                    ..old(self)@
                }),
            decreases n - k,
        {
            let ghost prev = self@;
            self.memory.set(0x200 + k, rom[k]);
            k = k + 1;
            proof {
                assert(self@.mem =~= splice_bytes(old(self)@.mem, 0x200, rom@, k as int));
                assert(self@ =~= (CpuView {
                    mem: splice_bytes(old(self)@.mem, 0x200, rom@, k as int),
                    ..old(self)@
                }));
            }
        }
        proof {
            assert(self@ =~= (CpuView {
                mem: splice_bytes(old(self)@.mem, 0x200, rom@, rom@.len() as int),
                ..old(self)@
            }));
        }
        Ok(())
    }

    /// One external timer tick: each timer goes down by one, floored at
    /// zero. Driven by the caller at its own fixed rate, independently of
    /// instruction execution.
    pub fn decrement_dt(&mut self)
        requires
            old(self)@.wf(),
        ensures
            final(self)@.wf(),
            final(self)@ == (CpuView {
                dt: tick(old(self)@.dt),
                st: tick(old(self)@.st),
                ..old(self)@
            }),
    {
        if self.delay_timer > 0 {
            self.delay_timer = self.delay_timer - 1;
        }
        if self.sound_timer > 0 {
            self.sound_timer = self.sound_timer - 1;
        }
        proof {
            assert(self@ =~= (CpuView {
                dt: tick(old(self)@.dt),
                st: tick(old(self)@.st),
                ..old(self)@
            }));
        }
    }

    /// The two bytes at the program counter as one big-endian word.
    fn fetch_opcode(&self) -> (op: u16)
        requires
            self@.wf(),
        ensures
            op == fetch_spec(self@),
    {
        let hi: u8 = self.memory[(self.pc as usize) % 4096];
        let lo: u8 = self.memory[((self.pc as usize) + 1) % 4096];
        ((hi as u16) << 8) | (lo as u16)
    }

    /// Executes one decoded instruction. The cycle's random byte is a
    /// parameter, so a caller can reproduce a run; `run_cycle` draws it
    /// externally. The program counter is advanced by 2 before the
    /// instruction acts. A fault (stack misuse, an address past the end of
    /// memory) is reported without performing the access; an unknown field
    /// combination is a no-op.
    pub fn exec_opcode(&mut self, opcode: u16, rnd: u8) -> (res: Result<(), CpuError>)
        requires
            old(self)@.wf(),
        ensures
            final(self)@.wf(),
            final(self)@ == exec_spec(old(self)@, opcode, rnd),
            res == exec_err(old(self)@, opcode),
    {
        proof {
            lemma_decode_bounds(opcode);
        }
        let nibble_1: u16 = opcode >> 12;
        let nibble_2: u16 = (opcode >> 8) & 0xF;
        let nibble_3: u16 = (opcode >> 4) & 0xF;
        let nibble_4: u16 = opcode & 0xF;
        let x: usize = nibble_2 as usize;
        let y: usize = nibble_3 as usize;
        let vx: u8 = self.v[x];
        let vy: u8 = self.v[y];
        let nnn: u16 = opcode & 0x0FFF;
        let kk: u8 = (opcode & 0xFF) as u8;

        self.pc = ((self.pc as u32 + 2) % 0x10000) as u16;

        match (nibble_1, nibble_2, nibble_3, nibble_4) {
            (0x0, 0x0, 0xE, 0x0) => {
                // clear screen
                self.display.cls();
            },
            (0x0, 0x0, 0xE, 0xE) => {
                // return: pop the call stack into the program counter
                if self.sp == 0 {
                    return Err(CpuError::StackUnderflow);
                }
                self.sp = self.sp - 1;
                self.pc = self.stack[self.sp as usize];
            },
            (0x1, _, _, _) => {
                // jump
                self.pc = nnn;
            },
            (0x2, _, _, _) => {
                // call: push the already-advanced counter
                if self.sp >= 16 {
                    return Err(CpuError::StackOverflow);
                }
                self.stack.set(self.sp as usize, self.pc);
                self.sp = self.sp + 1;
                self.pc = nnn;
            },
            (0x3, _, _, _) => {
                // skip if Vx equals the immediate
                if vx == kk {
                    self.pc = ((self.pc as u32 + 2) % 0x10000) as u16;
                }
            },
            (0x4, _, _, _) => {
                // skip if Vx differs from the immediate
                if vx != kk {
                    self.pc = ((self.pc as u32 + 2) % 0x10000) as u16;
                }
            },
            (0x5, _, _, _) => {
                // skip if Vx equals Vy
                if vx == vy {
                    self.pc = ((self.pc as u32 + 2) % 0x10000) as u16;
                }
            },
            (0x6, _, _, _) => {
                // load immediate
                self.v.set(x, kk);
            },
            (0x7, _, _, _) => {
                // add immediate, wrapping silently with no flag
                self.v.set(x, ((vx as u16 + kk as u16) % 256) as u8);
            },
            (0x8, _, _, 0x0) => {
                self.v.set(x, vy);
            },
            (0x8, _, _, 0x1) => {
                self.v.set(x, vx | vy);
            },
            (0x8, _, _, 0x2) => {
                self.v.set(x, vx & vy);
            },
            (0x8, _, _, 0x3) => {
                self.v.set(x, vx ^ vy);
            },
            (0x8, _, _, 0x4) => {
                // add registers; the flag reports 8-bit overflow
                let sum: u16 = vx as u16 + vy as u16;
                let flag: u8 = if sum > 255 {
                    1
                } else {
                    0
                };
                self.v.set(0xF, flag);
                self.v.set(x, (sum % 256) as u8);
            },
            (0x8, _, _, 0x5) => {
                // subtract; the flag reports the absence of a borrow
                let flag: u8 = if vx >= vy {
                    1
                } else {
                    0
                };
                let diff: u8 = ((vx as u16 + 256 - vy as u16) % 256) as u8;
                self.v.set(0xF, flag);
                self.v.set(x, diff);
                proof {
                    vstd::arithmetic::div_mod::lemma_mod_multiples_vanish(
                        1,
                        vx as int - vy as int,
                        256,
                    );
                }
            },
            (0x8, _, _, 0x6) => {
                // shift right; the flag takes the pre-shift low bit
                self.v.set(0xF, vx & 1);
                let cur: u8 = self.v[x];
                self.v.set(x, cur >> 1);
            },
            (0x8, _, _, 0x7) => {
                // reverse subtract
                let flag: u8 = if vy >= vx {
                    1
                } else {
                    0
                };
                let diff: u8 = ((vy as u16 + 256 - vx as u16) % 256) as u8;
                self.v.set(0xF, flag);
                self.v.set(x, diff);
                proof {
                    vstd::arithmetic::div_mod::lemma_mod_multiples_vanish(
                        1,
                        vy as int - vx as int,
                        256,
                    );
                }
            },
            (0x8, _, _, 0xE) => {
                // shift left; the flag takes the pre-shift high bit
                self.v.set(0xF, vx >> 7);
                let cur: u8 = self.v[x];
                self.v.set(x, cur << 1u8);
            },
            (0x9, _, _, _) => {
                // skip if Vx differs from Vy
                if vx != vy {
                    self.pc = ((self.pc as u32 + 2) % 0x10000) as u16;
                }
            },
            (0xA, _, _, _) => {
                self.i = nnn;
            },
            (0xB, _, _, _) => {
                // jump with offset from V0
                self.pc = nnn + self.v[0] as u16;
            },
            (0xC, _, _, _) => {
                // random byte masked by the immediate
                self.v.set(x, rnd & kk);
            },
            (0xD, _, _, _) => {
                // draw an n-row sprite read at the index register
                let base: usize = (self.i as usize) % 4096;
                let rows: usize = nibble_4 as usize;
                if base + rows > 4096 {
                    return Err(CpuError::MemoryOutOfRange);
                }
                let mut sprite: Vec<u8> = Vec::new();
                let mut k: usize = 0;
                while k < rows
                    invariant
                        0 <= k <= rows,
                        rows < 16,
                        base + rows <= 4096,
                        old(self)@.wf(),
                        self@ == (CpuView { pc: skip2(old(self)@.pc), ..old(self)@ }),
                        sprite@ == self.memory@.subrange(base as int, base as int + k as int),
                        k == sprite@.len(),
                    decreases rows - k,
                {
                    sprite.push(self.memory[base + k]);
                    k = k + 1;
                    proof {
                        assert(sprite@ =~= self.memory@.subrange(
                            base as int,
                            base as int + k as int,
                        ));
                    }
                }
                let collision = self.display.draw_sprite(vx as usize, vy as usize, sprite.as_slice());
                self.v.set(0xF, if collision { 1 } else { 0 });
            },
            (0xE, _, 0x9, 0xE) => {
                // skip if the key named by Vx is down
                let down: bool = vx < 16 && self.keypad.is_key_down(vx);
                if down {
                    self.pc = ((self.pc as u32 + 2) % 0x10000) as u16;
                }
            },
            (0xE, _, 0xA, 0x1) => {
                // skip if the key named by Vx is up
                let down: bool = vx < 16 && self.keypad.is_key_down(vx);
                if !down {
                    self.pc = ((self.pc as u32 + 2) % 0x10000) as u16;
                }
            },
            (0xF, _, 0x0, 0x7) => {
                self.v.set(x, self.delay_timer);
            },
            (0xF, _, 0x0, 0xA) => {
                // block for a key: rewind and replay until one is down
                match self.keypad.get_pressed_key() {
                    Some(key) => {
                        self.v.set(x, key);
                    },
                    None => {
                        self.pc = ((self.pc as u32 + 0x10000 - 2) % 0x10000) as u16;
                        proof {
                            vstd::arithmetic::div_mod::lemma_mod_multiples_vanish(
                                1,
                                skip2(old(self)@.pc) - 2,
                                0x10000,
                            );
                        }
                    },
                }
            },
            (0xF, _, 0x1, 0x5) => {
                self.delay_timer = vx;
            },
            (0xF, _, 0x1, 0x8) => {
                self.sound_timer = vx;
            },
            (0xF, _, 0x1, 0xE) => {
                // add to index, wrapping at 16 bits
                self.i = ((self.i as u32 + vx as u32) % 0x10000) as u16;
            },
            (0xF, _, 0x2, 0x9) => {
                // glyph address: each glyph is 5 bytes from the bottom
                self.i = vx as u16 * 5;
            },
            (0xF, _, 0x3, 0x3) => {
                // store the decimal digits of Vx
                let base: usize = (self.i as usize) % 4096;
                if base + 3 > 4096 {
                    return Err(CpuError::MemoryOutOfRange);
                }
                self.memory.set(base, vx / 100);
                self.memory.set(base + 1, (vx / 10) % 10);
                self.memory.set(base + 2, vx % 10);
            },
            (0xF, _, 0x5, 0x5) => {
                // dump V0..=Vx to memory at the index register
                let base: usize = (self.i as usize) % 4096;
                if base + x + 1 > 4096 {
                    return Err(CpuError::MemoryOutOfRange);
                }
                let mut k: usize = 0;
                while k < x + 1
                    invariant
                        0 <= k <= x + 1,
                        x < 16,
                        base + x + 1 <= 4096,
                        old(self)@.wf(),
                        base == (old(self)@.i as int) % 4096,
                        self@ == (CpuView {
                            pc: skip2(old(self)@.pc),
                            mem: splice_bytes(old(self)@.mem, base as int, old(self)@.v, k as int),
                            ..old(self)@
                        }),
                    decreases x + 1 - k,
                {
                    self.memory.set(base + k, self.v[k]);
                    k = k + 1;
                    proof {
                        assert(self@.mem =~= splice_bytes(
                            old(self)@.mem,
                            base as int,
                            old(self)@.v,
                            k as int,
                        ));
                    }
                }
            },
            (0xF, _, 0x6, 0x5) => {
                // load V0..=Vx back from memory at the index register
                let base: usize = (self.i as usize) % 4096;
                if base + x + 1 > 4096 {
                    return Err(CpuError::MemoryOutOfRange);
                }
                let mut k: usize = 0;
                while k < x + 1
                    invariant
                        0 <= k <= x + 1,
                        x < 16,
                        base + x + 1 <= 4096,
                        old(self)@.wf(),
                        base == (old(self)@.i as int) % 4096,
                        self@ == (CpuView {
                            pc: skip2(old(self)@.pc),
                            v: load_regs(old(self)@.v, old(self)@.mem, base as int, k as int),
                            ..old(self)@
                        }),
                    decreases x + 1 - k,
                {
                    let b: u8 = self.memory[base + k];
                    self.v.set(k, b);
                    k = k + 1;
                    proof {
                        assert(self@.v =~= load_regs(
                            old(self)@.v,
                            old(self)@.mem,
                            base as int,
                            k as int,
                        ));
                    }
                }
            },
            (_, _, _, _) => (),
        }
        proof {
            assert(self@ =~= exec_spec(old(self)@, opcode, rnd));
        }
        Ok(())
    }

    /// One full cycle: fetch the instruction at the program counter, draw
    /// the cycle's random byte, and execute.
    pub fn run_cycle(&mut self) -> (res: Result<(), CpuError>)
        requires
            old(self)@.wf(),
        ensures
            final(self)@.wf(),
            res == exec_err(old(self)@, fetch_spec(old(self)@)),
            exists|rnd: u8| final(self)@ == exec_spec(old(self)@, fetch_spec(old(self)@), rnd),
    {
        let opcode: u16 = self.fetch_opcode();
        let rnd: u8 = random_byte();
        let res = self.exec_opcode(opcode, rnd);
        proof {
            assert(self@ == exec_spec(old(self)@, fetch_spec(old(self)@), rnd));
        }
        res
    }
}

/// Add-with-carry (8xy4): for any two registers and any byte values in them,
/// the flag register receives 1 exactly when the 8-bit sum overflows, and the
/// target register receives the sum modulo 256. When the flag register itself
/// is the target, the wrapped sum lands there last and overwrites the flag,
/// so that case is excluded.
pub proof fn lemma_add_with_carry(pre: CpuView, x: u16, y: u16, rnd: u8)
    requires
        pre.wf(),
        x < 16,
        y < 16,
        x != 0xF,
    ensures
        ({
            let op = 0x8004u16 | (x << 8) | (y << 4);
            let post = exec_spec(pre, op, rnd);
            let a = pre.v[x as int];
            let b = pre.v[y as int];
            &&& post.v[15] == (if a + b > 255 {
                1u8
            } else {
                0u8
            })
            &&& post.v[x as int] == ((a + b) % 256) as u8
            &&& post.pc == skip2(pre.pc)
        }),
{
    let op = 0x8004u16 | (x << 8) | (y << 4);
    assert(nib1(op) == 0x8 && nib2(op) == x && nib3(op) == y && nib4(op) == 0x4) by (bit_vector)
        requires
            op == 0x8004u16 | (x << 8) | (y << 4),
            x < 16,
            y < 16,
    ;
}

/// Subtract (8xy5): the flag register receives 1 exactly when no borrow
/// occurs (Vx at least Vy), and the target register receives the difference
/// modulo 256. The flag register itself as target is excluded as above.
pub proof fn lemma_sub_sets_no_borrow(pre: CpuView, x: u16, y: u16, rnd: u8)
    requires
        pre.wf(),
        x < 16,
        y < 16,
        x != 0xF,
    ensures
        ({
            let op = 0x8005u16 | (x << 8) | (y << 4);
            let post = exec_spec(pre, op, rnd);
            let a = pre.v[x as int];
            let b = pre.v[y as int];
            &&& post.v[15] == (if a >= b {
                1u8
            } else {
                0u8
            })
            &&& post.v[x as int] == ((a - b) % 256) as u8
            &&& post.pc == skip2(pre.pc)
        }),
{
    let op = 0x8005u16 | (x << 8) | (y << 4);
    assert(nib1(op) == 0x8 && nib2(op) == x && nib3(op) == y && nib4(op) == 0x5) by (bit_vector)
        requires
            op == 0x8005u16 | (x << 8) | (y << 4),
            x < 16,
            y < 16,
    ;
}

/// Shift-right (8xy6): the flag register receives the pre-shift
/// least-significant bit and the target register is halved. With the flag
/// register as target the shift reads the just-written flag, so that case is
/// excluded.
pub proof fn lemma_shift_right_flag(pre: CpuView, x: u16, y: u16, rnd: u8)
    requires
        pre.wf(),
        x < 16,
        y < 16,
        x != 0xF,
    ensures
        ({
            let op = 0x8006u16 | (x << 8) | (y << 4);
            let post = exec_spec(pre, op, rnd);
            let a = pre.v[x as int];
            &&& post.v[15] == a % 2
            &&& post.v[x as int] == a / 2
            &&& post.pc == skip2(pre.pc)
        }),
{
    let op = 0x8006u16 | (x << 8) | (y << 4);
    assert(nib1(op) == 0x8 && nib2(op) == x && nib3(op) == y && nib4(op) == 0x6) by (bit_vector)
        requires
            op == 0x8006u16 | (x << 8) | (y << 4),
            x < 16,
            y < 16,
    ;
    let a = pre.v[x as int];
    assert(a & 1 == a % 2) by (bit_vector);
    assert(a >> 1 == a / 2) by (bit_vector);
}

/// Shift-left (8xyE): the flag register receives the pre-shift
/// most-significant bit and the target register is doubled modulo 256. The
/// flag register as target is excluded as above.
pub proof fn lemma_shift_left_flag(pre: CpuView, x: u16, y: u16, rnd: u8)
    requires
        pre.wf(),
        x < 16,
        y < 16,
        x != 0xF,
    ensures
        ({
            let op = 0x800Eu16 | (x << 8) | (y << 4);
            let post = exec_spec(pre, op, rnd);
            let a = pre.v[x as int];
            &&& post.v[15] == a / 128
            &&& post.v[x as int] == ((2 * a) % 256) as u8
            &&& post.pc == skip2(pre.pc)
        }),
{
    let op = 0x800Eu16 | (x << 8) | (y << 4);
    assert(nib1(op) == 0x8 && nib2(op) == x && nib3(op) == y && nib4(op) == 0xE) by (bit_vector)
        requires
            op == 0x800Eu16 | (x << 8) | (y << 4),
            x < 16,
            y < 16,
    ;
    let a = pre.v[x as int];
    assert(a >> 7 == a / 128) by (bit_vector);
    assert(a << 1 == ((2 * a) % 256) as u8) by (bit_vector);
}

/// Block-for-key (Fx0A): with no key down the cycle leaves the whole state,
/// the program counter included, exactly as it was, so the instruction
/// replays next cycle; with a key down the counter advances normally and the
/// target register receives the lowest-indexed key that is down.
pub proof fn lemma_block_for_key(pre: CpuView, x: u16, rnd: u8)
    requires
        pre.wf(),
        x < 16,
    ensures
        ({
            let op = 0xF00Au16 | (x << 8);
            let post = exec_spec(pre, op, rnd);
            &&& (first_key_down(pre.keys) is None ==> post == pre)
            &&& (first_key_down(pre.keys) matches Some(key) ==> {
                &&& post == (CpuView { pc: skip2(pre.pc), v: pre.v.update(x as int, key), ..pre })
                &&& key < 16
                &&& pre.keys[key as int]
                &&& (forall|j: int| 0 <= j < key ==> !pre.keys[j])
            })
        }),
{
    let op = 0xF00Au16 | (x << 8);
    assert(nib1(op) == 0xF && nib2(op) == x && nib3(op) == 0x0 && nib4(op) == 0xA) by (bit_vector)
        requires
            op == 0xF00Au16 | (x << 8),
            x < 16,
    ;
    crate::keypad::lemma_first_key_down(pre.keys);
    let post = exec_spec(pre, op, rnd);
    match first_key_down(pre.keys) {
        None => {
            let p = pre.pc as int;
            if p + 2 < 0x10000 {
                vstd::arithmetic::div_mod::lemma_small_mod((p + 2) as nat, 0x10000);
                vstd::arithmetic::div_mod::lemma_small_mod(p as nat, 0x10000);
            } else {
                vstd::arithmetic::div_mod::lemma_mod_multiples_vanish(1, p + 2 - 0x10000, 0x10000);
                vstd::arithmetic::div_mod::lemma_small_mod((p + 2 - 0x10000) as nat, 0x10000);
                vstd::arithmetic::div_mod::lemma_mod_multiples_vanish(1, p - 0x10000, 0x10000);
            }
            assert(((skip2(pre.pc) - 2) % 0x10000) as u16 == pre.pc);
            assert(post =~= pre);
        },
        Some(key) => {
            assert(post =~= (CpuView {
                pc: skip2(pre.pc),
                v: pre.v.update(x as int, key),
                ..pre
            }));
        },
    }
}

/// Glyph address (Fx29): the index register receives five times the digit in
/// the source register, the start of that digit's glyph in the built-in
/// table.
pub proof fn lemma_glyph_address(pre: CpuView, x: u16, rnd: u8)
    requires
        pre.wf(),
        x < 16,
    ensures
        ({
            let op = 0xF029u16 | (x << 8);
            let post = exec_spec(pre, op, rnd);
            &&& post.i == 5 * pre.v[x as int]
            &&& post == (CpuView { i: (5 * pre.v[x as int]) as u16, pc: skip2(pre.pc), ..pre })
        }),
{
    let op = 0xF029u16 | (x << 8);
    assert(nib1(op) == 0xF && nib2(op) == x && nib3(op) == 0x2 && nib4(op) == 0x9) by (bit_vector)
        requires
            op == 0xF029u16 | (x << 8),
            x < 16,
    ;
    let post = exec_spec(pre, op, rnd);
    assert(post =~= (CpuView { i: (5 * pre.v[x as int]) as u16, pc: skip2(pre.pc), ..pre }));
}

/// In a fresh machine the five bytes starting at address 5d hold exactly the
/// built-in bitmap of hexadecimal digit d.
pub proof fn lemma_glyph_table(d: int)
    requires
        0 <= d < 16,
    ensures
        initial_cpu().mem.subrange(5 * d, 5 * d + 5) == crate::font::glyph(d),
{
    assert(initial_cpu().mem.subrange(5 * d, 5 * d + 5) =~= crate::font::glyph(d));
}

/// Loading a program image touches no byte below 0x200: the glyph table and
/// the reserved space survive every load.
pub proof fn lemma_load_preserves_low(mem: Seq<u8>, rom: Seq<u8>, k: int)
    requires
        mem.len() == 4096,
        0 <= k < 0x200,
    ensures
        splice_bytes(mem, 0x200, rom, rom.len() as int)[k] == mem[k],
{
}

} // verus!
