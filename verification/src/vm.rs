//! A small register machine: four 32-bit registers and a byte code of
//! arithmetic and logic instructions with four operand modes.
//!
//! The machine reads its code byte by byte. Each advance of the program
//! counter is recorded with the registers as they stood, so that a host can
//! show the run afterwards.

use vstd::prelude::*;

verus! {

pub const ADD: u8 = 0x01;

pub const SUB: u8 = 0x02;

pub const JMP: u8 = 0x03;

pub const JZ: u8 = 0x04;

pub const JLZ: u8 = 0x05;

pub const JMZ: u8 = 0x06;

pub const MOV: u8 = 0x07;

pub const LDP: u8 = 0x08;

pub const STP: u8 = 0x09;

pub const AND: u8 = 0x0A;

pub const NOT: u8 = 0x0B;

pub const OR: u8 = 0x0C;

pub const NOR: u8 = 0x0D;

pub const NAND: u8 = 0x0E;

pub const XOR: u8 = 0x0F;

pub const XNOR: u8 = 0x10;

pub const HLT: u8 = 0x11;

pub const NOP: u8 = 0x12;

pub const INT: u8 = 0x13;

pub const COMPARE: u8 = 0x14;

/// The source operand is a register.
pub const RR_MODE: u8 = 0x01;

/// The source operand is the next byte.
pub const RB_MODE: u8 = 0x02;

/// The source operand is the next two bytes, low byte first.
pub const RW_MODE: u8 = 0x03;

/// The source operand is the next four bytes, low byte first.
pub const RD_MODE: u8 = 0x04;

/// Why a run ended before the program counter left the code in the main
/// loop.
#[derive(Debug, Clone, Copy, PartialEq, Eq, Structural)]
pub enum Halt {
    /// An operand was to be read past the last byte of the code.
    End,
    /// The target register of an instruction is not one of the four.
    BadTarget,
    /// The source register of an instruction is not one of the four.
    BadRegister,
    /// The operand mode is not one of the four.
    BadMode,
    /// The byte is no instruction of the machine.
    BadOpcode,
    /// An addition or subtraction left the range of a register.
    Overflow,
}

/// The program counter and the registers as they stood before one advance
/// of the counter.
#[derive(Debug, Clone, Copy)]
pub struct Snapshot {
    pub counter: u32,
    pub regs: [u32; 4],
}

/// The machine as a mathematical value.
#[verifier::ext_equal]
pub struct ProgramView {
    pub regs: Seq<u32>,
    pub code: Seq<u8>,
    pub counter: int,
    pub halted: bool,
    pub trace: Seq<Snapshot>,
}

/// The 16-bit word with low byte `first` and high byte `second`.
pub open spec fn word_of(first: u8, second: u8) -> u16 {
    ((second as u16) << 8) | (first as u16)
}

/// The 32-bit word with low half `first` and high half `second`.
pub open spec fn dword_of(first: u16, second: u16) -> u32 {
    ((second as u32) << 16) | (first as u32)
}

/// The value that instruction `which` leaves in its target register, given
/// the value `target` of that register and the source operand.
pub open spec fn computed(which: u8, target: u32, source: u32) -> Result<u32, Halt> {
    if which == AND {
        Ok(target & source)
    } else if which == NAND {
        Ok(!(target & source))
    } else if which == OR {
        Ok(target | source)
    } else if which == NOR {
        Ok(!(target | source))
    } else if which == XOR {
        Ok(target ^ source)
    } else if which == XNOR {
        Ok(!(target ^ source))
    } else if which == MOV {
        Ok(source)
    } else if which == ADD {
        if target + source <= u32::MAX {
            Ok((target + source) as u32)
        } else {
            Err(Halt::Overflow)
        }
    } else if which == SUB {
        if target >= source {
            Ok((target - source) as u32)
        } else {
            Err(Halt::Overflow)
        }
    } else {
        Err(Halt::BadOpcode)
    }
}

/// The code of a comparison: 1 for less, 0 for equal, 2 for greater.
pub open spec fn compared(target: u32, source: u32) -> u32 {
    if target < source {
        1
    } else if target == source {
        0
    } else {
        2
    }
}

/// Instruction `which` takes a target register and a source operand.
pub open spec fn takes_operands(which: u8) -> bool {
    which == AND || which == NAND || which == OR || which == NOR || which == XOR || which == XNOR
        || which == MOV || which == ADD || which == SUB || which == COMPARE
}

/// Instruction `which` does nothing in this machine.
pub open spec fn is_idle(which: u8) -> bool {
    which == JMP || which == JZ || which == JLZ || which == JMZ || which == LDP || which == STP
        || which == HLT || which == NOP || which == INT
}

impl ProgramView {
    /// The counter is inside the code or just past it, and the code is
    /// short enough for a 32-bit counter.
    pub open spec fn wf(self) -> bool {
        &&& self.regs.len() == 4
        &&& self.code.len() <= u32::MAX
        &&& 0 <= self.counter <= self.code.len()
    }

    /// The state after one advance of the counter.
    pub open spec fn advanced(self) -> ProgramView {
        ProgramView {
            counter: self.counter + 1,
            trace: self.trace.push(
                Snapshot {
                    counter: self.counter as u32,
                    regs: [self.regs[0], self.regs[1], self.regs[2], self.regs[3]],
                },
            ),
            ..self
        }
    }

    /// The state after register `i` has been set to `value`.
    pub open spec fn with_reg(self, i: int, value: u32) -> ProgramView {
        ProgramView { regs: self.regs.update(i, value), ..self }
    }

    /// Reading the next byte: the counter advances and the byte under it is
    /// read, unless the counter has left the code.
    pub open spec fn byte_read(self) -> (ProgramView, Result<u8, Halt>) {
        let next = self.advanced();
        if next.counter >= next.code.len() {
            (next, Err(Halt::End))
        } else {
            (next, Ok(next.code[next.counter]))
        }
    }

    /// Reading the next two bytes as a word, low byte first.
    pub open spec fn word_read(self) -> (ProgramView, Result<u16, Halt>) {
        let (one, first) = self.byte_read();
        match first {
            Err(h) => (one, Err(h)),
            Ok(lo) => {
                let (two, second) = one.byte_read();
                match second {
                    Err(h) => (two, Err(h)),
                    Ok(hi) => (two, Ok(word_of(lo, hi))),
                }
            },
        }
    }

    /// Reading the next four bytes as a double word, low half first.
    pub open spec fn dword_read(self) -> (ProgramView, Result<u32, Halt>) {
        let (one, first) = self.word_read();
        match first {
            Err(h) => (one, Err(h)),
            Ok(lo) => {
                let (two, second) = one.word_read();
                match second {
                    Err(h) => (two, Err(h)),
                    Ok(hi) => (two, Ok(dword_of(lo, hi))),
                }
            },
        }
    }

    /// Reading the source operand in the given mode.
    pub open spec fn source_read(self, mode: u8) -> (ProgramView, Result<u32, Halt>) {
        if mode == RR_MODE {
            let (one, r) = self.byte_read();
            match r {
                Err(h) => (one, Err(h)),
                Ok(other) => if other < 4 {
                    (one, Ok(one.regs[other as int]))
                } else {
                    (one, Err(Halt::BadRegister))
                },
            }
        } else if mode == RB_MODE {
            let (one, r) = self.byte_read();
            match r {
                Err(h) => (one, Err(h)),
                Ok(byte) => (one, Ok(byte as u32)),
            }
        } else if mode == RW_MODE {
            let (one, r) = self.word_read();
            match r {
                Err(h) => (one, Err(h)),
                Ok(word) => (one, Ok(word as u32)),
            }
        } else if mode == RD_MODE {
            self.dword_read()
        } else {
            (self, Err(Halt::BadMode))
        }
    }

    /// An instruction with operands: the target register is read, then the
    /// source operand, then the instruction is carried out. A comparison
    /// leaves its code in register 0; every other instruction leaves its
    /// value in the target register.
    pub open spec fn operated(self, which: u8, mode: u8) -> (ProgramView, Result<(), Halt>) {
        let (one, t) = self.byte_read();
        match t {
            Err(h) => (one, Err(h)),
            Ok(target) => if target >= 4 {
                (one, Err(Halt::BadTarget))
            } else {
                let (two, s) = one.source_read(mode);
                match s {
                    Err(h) => (two, Err(h)),
                    Ok(source) => if which == COMPARE {
                        (two.with_reg(0, compared(two.regs[target as int], source)), Ok(()))
                    } else {
                        match computed(which, two.regs[target as int], source) {
                            Err(h) => (two, Err(h)),
                            Ok(value) => (two.with_reg(target as int, value), Ok(())),
                        }
                    },
                }
            },
        }
    }

    /// One turn of the main loop on the instruction under the counter.
    pub open spec fn turned(self) -> (ProgramView, Result<(), Halt>) {
        let which = self.code[self.counter];
        if takes_operands(which) {
            let (one, m) = self.byte_read();
            match m {
                Err(h) => (one, Err(h)),
                Ok(mode) => {
                    let (two, r) = one.operated(which, mode);
                    match r {
                        Err(h) => (two, Err(h)),
                        Ok(_) => (two.advanced(), Ok(())),
                    }
                },
            }
        } else if which == NOT {
            let (one, r) = self.byte_read();
            match r {
                Err(h) => (one, Err(h)),
                Ok(reg) => if reg < 4 {
                    (one.with_reg(reg as int, !one.regs[reg as int]).advanced(), Ok(()))
                } else {
                    (one, Err(Halt::BadTarget))
                },
            }
        } else if is_idle(which) {
            (self.advanced(), Ok(()))
        } else {
            (self, Err(Halt::BadOpcode))
        }
    }

    /// The run of the main loop: turn after turn until the machine is
    /// halted, the counter has left the code, or a turn fails.
    pub open spec fn run(self) -> (ProgramView, Result<(), Halt>)
        decreases self.code.len() - self.counter,
    {
        if self.halted || self.counter >= self.code.len() {
            (self, Ok(()))
        } else {
            let (next, r) = self.turned();
            if r is Ok && next.counter > self.counter && next.code == self.code {
                next.run()
            } else {
                (next, r)
            }
        }
    }
}

/// The machine.
pub struct Program {
    regs: [u32; 4],
    code: Vec<u8>,
    counter: u32,
    halted: bool,
    trace: Vec<Snapshot>,
}

impl View for Program {
    type V = ProgramView;

    closed spec fn view(&self) -> ProgramView {
        ProgramView {
            regs: self.regs@,
            code: self.code@,
            counter: self.counter as int,
            halted: self.halted,
            trace: self.trace@,
        }
    }
}

impl Program {
    /// The invariant holds of the machine.
    pub open spec fn wf(&self) -> bool {
        self@.wf()
    }

    /// A machine at the start of `code`, with every register zero.
    pub fn new(code: Vec<u8>) -> (p: Program)
        requires
            code@.len() <= u32::MAX,
        ensures
            p.wf(),
            p@ == (ProgramView {
                regs: seq![0u32, 0u32, 0u32, 0u32],
                code: code@,
                counter: 0,
                halted: false,
                trace: Seq::empty(),
            }),
    {
        let p = Program { regs: [0u32;4], code, counter: 0, halted: false, trace: Vec::new() };
        proof {
            broadcast use vstd::array::group_array_axioms;

            assert(p@.regs =~= seq![0u32, 0u32, 0u32, 0u32]);
        }
        p
    }

    /// The registers.
    pub fn regs(&self) -> (regs: [u32; 4])
        ensures
            regs@ == self@.regs,
    {
        self.regs
    }

    /// The program counter.
    pub fn counter(&self) -> (counter: u32)
        ensures
            counter == self@.counter,
    {
        self.counter
    }

    /// The advances of the counter so far, oldest first.
    pub fn trace(&self) -> (trace: &Vec<Snapshot>)
        ensures
            trace@ == self@.trace,
    {
        &self.trace
    }

    /// Records the state and advances the counter by one byte.
    pub fn step(&mut self)
        requires
            old(self).wf(),
            old(self)@.counter < old(self)@.code.len(),
        ensures
            final(self).wf(),
            final(self)@ == old(self)@.advanced(),
    {
        self.trace.push(Snapshot { counter: self.counter, regs: self.regs });
        self.counter += 1;
        proof {
            broadcast use vstd::array::group_array_axioms;

            let snap = Snapshot { counter: old(self).counter, regs: old(self).regs };
            let want = Snapshot {
                counter: old(self)@.counter as u32,
                regs: [
                    old(self)@.regs[0],
                    old(self)@.regs[1],
                    old(self)@.regs[2],
                    old(self)@.regs[3],
                ],
            };
            assert(snap.regs@ =~= want.regs@);
            assert(snap.regs == want.regs);
            assert(self@ =~= old(self)@.advanced());
        }
    }

    /// Advances the counter and reads the byte under it.
    pub fn next_byte(&mut self) -> (res: Result<u8, Halt>)
        requires
            old(self).wf(),
            old(self)@.counter < old(self)@.code.len(),
        ensures
            final(self).wf(),
            (final(self)@, res) == old(self)@.byte_read(),
    {
        self.step();
        if self.counter as usize >= self.code.len() {
            return Err(Halt::End);
        }
        Ok(self.code[self.counter as usize])
    }

    /// Reads the next two bytes as a word, low byte first.
    pub fn next_word(&mut self) -> (res: Result<u16, Halt>)
        requires
            old(self).wf(),
            old(self)@.counter < old(self)@.code.len(),
        ensures
            final(self).wf(),
            final(self)@.code == old(self)@.code,
            final(self)@.counter > old(self)@.counter,
            res is Ok ==> final(self)@.counter < final(self)@.code.len(),
            (final(self)@, res) == old(self)@.word_read(),
    {
        let first = match self.next_byte() {
            Ok(byte) => byte,
            Err(h) => {
                return Err(h);
            },
        };
        let second = match self.next_byte() {
            Ok(byte) => byte,
            Err(h) => {
                return Err(h);
            },
        };
        Ok(((second as u16) << 8) | (first as u16))
    }

    /// Reads the next four bytes as a double word, low half first.
    pub fn next_dword(&mut self) -> (res: Result<u32, Halt>)
        requires
            old(self).wf(),
            old(self)@.counter < old(self)@.code.len(),
        ensures
            final(self).wf(),
            final(self)@.code == old(self)@.code,
            final(self)@.counter > old(self)@.counter,
            res is Ok ==> final(self)@.counter < final(self)@.code.len(),
            (final(self)@, res) == old(self)@.dword_read(),
    {
        let first = match self.next_word() {
            Ok(word) => word,
            Err(h) => {
                return Err(h);
            },
        };
        let second = match self.next_word() {
            Ok(word) => word,
            Err(h) => {
                return Err(h);
            },
        };
        Ok(((second as u32) << 16) | (first as u32))
    }

    /// Reads the source operand of an instruction in the given mode.
    fn next_source(&mut self, mode: u8) -> (res: Result<u32, Halt>)
        requires
            old(self).wf(),
            old(self)@.counter < old(self)@.code.len(),
        ensures
            final(self).wf(),
            final(self)@.code == old(self)@.code,
            res is Ok ==> final(self)@.counter > old(self)@.counter && final(self)@.counter
                < final(self)@.code.len(),
            (final(self)@, res) == old(self)@.source_read(mode),
    {
        if mode == RR_MODE {
            let other = match self.next_byte() {
                Ok(byte) => byte,
                Err(h) => {
                    return Err(h);
                },
            };
            if other >= 4 {
                return Err(Halt::BadRegister);
            }
            Ok(self.regs[other as usize])
        } else if mode == RB_MODE {
            match self.next_byte() {
                Ok(byte) => Ok(byte as u32),
                Err(h) => Err(h),
            }
        } else if mode == RW_MODE {
            match self.next_word() {
                Ok(word) => Ok(word as u32),
                Err(h) => Err(h),
            }
        } else if mode == RD_MODE {
            self.next_dword()
        } else {
            Err(Halt::BadMode)
        }
    }

    /// Carries out instruction `which`, whose operand mode has been read:
    /// reads the target register and the source operand and stores the
    /// result.
    pub fn modded_instr(&mut self, which: u8, mode: u8) -> (res: Result<(), Halt>)
        requires
            old(self).wf(),
            old(self)@.counter < old(self)@.code.len(),
        ensures
            final(self).wf(),
            final(self)@.code == old(self)@.code,
            res is Ok ==> final(self)@.counter > old(self)@.counter && final(self)@.counter
                < final(self)@.code.len(),
            (final(self)@, res) == old(self)@.operated(which, mode),
    {
        let target = match self.next_byte() {
            Ok(byte) => byte,
            Err(h) => {
                return Err(h);
            },
        };
        if target >= 4 {
            return Err(Halt::BadTarget);
        }
        let source = match self.next_source(mode) {
            Ok(source) => source,
            Err(h) => {
                return Err(h);
            },
        };
        let ghost two = self@;
        let at: usize = target as usize;
        let held: u32 = self.regs[at];
        if which == COMPARE {
            let code: u32 = if held < source {
                1
            } else if held == source {
                0
            } else {
                2
            };
            self.regs[0] = code;
            assert(self@ =~= two.with_reg(0, compared(two.regs[target as int], source)));
            return Ok(());
        }
        let value: u32 = if which == AND {
            held & source
        } else if which == NAND {
            !(held & source)
        } else if which == OR {
            held | source
        } else if which == NOR {
            !(held | source)
        } else if which == XOR {
            held ^ source
        } else if which == XNOR {
            !(held ^ source)
        } else if which == MOV {
            source
        } else if which == ADD {
            match held.checked_add(source) {
                Some(sum) => sum,
                None => {
                    return Err(Halt::Overflow);
                },
            }
        } else if which == SUB {
            match held.checked_sub(source) {
                Some(difference) => difference,
                None => {
                    return Err(Halt::Overflow);
                },
            }
        } else {
            return Err(Halt::BadOpcode);
        };
        self.regs[at] = value;
        assert(self@ =~= two.with_reg(target as int, value));
        Ok(())
    }

    /// One turn of the main loop.
    fn turn(&mut self) -> (res: Result<(), Halt>)
        requires
            old(self).wf(),
            old(self)@.counter < old(self)@.code.len(),
        ensures
            final(self).wf(),
            final(self)@.code == old(self)@.code,
            final(self)@.halted == old(self)@.halted,
            res is Ok ==> final(self)@.counter > old(self)@.counter,
            (final(self)@, res) == old(self)@.turned(),
    {
        let which: u8 = self.code[self.counter as usize];
        if which == AND || which == NAND || which == OR || which == NOR || which == XOR || which
            == XNOR || which == MOV || which == ADD || which == SUB || which == COMPARE {
            let mode = match self.next_byte() {
                Ok(byte) => byte,
                Err(h) => {
                    return Err(h);
                },
            };
            match self.modded_instr(which, mode) {
                Ok(_) => {},
                Err(h) => {
                    return Err(h);
                },
            }
        } else if which == NOT {
            let reg = match self.next_byte() {
                Ok(byte) => byte,
                Err(h) => {
                    return Err(h);
                },
            };
            if reg >= 4 {
                return Err(Halt::BadTarget);
            }
            let ghost one = self@;
            let at: usize = reg as usize;
            let flipped: u32 = !self.regs[at];
            self.regs[at] = flipped;
            assert(self@ =~= one.with_reg(reg as int, !one.regs[reg as int]));
        } else if which == JMP || which == JZ || which == JLZ || which == JMZ || which == LDP
            || which == STP || which == HLT || which == NOP || which == INT {
        } else {
            return Err(Halt::BadOpcode);
        }
        self.step();
        Ok(())
    }

    /// Runs the main loop from the counter on.
    pub fn execute(&mut self) -> (res: Result<(), Halt>)
        requires
            old(self).wf(),
        ensures
            final(self).wf(),
            (final(self)@, res) == old(self)@.run(),
    {
        while !self.halted && (self.counter as usize) < self.code.len()
            invariant
                self.wf(),
                self@.code == old(self)@.code,
                self@.run() == old(self)@.run(),
            decreases self@.code.len() - self@.counter,
        {
            match self.turn() {
                Ok(_) => {},
                Err(h) => {
                    return Err(h);
                },
            }
        }
        Ok(())
    }
}

} // verus!
