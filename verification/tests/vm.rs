use lilac::vm::{
    Halt, Program, ADD, AND, COMPARE, HLT, JMP, MOV, NAND, NOP, NOR, NOT, OR, RB_MODE, RD_MODE,
    RR_MODE, RW_MODE, SUB, XNOR, XOR,
};

#[test]
fn new_machine_is_at_the_start() {
    let p = Program::new(vec![NOP, NOP]);
    assert_eq!(p.regs(), [0, 0, 0, 0]);
    assert_eq!(p.counter(), 0);
    assert!(p.trace().is_empty());
}

#[test]
fn demonstration_program_compares_two_registers() {
    let code = vec![MOV, RB_MODE, 0, 12, MOV, RB_MODE, 1, 11, COMPARE, RR_MODE, 1, 0];
    let mut p = Program::new(code);
    assert_eq!(p.execute(), Ok(()));
    assert_eq!(p.regs(), [1, 11, 0, 0]);
    assert_eq!(p.counter(), 12);
    let counters: Vec<u32> = p.trace().iter().map(|s| s.counter).collect();
    assert_eq!(counters, vec![0, 1, 2, 3, 4, 5, 6, 7, 8, 9, 10, 11]);
    assert_eq!(p.trace()[2].regs, [0, 0, 0, 0]);
    assert_eq!(p.trace()[3].regs, [12, 0, 0, 0]);
    assert_eq!(p.trace()[7].regs, [12, 11, 0, 0]);
    assert_eq!(p.trace()[10].regs, [12, 11, 0, 0]);
    assert_eq!(p.trace()[11].regs, [1, 11, 0, 0]);
}

#[test]
fn comparison_leaves_its_code_in_register_zero() {
    let code = vec![MOV, RB_MODE, 1, 5, MOV, RB_MODE, 2, 9, COMPARE, RR_MODE, 1, 2, NOP];
    let mut p = Program::new(code);
    assert_eq!(p.execute(), Ok(()));
    assert_eq!(p.regs(), [1, 5, 9, 0]);
    let mut q = Program::new(vec![MOV, RB_MODE, 1, 9, COMPARE, RB_MODE, 1, 5, NOP]);
    assert_eq!(q.execute(), Ok(()));
    assert_eq!(q.regs(), [2, 9, 0, 0]);
    let mut r = Program::new(vec![MOV, RB_MODE, 0, 7, MOV, RB_MODE, 1, 9, COMPARE, RB_MODE, 1, 9, NOP]);
    assert_eq!(r.execute(), Ok(()));
    assert_eq!(r.regs(), [0, 9, 0, 0]);
}

#[test]
fn operands_are_read_low_byte_first() {
    let mut p = Program::new(vec![MOV, RW_MODE, 2, 0x34, 0x12, NOP]);
    assert_eq!(p.execute(), Ok(()));
    assert_eq!(p.regs(), [0, 0, 0x1234, 0]);
    let mut q = Program::new(vec![MOV, RD_MODE, 3, 0x78, 0x56, 0x34, 0x12, NOP]);
    assert_eq!(q.execute(), Ok(()));
    assert_eq!(q.regs(), [0, 0, 0, 0x1234_5678]);
    assert_eq!(q.counter(), 8);
}

#[test]
fn words_and_double_words() {
    let mut p = Program::new(vec![0, 0xcd, 0xab, 0x01, 0x02, 0x03, 0x04, 0]);
    assert_eq!(p.next_word(), Ok(0xabcd));
    assert_eq!(p.counter(), 2);
    assert_eq!(p.next_dword(), Ok(0x0403_0201));
    assert_eq!(p.counter(), 6);
    assert_eq!(p.next_byte(), Ok(0));
    let mut q = Program::new(vec![0, 1]);
    assert_eq!(q.next_word(), Err(Halt::End));
    assert_eq!(q.counter(), 2);
    assert_eq!(q.trace().len(), 2);
}

#[test]
fn logic_instructions() {
    let load = |a: u8, b: u8, op: u8| {
        let mut p = Program::new(vec![MOV, RB_MODE, 0, a, MOV, RB_MODE, 1, b, op, RR_MODE, 0, 1, NOP]);
        assert_eq!(p.execute(), Ok(()));
        p.regs()[0]
    };
    assert_eq!(load(0b1100, 0b1010, AND), 0b1000);
    assert_eq!(load(0b1100, 0b1010, OR), 0b1110);
    assert_eq!(load(0b1100, 0b1010, XOR), 0b0110);
    assert_eq!(load(0b1100, 0b1010, NAND), !0b1000u32);
    assert_eq!(load(0b1100, 0b1010, NOR), !0b1110u32);
    assert_eq!(load(0b1100, 0b1010, XNOR), !0b0110u32);
    assert_eq!(load(12, 10, ADD), 22);
    assert_eq!(load(12, 10, SUB), 2);
}

#[test]
fn not_flips_every_bit() {
    let mut p = Program::new(vec![MOV, RB_MODE, 2, 0x0f, NOT, 2, NOP]);
    assert_eq!(p.execute(), Ok(()));
    assert_eq!(p.regs(), [0, 0, 0xffff_fff0, 0]);
}

#[test]
fn idle_instructions_only_advance() {
    let mut p = Program::new(vec![JMP, HLT, NOP]);
    assert_eq!(p.execute(), Ok(()));
    assert_eq!(p.regs(), [0, 0, 0, 0]);
    assert_eq!(p.counter(), 3);
    assert_eq!(p.trace().len(), 3);
}

#[test]
fn faults() {
    let mut p = Program::new(vec![MOV, RB_MODE, 4, 1, NOP]);
    assert_eq!(p.execute(), Err(Halt::BadTarget));
    let mut p = Program::new(vec![MOV, RR_MODE, 0, 4, NOP]);
    assert_eq!(p.execute(), Err(Halt::BadRegister));
    let mut p = Program::new(vec![MOV, 9, 0, 4, NOP]);
    assert_eq!(p.execute(), Err(Halt::BadMode));
    let mut p = Program::new(vec![0x77, NOP]);
    assert_eq!(p.execute(), Err(Halt::BadOpcode));
    assert!(p.trace().is_empty());
    let mut p = Program::new(vec![NOT, 7, NOP]);
    assert_eq!(p.execute(), Err(Halt::BadTarget));
    let mut p = Program::new(vec![SUB, RB_MODE, 0, 1, NOP]);
    assert_eq!(p.execute(), Err(Halt::Overflow));
    let mut p =
        Program::new(vec![MOV, RD_MODE, 0, 0xff, 0xff, 0xff, 0xff, ADD, RB_MODE, 0, 1, NOP]);
    assert_eq!(p.execute(), Err(Halt::Overflow));
    assert_eq!(p.regs(), [u32::MAX, 0, 0, 0]);
    let mut p = Program::new(vec![0, 0, 0, 0]);
    assert_eq!(p.modded_instr(0x77, RB_MODE), Err(Halt::BadOpcode));
    assert_eq!(p.counter(), 2);
    let mut p = Program::new(vec![MOV, RB_MODE, 0]);
    assert_eq!(p.execute(), Err(Halt::End));
    assert_eq!(p.counter(), 3);
    assert_eq!(p.trace().len(), 3);
}

#[test]
fn step_records_the_state() {
    let mut p = Program::new(vec![NOP, NOP]);
    p.step();
    assert_eq!(p.counter(), 1);
    assert_eq!(p.trace().len(), 1);
    assert_eq!(p.trace()[0].counter, 0);
    assert_eq!(p.trace()[0].regs, [0, 0, 0, 0]);
}
