use zl001::assembler::Register;
use zl001::program::Program;

fn run(p: &mut Program, steps: usize) {
    for _ in 0..steps {
        p.step();
    }
}

#[test]
fn simple_arithmetic_and_halt() {
    let mut p = Program::new("ADD #10 #0 R1\nADD #12 #0 R2\nADD R1 R2 R1\nHLT\n").unwrap();
    run(&mut p, 4);
    assert_eq!(p.get_register_value(Register::R1), Some(22));
    assert_eq!(p.get_register_value(Register::R2), Some(12));
    assert_eq!(p.get_register_value(Register::PC), Some(4));
    assert!(p.halted());
}

#[test]
fn forward_branch_program_halts() {
    let mut p = Program::new(
        "ADD #10 #0 R1\nADD #12 #0 R2\nADD R1 R2 R1\nCMP R1 R2\nBGT end\nend:\nHLT\n",
    )
    .unwrap();
    run(&mut p, 10);
    assert!(p.halted());
    assert_eq!(p.get_register_value(Register::R1), Some(22));
    assert_eq!(p.get_register_value(Register::RT), Some(4));
}

#[test]
fn io_output_blocks_until_read() {
    let mut p = Program::new("ADD #7 #0 IO1\nHLT\n").unwrap();
    p.step();
    assert!(p.read_out_ready(1));
    assert!(!p.read_in_ready(1));
    run(&mut p, 3);
    assert!(!p.halted());
    assert_eq!(p.get_register_value(Register::PC), Some(1));
    assert_eq!(p.read_out(1), Some(7));
    assert_eq!(p.read_out(1), None);
    p.step();
    assert!(p.halted());
}

#[test]
fn loop_with_io() {
    let code = "ADD IO0 #0 R1\nloop:\n  SUB R1 #1 R1\n  ADD R1 #0 IO1\n  CMP R1 #0\n  BGT loop\nHLT\n";
    let mut p = Program::new(code).unwrap();
    let mut emitted = Vec::new();
    let mut fed = false;
    for _ in 0..100 {
        p.step();
        if !fed && p.read_in_ready(0) {
            assert!(p.read_in(3, 0).is_ok());
            fed = true;
        }
        if let Some(v) = p.read_out(1) {
            emitted.push(v);
        }
        if p.halted() {
            break;
        }
    }
    assert!(p.halted());
    assert_eq!(p.get_register_value(Register::R1), Some(0));
    assert_eq!(emitted, vec![2, 1, 0]);
}

#[test]
fn read_in_refused_when_not_waiting() {
    let mut p = Program::new("ADD IO2 #1 R1\nHLT\n").unwrap();
    assert!(p.read_in(5, 2).is_err());
    p.step();
    assert!(p.read_in_ready(2));
    assert!(p.read_in(5, 1).is_err());
    assert!(p.read_in(5, 9).is_err());
    assert!(p.read_in(5, 2).is_ok());
    p.step();
    assert_eq!(p.get_register_value(Register::R1), Some(6));
    assert_eq!(p.get_register_value(Register::PC), Some(1));
}

#[test]
fn second_operand_read_after_first() {
    let mut p = Program::new("SUB IO0 IO1 R2\nHLT\n").unwrap();
    p.step();
    assert!(p.read_in_ready(0));
    p.read_in(10, 0).unwrap();
    p.step();
    assert!(p.read_in_ready(1));
    p.read_in(4, 1).unwrap();
    p.step();
    assert_eq!(p.get_register_value(Register::R2), Some(6));
}

#[test]
fn arithmetic_wraps() {
    let mut p = Program::new("ADD #32767 #1 R1\nMUL #256 #256 R2\nHLT\n").unwrap();
    run(&mut p, 3);
    assert_eq!(p.get_register_value(Register::R1), Some(-32768));
    assert_eq!(p.get_register_value(Register::R2), Some(0));
}

#[test]
fn division_truncates_and_zero_halts() {
    let mut p = Program::new("DIV #65529 #2 R1\nDIV #5 #0 R2\nADD #1 #0 R2\n").unwrap();
    p.step();
    assert_eq!(p.get_register_value(Register::R1), Some(-3));
    p.step();
    assert!(p.halted());
    assert_eq!(p.get_register_value(Register::R2), Some(0));
}

#[test]
fn compare_sets_one_bit() {
    let mut p = Program::new("CMP #1 #2\nADD RT #0 R1\nCMP #2 #2\nADD RT #0 R2\nCMP #3 #2\n").unwrap();
    run(&mut p, 5);
    assert_eq!(p.get_register_value(Register::R1), Some(2));
    assert_eq!(p.get_register_value(Register::R2), Some(1));
    assert_eq!(p.get_register_value(Register::RT), Some(4));
}

#[test]
fn blank_is_halted() {
    let mut p = Program::blank();
    assert!(p.halted());
    p.step();
    assert_eq!(p.get_register_value(Register::PC), Some(0));
    assert_eq!(p.io_reg_count(), 4);
    assert_eq!(p.get_register_value(Register::RIO(0)), None);
}

#[test]
fn running_past_the_end_halts() {
    let mut p = Program::new("NOP\n").unwrap();
    p.step();
    assert!(!p.halted());
    p.step();
    assert!(p.halted());
}

#[test]
fn a_loop_revisits_a_state() {
    let mut p = Program::new("top:\nADD R1 #1 R1\nBRC top\n").unwrap();
    let mut seen: Vec<(i16, i16)> = Vec::new();
    let mut repeated = false;
    for _ in 0..300000 {
        let s = (
            p.get_register_value(Register::PC).unwrap(),
            p.get_register_value(Register::R1).unwrap(),
        );
        if s == (0, 0) && !seen.is_empty() {
            repeated = true;
            break;
        }
        seen.push(s);
        p.step();
    }
    assert!(repeated);
}

#[test]
fn compare_reads_rt_before_setting_it() {
    let mut p = Program::new("CMP #5 #0\nCMP RT #0\n").unwrap();
    p.step();
    assert_eq!(p.get_register_value(Register::RT), Some(4));
    p.step();
    assert_eq!(p.get_register_value(Register::RT), Some(4));
}

#[test]
fn suspended_compare_keeps_rt() {
    let mut p = Program::new("CMP #1 #0\nCMP IO0 #0\n").unwrap();
    p.step();
    p.step();
    assert!(p.read_in_ready(0));
    assert_eq!(p.get_register_value(Register::RT), Some(4));
    p.read_in(0, 0).unwrap();
    p.step();
    assert_eq!(p.get_register_value(Register::RT), Some(1));
}
