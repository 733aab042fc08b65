use zl001::assembler::{
    check_line, get_lines, get_program_instructions, to_final_lines, CodeError, InterimLine,
    InterimOp, Instruction, Operand, Register,
};

#[test]
fn check_line_cmp() {
    let line = InterimLine {
        lable: None,
        instr: Some(Instruction::CMP),
        op1: Some(InterimOp::Reg(Register::R1)),
        op2: Some(InterimOp::Direct(65)),
        op3: None,
    };
    assert!(check_line(&line, 0).is_ok());
}

#[test]
fn check_line_add_err() {
    let line = InterimLine {
        lable: None,
        instr: Some(Instruction::ADD),
        op1: Some(InterimOp::Reg(Register::R1)),
        op2: Some(InterimOp::Reg(Register::R2)),
        op3: Some(InterimOp::Direct(1000)),
    };
    assert!(check_line(&line, 0).is_err());
}

#[test]
fn parse_into_lines_test1() {
    let code = "
ADD #10 #0 R1
ADD #12 #0 R2
ADD R1 R2 R1
CMP R1 R2
BGT end
end:
HLT
";

    let lines = get_lines(code).unwrap();
    println!("lines: {}", lines.len());
    assert!(lines.len() == 6);
    println!("end lable {}", lines[5].lable.as_ref().unwrap());
    assert!(lines[5].lable == Some(String::from("end")));
    assert!(matches!(lines[0].op1.as_ref().unwrap(), InterimOp::Direct(10)));
    assert!(matches!(lines[2].instr.as_ref().unwrap(), Instruction::ADD));
    assert!(matches!(lines[4].instr.as_ref().unwrap(), Instruction::BGT));

    let final_lines = to_final_lines(lines).unwrap();
    assert!(matches!(final_lines[4].op1.as_ref().unwrap(), Operand::Direct(5)));
    assert!(matches!(final_lines[0].op3.as_ref().unwrap(), Operand::Reg(Register::R1)));
}

#[test]
fn parse_into_lines_test_empty_lable() {
    let code = "
ADD #10 #0 R1
ADD #12 #0 R2
ADD R1 R2 R1
lable1:
lable2:
CMP R1 R2
BGT end
HLT
end:
";

    let lines = get_lines(code);
    assert!(lines.is_ok());
}

#[test]
fn test_io_registers() {
    let code = "
ADD #10 #0 RO
ADD IO0 #0 R2
ADD R1 R2 IO9
HLT
";

    assert!(get_lines(code).is_err());
}

#[test]
fn test_io_registers2() {
    let code = "
ADD #10 #0 IO1
ADD IO3 #0 R2
CMP IO1 IO7
HLT
";

    let lines = get_lines(code);
    if lines.is_err() {
        let lines = lines.unwrap_err();
        println!("error {:?}", lines);
        assert!(matches!(lines, CodeError::OutOfRangeIO(3)))
    } else {
        panic!("should fail");
    }
}

#[test]
fn test_io_registers3() {
    let code = "
ADD #10 #0 IO0
ADD IO0 #0 R2
CMP IO1 IO2
HLT
";

    let lines = get_lines(code);
    if lines.is_err() {
        println!("error {:?}", lines.unwrap_err());
        panic!("error");
    }
}

#[test]
fn test_io_registers4() {
    let code = "
ADD IO0 #0 r1
loop:
    sub r1 #1 r1
    add r1 #0 io1
    cmp r1 #0
    bgt loop
hlt
";

    let lines = get_lines(code);
    if lines.is_err() {
        let lines = lines.unwrap_err();
        println!("error {:?}", lines);
        panic!("should be OK");
    }
}

fn assemble(code: &str) -> Result<Vec<zl001::assembler::Line>, CodeError> {
    get_program_instructions(code)
}

#[test]
fn forward_branch_resolves_to_halt_line() {
    let code = "ADD #10 #0 R1\nADD #12 #0 R2\nADD R1 R2 R1\nCMP R1 R2\nBGT end\nend:\nHLT\n";
    let p = assemble(code).unwrap();
    assert_eq!(p.len(), 6);
    assert_eq!(p[4].op1, Some(Operand::Direct(5)));
    assert_eq!(p[5].instr, Instruction::HLT);
}

#[test]
fn consecutive_labels_get_a_nop_each() {
    let code = "a:\nb:\nHLT\nBRC a\nBRC b\n";
    let p = assemble(code).unwrap();
    assert_eq!(p.len(), 4);
    assert_eq!(p[0].instr, Instruction::NOP);
    assert_eq!(p[1].instr, Instruction::HLT);
    assert_eq!(p[2].op1, Some(Operand::Direct(0)));
    assert_eq!(p[3].op1, Some(Operand::Direct(1)));
}

#[test]
fn trailing_label_becomes_nop() {
    let code = "BRC end\nend:\n";
    let p = assemble(code).unwrap();
    assert_eq!(p.len(), 2);
    assert_eq!(p[1].instr, Instruction::NOP);
    assert_eq!(p[0].op1, Some(Operand::Direct(1)));
}

#[test]
fn every_branch_targets_a_line() {
    let code = "start:\nCMP R1 #3\nBEQ done\nADD R1 #1 R1\nBRC start\ndone:\nHLT\n";
    let p = assemble(code).unwrap();
    for l in &p {
        if matches!(l.instr, Instruction::BRC | Instruction::BEQ | Instruction::BGT | Instruction::BLT) {
            match l.op1 {
                Some(Operand::Direct(t)) => assert!(t >= 0 && (t as usize) < p.len()),
                _ => panic!("branch without a direct target"),
            }
        }
    }
}

#[test]
fn comments_and_case_are_ignored() {
    let code = "add #1 #2 r1 ; comment ADD\n; whole line\nHlT;done\n";
    let p = assemble(code).unwrap();
    assert_eq!(p.len(), 2);
    assert_eq!(p[0].instr, Instruction::ADD);
    assert_eq!(p[0].op3, Some(Operand::Reg(Register::R1)));
    assert_eq!(p[1].instr, Instruction::HLT);
}

#[test]
fn immediate_is_u16_reinterpreted() {
    let p = assemble("ADD #65535 #+7 R1\n").unwrap();
    assert_eq!(p[0].op1, Some(Operand::Direct(-1)));
    assert_eq!(p[0].op2, Some(Operand::Direct(7)));
}

#[test]
fn error_unknown_inst() {
    assert_eq!(assemble("\nFOO R1\n").unwrap_err(), CodeError::UnknownInst(1));
}

#[test]
fn error_unknown_number() {
    assert_eq!(assemble("ADD #x #0 R1\n").unwrap_err(), CodeError::UnknownNumber(0));
    assert_eq!(assemble("ADD IOx #0 R1\n").unwrap_err(), CodeError::UnknownNumber(0));
    assert_eq!(assemble("ADD #65536 #0 R1\n").unwrap_err(), CodeError::UnknownNumber(0));
}

#[test]
fn error_out_of_range_io() {
    assert_eq!(assemble("ADD IO4 #0 R1\n").unwrap_err(), CodeError::OutOfRangeIO(0));
}

#[test]
fn error_too_many_ops() {
    assert_eq!(assemble("ADD #1 #2 R1 R2\n").unwrap_err(), CodeError::TooManyOps(0));
    assert_eq!(assemble("HLT R1\n").unwrap_err(), CodeError::TooManyOps(0));
    assert_eq!(assemble("CMP R1 R2 R1\n").unwrap_err(), CodeError::TooManyOps(0));
}

#[test]
fn error_too_few_ops() {
    assert_eq!(assemble("ADD #1 #2\n").unwrap_err(), CodeError::TooFewOps(0));
    assert_eq!(assemble("CMP R1\n").unwrap_err(), CodeError::TooFewOps(0));
}

#[test]
fn error_invalid_op() {
    assert_eq!(assemble("ADD #1 #2 #3\n").unwrap_err(), CodeError::InvalidOp(0));
}

#[test]
fn error_missing_label() {
    assert_eq!(assemble("BRC R1\n").unwrap_err(), CodeError::MissingLable(0));
    assert_eq!(assemble("NOP\n\nBRC nowhere\n").unwrap_err(), CodeError::MissingLable(2));
}

#[test]
fn error_inst_after_label() {
    let line = InterimLine {
        lable: Some(String::from("x")),
        instr: None,
        op1: Some(InterimOp::Reg(Register::R1)),
        op2: None,
        op3: None,
    };
    assert_eq!(check_line(&line, 4), Err(CodeError::InstAfterLable(4)));
}

#[test]
fn letters_that_upper_case_to_ascii() {
    let p = assemble("\u{17f}ub #3 #1 R1\n").unwrap();
    assert_eq!(p[0].instr, Instruction::SUB);
    let p = assemble("d\u{131}v #4 #2 R1\n").unwrap();
    assert_eq!(p[0].instr, Instruction::DIV);
    assert_eq!(assemble("ADD \u{131}o1 #0 R1\n").unwrap_err(), CodeError::UnknownNumber(0));
    assert_eq!(assemble("ADD iO1 #0 R1\n").unwrap()[0].op1, Some(Operand::Reg(Register::RIO(1))));
}
