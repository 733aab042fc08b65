use zl001::assembler::get_program_instructions;
use zl001::printer::print_program;

#[test]
fn print_format() {
    let p = get_program_instructions("start:\nADD IO0 #65535 R1\nCMP R1 #0\nBGT start\nHLT\n").unwrap();
    assert_eq!(
        print_program(&p),
        "L0: ADD IO0 #65535 R1\nL1: CMP R1 #0\nL2: BGT L0\nL3: HLT\n"
    );
}

#[test]
fn printed_program_assembles_back() {
    let sources = [
        "ADD #10 #0 R1\nADD #12 #0 R2\nADD R1 R2 R1\nCMP R1 R2\nBGT end\nend:\nHLT\n",
        "a:\nb:\nSUB IO1 IO2 IO3\nBRC a\nBEQ b\nBLT done\nMUL PC RT R2\nDIV #7 #65529 PC\ndone:\n",
        "",
    ];
    for src in sources {
        let p = get_program_instructions(src).unwrap();
        let printed = print_program(&p);
        let q = get_program_instructions(&printed).unwrap();
        assert_eq!(p, q, "{}", printed);
    }
}
