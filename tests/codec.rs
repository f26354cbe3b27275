use hmmm::instruction::{CompileErr, Instruction};
use hmmm::program::{
    compile_hmmm, read_compiled_hmmm, write_compiled_hmmm, write_uncompiled_hmmm, LineError,
    Simulator,
};

fn lines(v: &[&str]) -> Vec<String> {
    v.iter().map(|s| s.to_string()).collect()
}

fn err_of(line: &str) -> CompileErr {
    match Instruction::new_from_text(line) {
        Ok(_) => panic!("expected an error for {}", line),
        Err(e) => e,
    }
}

#[test]
fn register_fifteen_encodes_to_all_ones() {
    let inst = Instruction::new_from_text("read r15").unwrap();
    assert_eq!(inst.binary_contents, vec![0, 15, 0, 1]);
    assert_eq!(inst.binary_text(), "0000 1111 0000 0001");
}

#[test]
fn register_sixteen_is_invalid() {
    assert_eq!(err_of("read r16"), CompileErr::InvalidRegister);
    assert_eq!(err_of("read r"), CompileErr::InvalidRegister);
    assert_eq!(err_of("read x1"), CompileErr::InvalidArgumentType);
}

#[test]
fn signed_byte_boundaries() {
    assert_eq!(Instruction::new_from_text("setn r1 127").unwrap().binary_contents, vec![1, 1, 7, 15]);
    assert_eq!(Instruction::new_from_text("setn r1 -128").unwrap().binary_contents, vec![1, 1, 8, 0]);
    assert_eq!(err_of("setn r1 128"), CompileErr::InvalidSignedNumber);
    assert_eq!(err_of("setn r1 -129"), CompileErr::InvalidSignedNumber);
}

#[test]
fn unsigned_byte_boundaries() {
    assert_eq!(Instruction::new_from_text("loadn r2 255").unwrap().binary_contents, vec![2, 2, 15, 15]);
    assert_eq!(err_of("loadn r2 256"), CompileErr::InvalidUnsignedNumber);
    assert_eq!(err_of("loadn r2 -1"), CompileErr::InvalidUnsignedNumber);
}

#[test]
fn argument_count_and_unknown_mnemonic() {
    assert_eq!(err_of("frobnicate r1"), CompileErr::InstructionDoesNotExist);
    assert_eq!(err_of("read r1 r2"), CompileErr::TooManyArguments);
    assert_eq!(err_of("add r1 r2"), CompileErr::TooFewArguments);
    assert_eq!(err_of("data zz"), CompileErr::InvalidNumber);
}

#[test]
fn immediate_is_read_as_hex_first_and_kept_to_twelve_bits() {
    assert_eq!(Instruction::new_from_text("data 10").unwrap().binary_contents, vec![0, 0, 1, 0]);
    assert_eq!(Instruction::new_from_text("data -1").unwrap().binary_contents, vec![0, 15, 15, 15]);
    assert_eq!(Instruction::new_from_text("data 1234").unwrap().binary_contents, vec![0, 2, 3, 4]);
}

#[test]
fn text_form_of_assembled_lines() {
    let two = Instruction::new_from_text("copy r1 r2").unwrap();
    assert_eq!(two.text_contents, "r1 r2");
    let three = Instruction::new_from_text("add r1 r2 r3").unwrap();
    assert_eq!(three.text_contents, "r1, r2, r3");
    let none = Instruction::new_from_text("halt").unwrap();
    assert_eq!(none.text_contents, "halt");
    assert_eq!(none.name(), "halt");
}

#[test]
fn mnemonics_ignore_case() {
    let inst = Instruction::new_from_text("SetN R4 9").unwrap();
    assert_eq!(inst.name(), "setn");
    assert_eq!(inst.binary_contents, vec![1, 4, 0, 9]);
}

#[test]
fn first_declared_entry_wins_on_decode() {
    let nop = Instruction::new_from_binary("0110 0000 0000 0000").unwrap();
    assert_eq!(nop.name(), "nop");
    assert_eq!(nop.text_contents, "");
    let copy = Instruction::new_from_binary("0110 0001 0010 0000").unwrap();
    assert_eq!(copy.name(), "copy");
    assert_eq!(copy.text_contents, "r1, r2");
    let add = Instruction::new_from_binary("0110 0001 0010 0011").unwrap();
    assert_eq!(add.name(), "add");
    assert_eq!(add.text_contents, "r1, r2, r3");
}

#[test]
fn decoding_reads_signed_and_immediate_values() {
    let setn = Instruction::new_from_binary("0001 0011 1111 1011").unwrap();
    assert_eq!(setn.name(), "setn");
    assert_eq!(setn.text_contents, "r3, -5");
    let data = Instruction::new_from_binary("0000 1111 1111 1111").unwrap();
    assert_eq!(data.name(), "data");
    assert_eq!(data.text_contents, "4095");
    let jumpn = Instruction::new_from_binary("1011 0000 0010 1010").unwrap();
    assert_eq!(jumpn.name(), "jumpn");
    assert_eq!(jumpn.text_contents, "42");
}

#[test]
fn encode_then_decode_gives_the_values_back() {
    for line in ["setn r3 -5", "loadn r7 200", "neg r1 r2", "sub r1 r2 r3", "calln r14 99"] {
        let a = Instruction::new_from_text(line).unwrap();
        let b = Instruction::new_from_binary(&a.binary_text()).unwrap();
        assert_eq!(a.binary_contents, b.binary_contents);
        assert_eq!(a.type_index, b.type_index);
        assert_eq!(b.binary_text(), a.binary_text());
    }
}

#[test]
fn malformed_binary_lines() {
    for line in ["0000 0000 0000", "0000 0000 0000 0000 0000", "0000 0002 0000 0000", "000 0000 0000 0000"] {
        assert_eq!(Instruction::new_from_binary(line).unwrap_err(), CompileErr::CorruptedBinary);
    }
    assert_eq!(
        Instruction::new_from_binary("0100 0000 0000 0100").unwrap_err(),
        CompileErr::InstructionDoesNotExist
    );
}

#[test]
fn wrong_label_fails_at_its_line() {
    let src = lines(&["# a comment", "0 nop", "", "2 halt"]);
    assert_eq!(
        compile_hmmm(&src).unwrap_err(),
        LineError { line: 3, error: CompileErr::InvalidLineNumber }
    );
    let src = lines(&["0 halt", "2 halt"]);
    assert_eq!(
        compile_hmmm(&src).unwrap_err(),
        LineError { line: 1, error: CompileErr::InvalidLineNumber }
    );
}

#[test]
fn missing_label_and_bad_operand_errors() {
    assert_eq!(
        compile_hmmm(&lines(&["halt"])).unwrap_err(),
        LineError { line: 0, error: CompileErr::LineNumberNotPresent }
    );
    assert_eq!(
        compile_hmmm(&lines(&["0 read r99"])).unwrap_err(),
        LineError { line: 0, error: CompileErr::InvalidRegister }
    );
    assert_eq!(
        compile_hmmm(&lines(&["0"])).unwrap_err(),
        LineError { line: 0, error: CompileErr::InstructionDoesNotExist }
    );
}

#[test]
fn source_with_commas_tabs_and_comments() {
    let src = lines(&["   # header", "0\tsetn r1, 5  # set", "1 add r1,r1,r1", "  ", "2 halt"]);
    let prog = compile_hmmm(&src).unwrap();
    assert_eq!(prog.len(), 3);
    assert_eq!(prog[0].binary_contents, vec![1, 1, 0, 5]);
    assert_eq!(prog[1].binary_contents, vec![6, 1, 1, 1]);
    assert_eq!(prog[2].binary_contents, vec![0, 0, 0, 0]);
}

#[test]
fn example_setn_compiles() {
    let prog = compile_hmmm(&lines(&["0 setn r0 5"])).unwrap();
    assert_eq!(prog.len(), 1);
    assert_eq!(prog[0].binary_contents[0], 1);
    assert_eq!(prog[0].binary_contents[2] * 16 + prog[0].binary_contents[3], 5);
    assert_eq!(write_compiled_hmmm(&prog), "0001 0000 0000 0101");
}

#[test]
fn example_halt_round_trip() {
    let prog = compile_hmmm(&lines(&["0 halt"])).unwrap();
    let binary = write_compiled_hmmm(&prog);
    assert_eq!(binary, "0000 0000 0000 0000");
    let back = read_compiled_hmmm(&lines(&[binary.as_str()])).unwrap();
    assert_eq!(write_uncompiled_hmmm(&back), "0 halt");
}

#[test]
fn example_three_instructions_and_memory() {
    let raw = lines(&["0001 0001 0000 0101", "0110 0010 0001 0001", "0000 0000 0000 0000"]);
    let prog = read_compiled_hmmm(&raw).unwrap();
    let listing = write_uncompiled_hmmm(&prog);
    assert_eq!(listing, "0 setn r1, 5\n1 add r2, r1, r1\n2 halt");
    let sim = Simulator::new(prog);
    assert_eq!(sim.memory.len(), 256);
    for j in 3..256 {
        assert_eq!(sim.memory[j].type_index, 0);
        assert_eq!(sim.memory[j].binary_contents, vec![0, 0, 0, 0]);
    }
    assert_eq!(sim.registers, vec![0i16; 16]);
    assert_eq!(sim.program_counter, 0);
    assert!(Simulator::step().is_ok());
}

#[test]
fn compiled_file_error_names_its_line() {
    let raw = lines(&["0000 0000 0000 0000", "junk"]);
    assert_eq!(
        read_compiled_hmmm(&raw).unwrap_err(),
        LineError { line: 1, error: CompileErr::CorruptedBinary }
    );
}

#[test]
fn decompiled_listing_compiles_back_to_the_same_words() {
    let raw = lines(&[
        "0001 0011 1111 1011",
        "0110 0001 0010 0000",
        "0111 0001 0000 0010",
        "1011 1110 0110 0011",
        "0000 0101 0000 0010",
        "0110 0000 0000 0000",
    ]);
    let prog = read_compiled_hmmm(&raw).unwrap();
    let listing = write_uncompiled_hmmm(&prog);
    let src: Vec<String> = listing.split('\n').map(|s| s.to_string()).collect();
    let again = compile_hmmm(&src).unwrap();
    assert_eq!(write_compiled_hmmm(&again), raw.join("\n"));
}

#[test]
fn immediate_text_reads_back_as_hex() {
    let data = Instruction::new_from_binary("0000 0000 0001 0000").unwrap();
    assert_eq!(data.text_contents, "16");
    let again = Instruction::new_from_text("data 16").unwrap();
    assert_eq!(again.binary_contents, vec![0, 0, 1, 6]);
}

#[test]
fn source_lines_are_assembled_in_lower_case() {
    let prog = compile_hmmm(&lines(&["0 READ R1", "1 Data A"])).unwrap();
    assert_eq!(prog[0].text_contents, "r1");
    assert_eq!(prog[0].name(), "read");
    assert_eq!(prog[0].binary_contents, vec![0, 1, 0, 1]);
    assert_eq!(prog[1].text_contents, "a");
    assert_eq!(prog[1].binary_contents, vec![0, 0, 0, 10]);
}

#[test]
fn unicode_white_space_separates_and_blanks() {
    let prog = compile_hmmm(&lines(&["\u{a0}\u{3000}", "0\u{a0}read\u{2003}r2"])).unwrap();
    assert_eq!(prog.len(), 1);
    assert_eq!(prog[0].binary_contents, vec![0, 2, 0, 1]);
}

#[test]
fn listing_keeps_the_space_before_an_empty_operand_text() {
    let raw = lines(&["0110 0000 0000 0000", "0000 0000 0000 0000"]);
    let prog = read_compiled_hmmm(&raw).unwrap();
    assert_eq!(write_uncompiled_hmmm(&prog), "0 nop \n1 halt");
}

#[test]
fn label_must_open_the_line() {
    assert_eq!(
        compile_hmmm(&lines(&["  0 halt"])).unwrap_err(),
        LineError { line: 0, error: CompileErr::LineNumberNotPresent }
    );
    assert_eq!(
        compile_hmmm(&lines(&[",0 halt"])).unwrap_err(),
        LineError { line: 0, error: CompileErr::LineNumberNotPresent }
    );
}

#[test]
fn decoded_words_reassemble_from_name_and_operands() {
    for word in ["0001 0011 1111 1011", "0110 0001 0010 0011", "0000 0000 0000 1001", "0110 0000 0000 0000", "1011 0000 1111 1111"] {
        let d = Instruction::new_from_binary(word).unwrap();
        let mut line = d.name();
        for piece in d.text_contents.split(", ").filter(|p| !p.is_empty()) {
            line.push(' ');
            line.push_str(piece);
        }
        let again = Instruction::new_from_text(&line).unwrap();
        assert_eq!(again.binary_text(), word);
        assert_eq!(again.type_index, d.type_index);
    }
}
