use hack_assembler::assemble_program;
use hack_assembler::coder::{encode_address_command, encode_computation_command, Coder};
use hack_assembler::command::commands::{ACommand, LCommand};
use hack_assembler::command::{AsmError, CCommand, ParsedCommand, ParsedLine};
use hack_assembler::parser::{Parser, SymbolTable};

fn lines(src: &[&str]) -> Vec<String> {
    src.iter().map(|s| s.to_string()).collect()
}

#[test]
fn round_trip_literal_example() {
    let out = assemble_program(lines(&["@2", "D=A", "@3", "D=D+A", "@0", "M=D"])).unwrap();
    assert_eq!(
        out,
        vec![
            "0000000000000010".to_string(),
            "1110110000010000".to_string(),
            "0000000000000011".to_string(),
            "1110000010010000".to_string(),
            "0000000000000000".to_string(),
            "1110001100001000".to_string(),
        ]
    );
}

#[test]
fn variable_allocation_example() {
    let out = assemble_program(lines(&["@foo", "M=1", "@foo", "D=M"])).unwrap();
    assert_eq!(out[0], "0000000000010000");
    assert_eq!(out[2], "0000000000010000");
    assert_eq!(out[0], out[2]);
}

#[test]
fn address_boundary() {
    assert_eq!(
        encode_address_command(32767).unwrap(),
        "0111111111111111".to_string()
    );
    assert_eq!(
        encode_address_command(32768),
        Err(AsmError::AddressOutOfRange)
    );
    assert_eq!(
        assemble_program(lines(&["@32767"])).unwrap(),
        vec!["0111111111111111".to_string()]
    );
    assert_eq!(
        assemble_program(lines(&["@32768"])),
        Err(AsmError::AddressOutOfRange)
    );
}

#[test]
fn reserved_names_have_fixed_addresses() {
    let expected: &[(&str, usize)] = &[
        ("R0", 0),
        ("R1", 1),
        ("R2", 2),
        ("R3", 3),
        ("R4", 4),
        ("R5", 5),
        ("R6", 6),
        ("R7", 7),
        ("R8", 8),
        ("R9", 9),
        ("R10", 10),
        ("R11", 11),
        ("R12", 12),
        ("R13", 13),
        ("R14", 14),
        ("R15", 15),
        ("SCREEN", 16384),
        ("KBD", 24576),
        ("SP", 0),
        ("LCL", 1),
        ("ARG", 2),
        ("THIS", 3),
        ("THAT", 4),
    ];
    let table = SymbolTable::new();
    for (name, addr) in expected {
        assert_eq!(table.get_symbol(&name.to_string()), Some(*addr));
    }
}

#[test]
fn reserved_name_resolution_consumes_no_cursor() {
    // Resolving every reserved name, then a fresh variable: the variable
    // still gets 16, so no reserved resolution advanced the cursor.
    let out = assemble_program(lines(&[
        "@R3", "@SCREEN", "@KBD", "@SP", "@LCL", "@ARG", "@THIS", "@THAT", "@R15", "@fresh",
    ]))
    .unwrap();
    assert_eq!(out[0], "0000000000000011");
    assert_eq!(out[1], "0100000000000000");
    assert_eq!(out[2], "0110000000000000");
    assert_eq!(out[3], "0000000000000000");
    assert_eq!(out[4], "0000000000000001");
    assert_eq!(out[5], "0000000000000010");
    assert_eq!(out[6], "0000000000000011");
    assert_eq!(out[7], "0000000000000100");
    assert_eq!(out[8], "0000000000001111");
    assert_eq!(out[9], "0000000000010000");
}

#[test]
fn variables_allocated_from_16_in_first_use_order() {
    let out = assemble_program(lines(&["@alpha", "@beta", "@alpha", "@gamma", "@beta"])).unwrap();
    assert_eq!(out[0], "0000000000010000"); // alpha -> 16
    assert_eq!(out[1], "0000000000010001"); // beta -> 17
    assert_eq!(out[2], "0000000000010000"); // alpha reused
    assert_eq!(out[3], "0000000000010010"); // gamma -> 18
    assert_eq!(out[4], "0000000000010001"); // beta reused
}

#[test]
fn labels_do_not_consume_variable_range_or_slots() {
    // The label occupies no instruction slot and no variable address.
    let out = assemble_program(lines(&["@x", "(MID)", "@y", "@MID"])).unwrap();
    assert_eq!(out[0], "0000000000010000"); // x -> 16
    assert_eq!(out[1], "0000000000010001"); // y -> 17, MID did not take 16 or 17
    assert_eq!(out[2], "0000000000000001"); // MID -> program counter 1
}

#[test]
fn forward_and_backward_references_agree() {
    // The same program shape, referenced from before and from after the
    // declaration: both references resolve to the label's slot position.
    let forward = assemble_program(lines(&["@END", "D=A", "(END)", "0;JMP"])).unwrap();
    let backward = assemble_program(lines(&["(END)", "@END", "D=A", "0;JMP"])).unwrap();
    // END sits at slot 2 in the first program and slot 0 in the second.
    assert_eq!(forward[0], "0000000000000010");
    assert_eq!(backward[0], "0000000000000000");
    // A forward and a backward reference to one declaration are identical.
    let both = assemble_program(lines(&["@LOOP", "(LOOP)", "D=A", "@LOOP"])).unwrap();
    assert_eq!(both[0], both[2]);
    assert_eq!(both[0], "0000000000000001");
}

#[test]
fn encoding_is_idempotent() {
    let program = &["@2", "D=A", "(L)", "@L", "D;JNE"];
    let first_run = assemble_program(lines(program)).unwrap();
    let second_run = assemble_program(lines(program)).unwrap();
    assert_eq!(first_run, second_run);

    let make = || {
        vec![
            ParsedCommand::Address(5),
            ParsedCommand::Computation(CCommand {
                dest: "D".to_string(),
                comp: "D+A".to_string(),
                jmp: "null".to_string(),
            }),
        ]
    };
    let once = Coder::new(make()).assemble_binary_code().unwrap();
    let twice = Coder::new(make()).assemble_binary_code().unwrap();
    assert_eq!(once, twice);
}

#[test]
fn comments_and_blank_lines_are_dropped() {
    let out = assemble_program(lines(&["", "   ", "// just a note", "@1", "", "//@2"])).unwrap();
    assert_eq!(out, vec!["0000000000000001".to_string()]);
}

#[test]
fn normalization_trims_and_truncates() {
    assert_eq!(Parser::preprocess_raw_line("  @2  "), "@2");
    assert_eq!(Parser::preprocess_raw_line("\t@2\r"), "@2");
    assert_eq!(Parser::preprocess_raw_line("@2 anything after space"), "@2");
    assert_eq!(Parser::preprocess_raw_line("@2\\trailing"), "@2");
    assert_eq!(Parser::preprocess_raw_line("D=A \\ both"), "D=A");
    assert_eq!(Parser::preprocess_raw_line("   "), "");
    assert_eq!(Parser::preprocess_raw_line(""), "");
}

#[test]
fn parsed_line_classification() {
    assert!(matches!(
        ParsedLine::new("@21"),
        Ok(ParsedLine::Address(21))
    ));
    assert!(matches!(ParsedLine::new("@+7"), Ok(ParsedLine::Address(7))));
    match ParsedLine::new("@counter") {
        Ok(ParsedLine::Symbol(s)) => assert_eq!(s, "counter"),
        _ => panic!("expected a symbol"),
    }
    // A numeral too large for the machine is a symbol, not an address.
    match ParsedLine::new("@99999999999999999999999999") {
        Ok(ParsedLine::Symbol(s)) => assert_eq!(s, "99999999999999999999999999"),
        _ => panic!("expected a symbol"),
    }
    match ParsedLine::new("(LOOP)") {
        Ok(ParsedLine::Label(l)) => assert_eq!(l, "LOOP"),
        _ => panic!("expected a label"),
    }
    match ParsedLine::new("MD=M+1;JGT") {
        Ok(ParsedLine::Computation(c)) => {
            assert_eq!(c.dest, "MD");
            assert_eq!(c.comp, "M+1");
            assert_eq!(c.jmp, "JGT");
        }
        _ => panic!("expected a computation"),
    }
    assert!(matches!(ParsedLine::new(""), Ok(ParsedLine::Comment)));
    assert!(matches!(ParsedLine::new("// note"), Ok(ParsedLine::Comment)));
    assert!(matches!(ParsedLine::new("xyz"), Ok(ParsedLine::Comment)));
}

#[test]
fn computation_field_defaults() {
    let c = CCommand::new("D=A").unwrap();
    assert_eq!(c.dest, "D");
    assert_eq!(c.comp, "A");
    assert_eq!(c.jmp, "null");
    let c = CCommand::new("0;JMP").unwrap();
    assert_eq!(c.dest, "null");
    assert_eq!(c.comp, "0");
    assert_eq!(c.jmp, "JMP");
    let c = CCommand::new("AMD=D|M;JLE").unwrap();
    assert_eq!(c.dest, "AMD");
    assert_eq!(c.comp, "D|M");
    assert_eq!(c.jmp, "JLE");
}

#[test]
fn single_shape_commands() {
    assert!(matches!(ACommand::new("@512"), ACommand::Address(512)));
    match ACommand::new("@sym") {
        ACommand::Symbol(s) => assert_eq!(s, "sym"),
        _ => panic!("expected a symbol"),
    }
    assert_eq!(LCommand::new("(HERE)").unwrap().label, "HERE");
    // The name stops at the first closing parenthesis.
    assert_eq!(LCommand::new("(A)B)").unwrap().label, "A");
    assert!(matches!(
        LCommand::new("(open"),
        Err(AsmError::UnclosedLabel)
    ));
}

#[test]
fn fatal_error_variants() {
    // A computation-shaped line with no separator at all.
    assert_eq!(
        assemble_program(lines(&["D"])),
        Err(AsmError::MalformedComputation)
    );
    // Separators in an unusable order.
    assert_eq!(
        assemble_program(lines(&["D;JGT=A"])),
        Err(AsmError::MalformedComputation)
    );
    // A label missing its closing parenthesis.
    assert_eq!(
        assemble_program(lines(&["(LOOP"])),
        Err(AsmError::UnclosedLabel)
    );
    // Unknown mnemonics, each in its own field.
    assert_eq!(
        assemble_program(lines(&["D=Q"])),
        Err(AsmError::UnknownComp)
    );
    assert_eq!(
        assemble_program(lines(&["DA=D+1"])),
        Err(AsmError::UnknownDest)
    );
    assert_eq!(
        assemble_program(lines(&["D;JXX"])),
        Err(AsmError::UnknownJmp)
    );
    // An address literal out of the 15-bit range.
    assert_eq!(
        assemble_program(lines(&["@40000"])),
        Err(AsmError::AddressOutOfRange)
    );
}

#[test]
fn comp_is_checked_before_dest_and_jmp() {
    let c = CCommand {
        dest: "XX".to_string(),
        comp: "QQ".to_string(),
        jmp: "YY".to_string(),
    };
    assert_eq!(encode_computation_command(&c), Err(AsmError::UnknownComp));
    let c = CCommand {
        dest: "XX".to_string(),
        comp: "D+1".to_string(),
        jmp: "YY".to_string(),
    };
    assert_eq!(encode_computation_command(&c), Err(AsmError::UnknownDest));
    let c = CCommand {
        dest: "MD".to_string(),
        comp: "D+1".to_string(),
        jmp: "YY".to_string(),
    };
    assert_eq!(encode_computation_command(&c), Err(AsmError::UnknownJmp));
}

#[test]
fn computation_encoding_table_samples() {
    let enc = |dest: &str, comp: &str, jmp: &str| {
        encode_computation_command(&CCommand {
            dest: dest.to_string(),
            comp: comp.to_string(),
            jmp: jmp.to_string(),
        })
        .unwrap()
    };
    assert_eq!(enc("D", "A", "null"), "1110110000010000");
    assert_eq!(enc("D", "D+A", "null"), "1110000010010000");
    assert_eq!(enc("M", "D", "null"), "1110001100001000");
    assert_eq!(enc("null", "0", "JMP"), "1110101010000111");
    assert_eq!(enc("AMD", "D|M", "JLE"), "1111010101111110");
    assert_eq!(enc("null", "!M", "JEQ"), "1111110001000010");
    assert_eq!(enc("A", "-1", "null"), "1110111010100000");
}

#[test]
fn first_writer_wins_in_the_symbol_table() {
    // A label declared anywhere binds before pass 2 allocates variables: the
    // reference above the declaration still sees the label, not a variable.
    let out = assemble_program(lines(&["@name", "(name)", "@name"])).unwrap();
    assert_eq!(out[0], "0000000000000001");
    assert_eq!(out[1], "0000000000000001");
}

#[test]
fn symbol_table_insert_and_eliminate() {
    let mut table = SymbolTable::new();
    assert_eq!(table.get_symbol(&"nowhere".to_string()), None);
    // A fresh variable takes the cursor, a second take reuses it.
    assert_eq!(table.eliminate_symbol("v1".to_string()), 16);
    assert_eq!(table.eliminate_symbol("v2".to_string()), 17);
    assert_eq!(table.eliminate_symbol("v1".to_string()), 16);
    assert_eq!(table.get_symbol(&"v2".to_string()), Some(17));
    // A label insertion rebinds; elimination then reuses the new binding.
    table.insert_label("v1".to_string(), 99);
    assert_eq!(table.eliminate_symbol("v1".to_string()), 99);
    // A reserved name resolves without touching the cursor.
    assert_eq!(table.eliminate_symbol("KBD".to_string()), 24576);
    assert_eq!(table.eliminate_symbol("v3".to_string()), 18);
}

#[test]
fn parser_two_pass_protocol() {
    let mut parser = Parser::new(lines(&["(START)", "@START", "D=A", "@tmp", "(END)", "@END"]));
    parser.parse_labels().unwrap();
    let cmds = parser.parse_commands().unwrap();
    assert_eq!(cmds.len(), 4);
    match &cmds[0] {
        ParsedCommand::Address(a) => assert_eq!(*a, 0), // START at slot 0
        _ => panic!("expected an address"),
    }
    match &cmds[2] {
        ParsedCommand::Address(a) => assert_eq!(*a, 16), // tmp -> 16
        _ => panic!("expected an address"),
    }
    match &cmds[3] {
        ParsedCommand::Address(a) => assert_eq!(*a, 3), // END after 3 slots
        _ => panic!("expected an address"),
    }
}

#[test]
fn address_encoding_is_16_binary_chars() {
    for &(n, expected) in &[
        (0usize, "0000000000000000"),
        (1, "0000000000000001"),
        (2, "0000000000000010"),
        (21, "0000000000010101"),
        (16384, "0100000000000000"),
        (24576, "0110000000000000"),
        (32767, "0111111111111111"),
    ] {
        let s = encode_address_command(n).unwrap();
        assert_eq!(s, expected);
        assert_eq!(s.len(), 16);
        assert!(s.chars().all(|c| c == '0' || c == '1'));
    }
}

#[test]
fn maximum_program_end_to_end() {
    // Computes the maximum of R0 and R1 into R2, with forward and backward
    // label references, comments and surrounding whitespace.
    let out = assemble_program(lines(&[
        "// take the larger of the first two registers",
        "  @R0",
        "  D=M",
        "  @R1",
        "  D=D-M",
        "  @OUTPUT_FIRST",
        "  D;JGT",
        "  @R1",
        "  D=M",
        "  @OUTPUT_D",
        "  0;JMP",
        "(OUTPUT_FIRST)",
        "  @R0",
        "  D=M",
        "(OUTPUT_D)",
        "  @R2",
        "  M=D",
        "(INFINITE_LOOP)",
        "  @INFINITE_LOOP",
        "  0;JMP",
    ]))
    .unwrap();
    assert_eq!(
        out,
        vec![
            "0000000000000000".to_string(),
            "1111110000010000".to_string(),
            "0000000000000001".to_string(),
            "1111010011010000".to_string(),
            "0000000000001010".to_string(),
            "1110001100000001".to_string(),
            "0000000000000001".to_string(),
            "1111110000010000".to_string(),
            "0000000000001100".to_string(),
            "1110101010000111".to_string(),
            "0000000000000000".to_string(),
            "1111110000010000".to_string(),
            "0000000000000010".to_string(),
            "1110001100001000".to_string(),
            "0000000000001110".to_string(),
            "1110101010000111".to_string(),
        ]
    );
}

#[test]
fn empty_program_assembles_to_nothing() {
    assert_eq!(assemble_program(Vec::new()).unwrap(), Vec::<String>::new());
    assert_eq!(
        assemble_program(lines(&["// only chatter", ""])).unwrap(),
        Vec::<String>::new()
    );
}
