use cpusim::instructions_set::CPU;

fn run(cpu: &mut CPU, line: &str) -> Result<(), String> {
    assert!(!cpu.fails_hard(line), "instruction would not complete: {}", line);
    cpu.execute(line)
}

#[test]
fn eight_bit_program() {
    let mut cpu = CPU::new(8);
    run(&mut cpu, "MOV R1, 10").unwrap();
    run(&mut cpu, "MOV R2, 250").unwrap();
    run(&mut cpu, "ADD R1, R2").unwrap();
    assert_eq!(cpu.get("R1"), Some(4));
    run(&mut cpu, "SHL R1, 2").unwrap();
    assert_eq!(cpu.get("R1"), Some(16));
    run(&mut cpu, "NOT R2").unwrap();
    assert_eq!(cpu.get("R2"), Some(5));
    run(&mut cpu, "AND R1, R2").unwrap();
    assert_eq!(cpu.get("R1"), Some(0));
    assert_eq!(cpu.get("R2"), Some(5));
    for i in 3..=8 {
        assert_eq!(cpu.get(&format!("R{}", i)), Some(0));
    }
    assert_eq!(cpu.get("R9"), None);
    assert_eq!(cpu.get("R0"), None);
}

#[test]
fn new_machine_has_eight_zero_registers() {
    let cpu = CPU::new(16);
    assert_eq!(cpu.bits(), 16);
    for i in 1..=8 {
        assert_eq!(cpu.get(&format!("R{}", i)), Some(0));
    }
}

#[test]
fn mask_and_twos_complement() {
    let cpu = CPU::new(8);
    assert_eq!(cpu.mask(), 255);
    assert_eq!(cpu.to_twos_complement(-1), 255);
    assert_eq!(cpu.to_twos_complement(-256), 0);
    assert_eq!(cpu.to_twos_complement(300), 44);
    assert_eq!(CPU::new(0).mask(), 0);
    assert_eq!(CPU::new(30).mask(), (1 << 30) - 1);
    assert_eq!(CPU::new(30).to_twos_complement(i32::MIN), 0);
    assert_eq!(CPU::new(4).to_twos_complement(i32::MAX), 15);
}

#[test]
fn errors_leave_registers_alone() {
    let mut cpu = CPU::new(8);
    run(&mut cpu, "MOV R1, 7").unwrap();
    assert_eq!(run(&mut cpu, ""), Err("Empty instruction".to_string()));
    assert_eq!(run(&mut cpu, "   \t "), Err("Empty instruction".to_string()));
    assert_eq!(run(&mut cpu, "FOO R1, 1"), Err("Unknown instruction: FOO".to_string()));
    assert_eq!(run(&mut cpu, "load R1, 1"), Err("Unknown instruction: load".to_string()));
    assert_eq!(run(&mut cpu, "MOV R1, R9"), Err("Register R9 not found".to_string()));
    assert_eq!(run(&mut cpu, "MOV R1, R2,"), Err("Register R2, not found".to_string()));
    assert_eq!(run(&mut cpu, "MOV R1, abc"), Err("Invalid immediate value: abc".to_string()));
    assert_eq!(run(&mut cpu, "MOV R1, 99999999999"), Err("Invalid immediate value: 99999999999".to_string()));
    assert_eq!(run(&mut cpu, "DIV R1, 0"), Err("Division by zero".to_string()));
    assert_eq!(cpu.get("R1"), Some(7));
}

#[test]
fn names_are_read_in_any_case() {
    let mut cpu = CPU::new(8);
    run(&mut cpu, "mov R1, 3").unwrap();
    run(&mut cpu, "Add R1, 4").unwrap();
    assert_eq!(cpu.get("R1"), Some(7));
    // U+017F LATIN SMALL LETTER LONG S upper-cases to 'S'.
    run(&mut cpu, "\u{17f}hl R1, 1").unwrap();
    assert_eq!(cpu.get("R1"), Some(14));
    // U+0131 LATIN SMALL LETTER DOTLESS I upper-cases to 'I'.
    run(&mut cpu, "d\u{131}v R1, 7").unwrap();
    assert_eq!(cpu.get("R1"), Some(2));
}

#[test]
fn mov_creates_registers_and_trims_commas() {
    let mut cpu = CPU::new(8);
    run(&mut cpu, "MOV Rx,,, -1").unwrap();
    assert_eq!(cpu.get("Rx"), Some(255));
    assert_eq!(cpu.get_value("Rx"), Ok(255));
    run(&mut cpu, "MOV acc, +5").unwrap();
    assert_eq!(cpu.get("acc"), Some(5));
    assert_eq!(cpu.get_value("acc"), Err("Invalid immediate value: acc".to_string()));
}

#[test]
fn arithmetic_wraps_to_width() {
    let mut cpu = CPU::new(4);
    run(&mut cpu, "MOV R1, 9").unwrap();
    run(&mut cpu, "SUB R1, 10").unwrap();
    assert_eq!(cpu.get("R1"), Some(15));
    run(&mut cpu, "MUL R1, 3").unwrap();
    assert_eq!(cpu.get("R1"), Some(13));
    run(&mut cpu, "DIV R1, -2").unwrap();
    assert_eq!(cpu.get("R1"), Some((-6i32 & 15) as i32));
    run(&mut cpu, "OR R1, 1").unwrap();
    assert_eq!(cpu.get("R1"), Some(11));
    run(&mut cpu, "XOR R1, 15").unwrap();
    assert_eq!(cpu.get("R1"), Some(4));
    run(&mut cpu, "SHR R1, 2").unwrap();
    assert_eq!(cpu.get("R1"), Some(1));
    run(&mut cpu, "SHL R1, 31").unwrap();
    assert_eq!(cpu.get("R1"), Some(0));
}

#[test]
fn panicking_instructions_are_flagged() {
    let cpu = CPU::new(8);
    assert!(cpu.fails_hard("MOV R1"));
    assert!(cpu.fails_hard("NOT"));
    assert!(cpu.fails_hard("NOT R9"));
    assert!(cpu.fails_hard("ADD R9, 1"));
    assert!(cpu.fails_hard("SHL R1, 32"));
    assert!(cpu.fails_hard("SHL R1, -1"));
    assert!(cpu.fails_hard("ADD R1, 2147483647") == false);
    assert!(CPU::new(31).fails_hard("MOV R1, 1"));
    assert!(!CPU::new(31).fails_hard("MOV R1, x"));
    assert!(!cpu.fails_hard("DIV R9, 0"));
    assert!(!cpu.fails_hard("HALT"));
    assert!(!cpu.fails_hard(""));
}

#[test]
fn not_twice_gives_back_the_value() {
    let mut cpu = CPU::new(6);
    run(&mut cpu, "MOV R3, 45").unwrap();
    run(&mut cpu, "NOT R3").unwrap();
    assert_eq!(cpu.get("R3"), Some(18));
    run(&mut cpu, "NOT R3").unwrap();
    assert_eq!(cpu.get("R3"), Some(45));
}

#[test]
fn an_instruction_writes_one_register() {
    let mut cpu = CPU::new(8);
    run(&mut cpu, "MOV R1, 1").unwrap();
    run(&mut cpu, "MOV R2, 2").unwrap();
    run(&mut cpu, "ADD R1, R2").unwrap();
    assert_eq!(cpu.get("R1"), Some(3));
    assert_eq!(cpu.get("R2"), Some(2));
    for i in 3..=8 {
        assert_eq!(cpu.get(&format!("R{}", i)), Some(0));
    }
}

#[test]
fn every_register_stays_within_the_width() {
    let mut cpu = CPU::new(5);
    for line in ["MOV R1, -7", "MUL R1, 1000", "SUB R2, 77", "SHL R3, 0", "NOT R4", "XOR R5, -1", "DIV R1, -3"] {
        run(&mut cpu, line).unwrap();
        for i in 1..=8 {
            let v = cpu.get(&format!("R{}", i)).unwrap();
            assert!((0..32).contains(&v), "{} left {}", line, v);
        }
    }
}
