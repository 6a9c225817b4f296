use cpusim::till_128::{CpuWidth, CPU};

fn run(cpu: &mut CPU, line: &str) -> Result<(), String> {
    assert!(!cpu.fails_hard(line), "instruction would not complete: {}", line);
    cpu.execute(line)
}

#[test]
fn wide_new_machine() {
    let cpu = CPU::new(CpuWidth::Bit64, 3, 4);
    assert_eq!(cpu.bits(), CpuWidth::Bit64);
    for name in ["R1", "R2", "R3"] {
        assert_eq!(cpu.get(name), Some(0));
    }
    assert_eq!(cpu.get("R0"), None);
    assert_eq!(cpu.get("R4"), None);
    for flag in ["ZERO", "CARRY", "OVERFLOW", "SIGN"] {
        assert_eq!(cpu.flag(flag), Some(false));
    }
    assert_eq!(cpu.flag("PARITY"), None);
    assert_eq!(cpu.memory_at(3), Some(0));
    assert_eq!(cpu.memory_at(4), None);
    let mut names = cpu.register_names();
    names.sort();
    assert_eq!(names, vec!["R1", "R2", "R3"]);
    assert_eq!(cpu.flag_names().len(), 4);
}

#[test]
fn masks() {
    assert_eq!(CPU::new(CpuWidth::Bit32, 0, 0).mask(), 0xffff_ffff);
    assert_eq!(CPU::new(CpuWidth::Bit64, 0, 0).mask(), u64::MAX as u128);
    assert_eq!(CPU::new(CpuWidth::Bit128, 0, 0).mask(), u128::MAX);
    assert_eq!(CPU::new(CpuWidth::Bit32, 0, 0).to_masked(0x1_2345_6789), 0x2345_6789);
}

#[test]
fn carry_and_zero_flags_come_from_the_128_bit_result() {
    let mut cpu = CPU::new(CpuWidth::Bit32, 2, 0);
    run(&mut cpu, "MOV R1, 0xFFFFFFFF").unwrap();
    run(&mut cpu, "ADD R1, 1").unwrap();
    assert_eq!(cpu.get("R1"), Some(0));
    assert_eq!(cpu.flag("CARRY"), Some(false));
    assert_eq!(cpu.flag("ZERO"), Some(false));

    let mut cpu = CPU::new(CpuWidth::Bit128, 2, 0);
    run(&mut cpu, "MOV R1, 340282366920938463463374607431768211455").unwrap();
    run(&mut cpu, "ADD R1, 1").unwrap();
    assert_eq!(cpu.get("R1"), Some(0));
    assert_eq!(cpu.flag("CARRY"), Some(true));
    assert_eq!(cpu.flag("ZERO"), Some(true));
    run(&mut cpu, "SUB R1, 1").unwrap();
    assert_eq!(cpu.get("R1"), Some(u128::MAX));
    assert_eq!(cpu.flag("CARRY"), Some(true));
    assert_eq!(cpu.flag("ZERO"), Some(false));
}

#[test]
fn operations() {
    let mut cpu = CPU::new(CpuWidth::Bit64, 4, 0);
    run(&mut cpu, "MOV R1, 0x10").unwrap();
    run(&mut cpu, "MOV R2, R1").unwrap();
    assert_eq!(cpu.get("R2"), Some(16));
    run(&mut cpu, "MUL R2, 0xFFFFFFFFFFFFFFFF").unwrap();
    assert_eq!(cpu.get("R2"), Some(((16u128 * 0xFFFF_FFFF_FFFF_FFFF) & 0xFFFF_FFFF_FFFF_FFFF) as u128));
    run(&mut cpu, "DIV R1, 3").unwrap();
    assert_eq!(cpu.get("R1"), Some(5));
    run(&mut cpu, "and R1, 6").unwrap();
    assert_eq!(cpu.get("R1"), Some(4));
    run(&mut cpu, "OR R1, 3").unwrap();
    assert_eq!(cpu.get("R1"), Some(7));
    run(&mut cpu, "XOR R1, 0x2").unwrap();
    assert_eq!(cpu.get("R1"), Some(5));
    run(&mut cpu, "NOT R1").unwrap();
    assert_eq!(cpu.get("R1"), Some(u64::MAX as u128 - 5));
    run(&mut cpu, "SHR R1, 60").unwrap();
    assert_eq!(cpu.get("R1"), Some(15));
    run(&mut cpu, "SHL R1, 62").unwrap();
    assert_eq!(cpu.get("R1"), Some(3 << 62));
}

#[test]
fn memory() {
    let mut cpu = CPU::new(CpuWidth::Bit32, 2, 4);
    run(&mut cpu, "MOV R1, 77").unwrap();
    run(&mut cpu, "STORE R1, 2").unwrap();
    assert_eq!(cpu.memory_at(2), Some(77));
    run(&mut cpu, "LOAD R2, 2").unwrap();
    assert_eq!(cpu.get("R2"), Some(77));
    run(&mut cpu, "LOAD R2, 9").unwrap();
    assert_eq!(cpu.get("R2"), Some(0));
    // the low bits of the address are what counts
    run(&mut cpu, "LOAD R2, 18446744073709551618").unwrap();
    assert_eq!(cpu.get("R2"), Some(77));
    assert_eq!(run(&mut cpu, "STORE R1, 4"), Err("Memory out of bounds".to_string()));
    run(&mut cpu, "LOAD new, 2").unwrap();
    assert_eq!(cpu.get("new"), Some(77));
}

#[test]
fn operand_errors() {
    let mut cpu = CPU::new(CpuWidth::Bit32, 1, 0);
    assert_eq!(cpu.get_value("0x"), Err("Invalid hex".to_string()));
    assert_eq!(cpu.get_value("0xg"), Err("Invalid hex".to_string()));
    assert_eq!(cpu.get_value("0x+ff"), Ok(255));
    assert_eq!(cpu.get_value("-1"), Err("Invalid number".to_string()));
    assert_eq!(cpu.get_value("R7"), Err("Register R7 not found".to_string()));
    assert_eq!(run(&mut cpu, "DIV R1, 0"), Err("Division by zero".to_string()));
    assert_eq!(run(&mut cpu, "JMP 4"), Err("Unknown instruction: JMP".to_string()));
    assert_eq!(run(&mut cpu, ""), Err("Empty instruction".to_string()));
}

#[test]
fn set_flag_only_touches_known_flags() {
    let mut cpu = CPU::new(CpuWidth::Bit32, 1, 0);
    cpu.set_flag("SIGN", true);
    assert_eq!(cpu.flag("SIGN"), Some(true));
    cpu.set_flag("PARITY", true);
    assert_eq!(cpu.flag("PARITY"), None);
}

#[test]
fn wide_panicking_instructions_are_flagged() {
    let cpu = CPU::new(CpuWidth::Bit32, 1, 2);
    assert!(cpu.fails_hard("ADD R2, 1"));
    assert!(cpu.fails_hard("SHL R1, 128"));
    assert!(cpu.fails_hard("STORE R5, 1"));
    assert!(!cpu.fails_hard("STORE R5, 2"));
    assert!(!cpu.fails_hard("LOAD R5, 1"));
    assert!(!cpu.fails_hard("MOV R5, 1"));
    assert!(cpu.fails_hard("NOT R5"));
    assert!(cpu.fails_hard("MOV R1"));
}

#[test]
fn wide_not_twice_gives_back_the_value() {
    for w in [CpuWidth::Bit32, CpuWidth::Bit64, CpuWidth::Bit128] {
        let mut cpu = CPU::new(w, 1, 0);
        run(&mut cpu, "MOV R1, 12345").unwrap();
        run(&mut cpu, "NOT R1").unwrap();
        assert_eq!(cpu.get("R1"), Some(cpu.mask() - 12345));
        run(&mut cpu, "NOT R1").unwrap();
        assert_eq!(cpu.get("R1"), Some(12345));
    }
}

#[test]
fn wide_mov_reads_back_cut_to_width() {
    let mut cpu = CPU::new(CpuWidth::Bit32, 1, 0);
    run(&mut cpu, "MOV R1, 0x123456789").unwrap();
    assert_eq!(cpu.get("R1"), Some(0x2345_6789));
    assert_eq!(cpu.get_value("R1"), Ok(0x2345_6789));
}

#[test]
fn wide_machine_keeps_its_shape_over_a_program() {
    let mut cpu = CPU::new(CpuWidth::Bit32, 3, 5);
    let program = [
        "MOV R1, 4294967295",
        "ADD R1, 9",
        "SUB R2, 1",
        "MUL R2, 65537",
        "NOT R3",
        "SHL R3, 31",
        "STORE R2, 4",
        "LOAD R1, 4",
        "STORE R3, 9",
        "MOV R4, R9",
        "XOR R1, R2",
    ];
    for line in program {
        let _ = run(&mut cpu, line);
        let mut names = cpu.register_names();
        names.sort();
        assert_eq!(names, vec!["R1", "R2", "R3"]);
        for name in ["R1", "R2", "R3"] {
            assert!(cpu.get(name).unwrap() <= cpu.mask(), "{} left {} too wide", line, name);
        }
        for i in 0..5 {
            assert!(cpu.memory_at(i).unwrap() <= cpu.mask());
        }
        assert_eq!(cpu.memory_at(5), None);
        let mut flags = cpu.flag_names();
        flags.sort();
        assert_eq!(flags, vec!["CARRY", "OVERFLOW", "SIGN", "ZERO"]);
    }
}
