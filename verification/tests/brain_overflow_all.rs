use cpusim::brain_overflow_all::{parse_biguint, CpuWidth, LineAction, CPU};
use cpusim::natural::Natural;
use num_bigint::BigUint;

fn big(n: &Natural) -> BigUint {
    BigUint::new(n.to_u32_digits())
}

fn reg(cpu: &CPU, name: &str) -> BigUint {
    big(&cpu.get(name).unwrap())
}

fn line(cpu: &mut CPU, text: &str) -> LineAction {
    assert!(!cpu.line_fails(text), "line would not complete: {}", text);
    cpu.handle_line(text)
}

fn num(s: &str) -> BigUint {
    s.parse().unwrap()
}

#[test]
fn big_new_machine() {
    let cpu = CPU::new(CpuWidth::Bit1024, 16, 8);
    assert_eq!(cpu.bits(), CpuWidth::Bit1024);
    assert_eq!(reg(&cpu, "R0"), num("0"));
    assert_eq!(reg(&cpu, "R15"), num("0"));
    assert!(cpu.get("R16").is_none());
    assert_eq!(big(&cpu.pc()), num("0"));
    assert_eq!(big(&cpu.memory_at(7).unwrap()), num("0"));
    assert!(cpu.memory_at(8).is_none());
    assert_eq!(cpu.flag("ZERO"), Some(false));
    assert_eq!(cpu.register_names().len(), 16);
    assert_eq!(cpu.flag_names().len(), 4);
}

#[test]
fn masks_by_width() {
    let two = BigUint::from(2u32);
    for (w, n) in [
        (CpuWidth::Bit32, 32u32),
        (CpuWidth::Bit64, 64),
        (CpuWidth::Bit128, 128),
        (CpuWidth::Bit256, 256),
        (CpuWidth::Bit512, 512),
        (CpuWidth::Bit1024, 1024),
        (CpuWidth::Custom(0), 0),
        (CpuWidth::Custom(7), 7),
    ] {
        let cpu = CPU::new(w, 1, 0);
        assert_eq!(big(&cpu.mask()), two.pow(n) - 1u32);
    }
    let cpu = CPU::new(CpuWidth::Custom(8), 1, 0);
    assert_eq!(big(&cpu.to_masked(&parse_biguint("300"))), num("44"));
}

#[test]
fn console_arithmetic() {
    let mut cpu = CPU::new(CpuWidth::Custom(8), 2, 4);
    assert_eq!(line(&mut cpu, "ADD R0 300"), LineAction::Continue);
    assert_eq!(reg(&cpu, "R0"), num("44"));
    assert_eq!(cpu.flag("ZERO"), Some(false));
    line(&mut cpu, "sub R0 50");
    assert_eq!(reg(&cpu, "R0"), num("0"));
    assert_eq!(cpu.flag("ZERO"), Some(true));
    line(&mut cpu, "ADD R0 256");
    // the sum 256 is not zero, though the register holds 0
    assert_eq!(reg(&cpu, "R0"), num("0"));
    assert_eq!(cpu.flag("ZERO"), Some(false));
    line(&mut cpu, "ADD R0 7");
    line(&mut cpu, "MUL R0 100");
    assert_eq!(reg(&cpu, "R0"), num("188"));
    line(&mut cpu, "DIV R0 0");
    assert_eq!(reg(&cpu, "R0"), num("188"));
    line(&mut cpu, "DIV R0 10");
    assert_eq!(reg(&cpu, "R0"), num("18"));
    line(&mut cpu, "AND R0 6");
    assert_eq!(reg(&cpu, "R0"), num("2"));
    line(&mut cpu, "OR R0 5");
    assert_eq!(reg(&cpu, "R0"), num("7"));
    line(&mut cpu, "XOR R0 3");
    assert_eq!(reg(&cpu, "R0"), num("4"));
    line(&mut cpu, "SHL R0 6");
    assert_eq!(reg(&cpu, "R0"), num("0"));
    line(&mut cpu, "ADD R0 1_2_8");
    line(&mut cpu, "SHR R0 3");
    assert_eq!(reg(&cpu, "R0"), num("16"));
    line(&mut cpu, "ADD R0 junk");
    assert_eq!(reg(&cpu, "R0"), num("16"));
    line(&mut cpu, "SHL R0 junk");
    assert_eq!(reg(&cpu, "R0"), num("16"));
}

#[test]
fn console_memory_and_actions() {
    let mut cpu = CPU::new(CpuWidth::Bit32, 2, 4);
    line(&mut cpu, "ADD R1 99");
    line(&mut cpu, "STORE R1 3");
    assert_eq!(big(&cpu.memory_at(3).unwrap()), num("99"));
    line(&mut cpu, "LOAD R0 3");
    assert_eq!(reg(&cpu, "R0"), num("99"));
    line(&mut cpu, "LOAD fresh 3");
    assert_eq!(reg(&cpu, "fresh"), num("99"));
    line(&mut cpu, "LOAD R0 4");
    assert_eq!(reg(&cpu, "R0"), num("99"));
    line(&mut cpu, "STORE nothing 4");
    assert_eq!(line(&mut cpu, "state"), LineAction::PrintState);
    assert_eq!(line(&mut cpu, "EXIT"), LineAction::Exit);
    assert_eq!(line(&mut cpu, "MOV R1 2"), LineAction::Unknown);
    assert_eq!(line(&mut cpu, "NOT R1"), LineAction::Unknown);
    assert_eq!(line(&mut cpu, "hello"), LineAction::Unknown);
    assert_eq!(line(&mut cpu, "   "), LineAction::Continue);
}

#[test]
fn console_lines_that_cannot_complete() {
    let cpu = CPU::new(CpuWidth::Bit32, 2, 4);
    assert!(cpu.line_fails("ADD R9 1"));
    assert!(cpu.line_fails("ADD R1"));
    assert!(!cpu.line_fails("DIV R9 0"));
    assert!(cpu.line_fails("DIV R9 1"));
    assert!(!cpu.line_fails("STORE R9 4"));
    assert!(cpu.line_fails("STORE R9 3"));
    assert!(!cpu.line_fails("LOAD R9 3"));
    assert!(cpu.line_fails("LOAD R9"));
    assert!(!cpu.line_fails("EXIT"));
}

#[test]
fn direct_operations() {
    let mut cpu = CPU::new(CpuWidth::Bit64, 2, 2);
    let v = parse_biguint("18446744073709551615");
    cpu.add("R0", &v);
    assert_eq!(reg(&cpu, "R0"), num("18446744073709551615"));
    cpu.add("R0", &parse_biguint("1"));
    assert_eq!(reg(&cpu, "R0"), num("0"));
    assert_eq!(cpu.flag("ZERO"), Some(false));
    cpu.bitwise_op("R0", &parse_biguint("5"), "NAND");
    assert_eq!(reg(&cpu, "R0"), num("0"));
    assert_eq!(cpu.flag("ZERO"), Some(true));
    cpu.set_flag("CARRY", true);
    assert_eq!(cpu.flag("CARRY"), Some(true));
    cpu.set_flag("HALF", true);
    assert_eq!(cpu.flag("HALF"), None);
}

#[test]
fn numerals_match_num_bigint() {
    for s in ["", "0", "12", "+12", "++12", "+", "1_000", "_1", "1__", "+_1", "12a", "-1", "٣", "00042",
              "123456789012345678901234567890123456789012345678901234567890"] {
        let expected = BigUint::parse_bytes(s.as_bytes(), 10).unwrap_or_else(|| BigUint::from(0u32));
        assert_eq!(big(&parse_biguint(s)), expected, "text {:?}", s);
    }
}

#[test]
fn console_keeps_the_machine_in_shape() {
    let mut cpu = CPU::new(CpuWidth::Custom(12), 4, 3);
    let mask = big(&cpu.mask());
    let lines = [
        "ADD R0 5000",
        "MUL R0 4097",
        "SUB R1 3",
        "SHL R2 40",
        "OR R3 123456789",
        "STORE R3 2",
        "LOAD R1 2",
        "DIV R0 0",
        "XOR R1 4095",
        "STORE R0 7",
        "BOGUS R0 1",
    ];
    for text in lines {
        line(&mut cpu, text);
        assert_eq!(cpu.register_names().len(), 4);
        for i in 0..4 {
            assert!(reg(&cpu, &format!("R{}", i)) <= mask, "{} went past the width", text);
        }
        for a in 0..3 {
            assert!(big(&cpu.memory_at(a).unwrap()) <= mask);
        }
        assert!(cpu.memory_at(3).is_none());
        let mut flags = cpu.flag_names();
        flags.sort();
        assert_eq!(flags, vec!["CARRY", "OVERFLOW", "SIGN", "ZERO"]);
    }
}
