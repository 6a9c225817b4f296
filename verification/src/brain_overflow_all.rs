//! A machine of any width over natural-number registers, with flags and
//! memory, operated register by register or through a line-by-line console.
use vstd::prelude::*;
use vstd::arithmetic::power2::*;
use crate::named_map::NamedMap;
use crate::natural::{
    at_least, bit_and, bit_or, bit_xor, decimal_numeral, difference, is_zero, lemma_and_low_mask,
    nat_and, nat_or, nat_xor, one, parse_decimal, product, quotient, shl, shr, sum, zero, Natural,
};
use crate::text::{
    decimal, digit_of, law_decimal_reads_back, chars_of, lemma_numbered_step, mnemonic_of, numbered, register_name_string,
    usize_literal, words, Mnemonic, WordList,
};

verus! {

/// The widths the machine can have.
#[derive(Clone, Copy, Debug, PartialEq, Eq, Structural)]
pub enum CpuWidth {
    Bit32,
    Bit64,
    Bit128,
    Bit256,
    Bit512,
    Bit1024,
    Custom(u32),
}

/// The number of bits of a width.
pub open spec fn width_bits(w: CpuWidth) -> nat {
    match w {
        CpuWidth::Bit32 => 32,
        CpuWidth::Bit64 => 64,
        CpuWidth::Bit128 => 128,
        CpuWidth::Bit256 => 256,
        CpuWidth::Bit512 => 512,
        CpuWidth::Bit1024 => 1024,
        CpuWidth::Custom(n) => n as nat,
    }
}

/// `v` reduced to the low bits of width `w`.
pub open spec fn wrap(v: nat, w: CpuWidth) -> nat {
    v % pow2(width_bits(w))
}

/// The state of a machine: registers and flags by name, memory, and the
/// program counter.
pub struct Machine {
    pub registers: Map<Seq<char>, nat>,
    pub flags: Map<Seq<char>, bool>,
    pub memory: Seq<nat>,
    pub pc: nat,
}

/// `flags` with `name` set to `v`, when `name` is one of them.
pub open spec fn with_flag(flags: Map<Seq<char>, bool>, name: Seq<char>, v: bool) -> Map<Seq<char>, bool> {
    if flags.dom().contains(name) {
        flags.insert(name, v)
    } else {
        flags
    }
}

/// The flags a new machine has, all clear.
pub open spec fn initial_flags() -> Map<Seq<char>, bool> {
    Map::empty().insert("ZERO"@, false).insert("CARRY"@, false).insert("OVERFLOW"@, false).insert(
        "SIGN"@,
        false,
    )
}

/// `m` with register `reg` set to `v`.
pub open spec fn set_register(m: Machine, reg: Seq<char>, v: nat) -> Machine {
    Machine { registers: m.registers.insert(reg, v), ..m }
}

/// `m` after an arithmetic result: register `reg` holds `result` cut to the
/// width, and the `ZERO` flag tells whether `result` itself is zero.
pub open spec fn store_result(m: Machine, w: CpuWidth, reg: Seq<char>, result: nat) -> Machine {
    Machine {
        registers: m.registers.insert(reg, wrap(result, w)),
        flags: with_flag(m.flags, "ZERO"@, result == 0),
        ..m
    }
}

/// Subtraction that stops at zero.
pub open spec fn saturating_sub(r: nat, v: nat) -> nat {
    if r >= v {
        (r - v) as nat
    } else {
        0
    }
}

/// The result of the bitwise operation named `op` (`AND`, `OR` or `XOR`);
/// `r` itself for any other name.
pub open spec fn bitwise_result(r: nat, v: nat, op: Seq<char>) -> nat {
    if op == "AND"@ {
        nat_and(r, v)
    } else if op == "OR"@ {
        nat_or(r, v)
    } else if op == "XOR"@ {
        nat_xor(r, v)
    } else {
        r
    }
}

/// `m` after `LOAD`: register `reg` takes the word at `addr`, when there is one.
pub open spec fn load_result(m: Machine, reg: Seq<char>, addr: nat) -> Machine {
    if addr < m.memory.len() {
        set_register(m, reg, m.memory[addr as int])
    } else {
        m
    }
}

/// `m` after `STORE`: the word at `addr`, when there is one, takes register
/// `reg` cut to the width.
pub open spec fn store_memory(m: Machine, w: CpuWidth, reg: Seq<char>, addr: nat) -> Machine {
    if addr < m.memory.len() {
        Machine { memory: m.memory.update(addr as int, wrap(m.registers[reg], w)), ..m }
    } else {
        m
    }
}

/// `m` after division of register `reg` by `v`; nothing happens when `v` is zero.
pub open spec fn divide_result(m: Machine, w: CpuWidth, reg: Seq<char>, v: nat) -> Machine {
    if v == 0 {
        m
    } else {
        store_result(m, w, reg, m.registers[reg] / v)
    }
}

/// A machine whose values are natural numbers kept to the bits of its width.
#[derive(Debug)]
pub struct CPU {
    registers: NamedMap<Natural>,
    bits: CpuWidth,
    flags: NamedMap<bool>,
    memory: Vec<Natural>,
    pc: Natural,
}

/// The numbers that named naturals stand for.
pub open spec fn values_of(m: Map<Seq<char>, Natural>) -> Map<Seq<char>, nat> {
    m.map_values(|n: Natural| n@)
}

/// The numbers that a sequence of naturals stands for.
pub open spec fn words_of(s: Seq<Natural>) -> Seq<nat> {
    s.map_values(|n: Natural| n@)
}

proof fn lemma_values_insert(m: Map<Seq<char>, Natural>, k: Seq<char>, n: Natural)
    ensures
        values_of(m.insert(k, n)) == values_of(m).insert(k, n@),
{
    assert(values_of(m.insert(k, n)) =~= values_of(m).insert(k, n@));
}

impl CPU {
    /// The registers, flags, memory and program counter.
    pub closed spec fn state(&self) -> Machine {
        Machine {
            registers: values_of(self.registers@),
            flags: self.flags@,
            memory: words_of(self.memory@),
            pc: self.pc@,
        }
    }

    /// The width of the machine.
    pub closed spec fn width(&self) -> CpuWidth {
        self.bits
    }

    /// Every register and memory word holds a value of the machine's width.
    pub closed spec fn wf(&self) -> bool {
        &&& self.registers.wf()
        &&& self.flags.wf()
        &&& forall|k: Seq<char>| #[trigger]
            self.registers@.dom().contains(k) ==> self.registers@[k]@ < pow2(width_bits(self.bits))
        &&& forall|i: int| 0 <= i < self.memory@.len() ==> #[trigger] self.memory@[i]@ < pow2(width_bits(self.bits))
        &&& self.flags@.dom() == initial_flags().dom()
    }

    /// What a well-formed machine guarantees: its registers and memory fit its
    /// width, and its flags are `ZERO`, `CARRY`, `OVERFLOW` and `SIGN`.
    pub proof fn lemma_wf(&self)
        requires
            self.wf(),
        ensures
            fits(self.state(), self.width()),
            self.state().flags.dom() == initial_flags().dom(),
    {
        assert forall|k: Seq<char>| #[trigger] self.state().registers.dom().contains(k) implies self.state().registers[k]
            < pow2(width_bits(self.bits)) by {
            assert(self.registers@.dom().contains(k));
        }
        assert forall|i: int| 0 <= i < self.state().memory.len() implies #[trigger] self.state().memory[i]
            < pow2(width_bits(self.bits)) by {
            assert(self.memory@[i]@ == self.state().memory[i]);
        }
    }

    /// A machine of width `bits` with registers `R0`..`R{reg_count - 1}` and
    /// `mem_size` words of memory, all zero, its flags clear and its program
    /// counter zero.
    pub fn new(bits: CpuWidth, reg_count: usize, mem_size: usize) -> (cpu: CPU)
        ensures
            cpu.wf(),
            cpu.width() == bits,
            cpu.state().registers == numbered(0, reg_count as int, 0nat),
            cpu.state().flags == initial_flags(),
            cpu.state().memory == Seq::new(mem_size as nat, |i: int| 0nat),
            cpu.state().pc == 0,
    {
        proof {
            lemma_pow2_pos(width_bits(bits));
        }
        let mut registers: NamedMap<Natural> = NamedMap::new();
        let mut k: usize = 0;
        proof {
            assert(values_of(registers@) =~= numbered(0, 0, 0nat));
        }
        while k < reg_count
            invariant
                k <= reg_count,
                registers.wf(),
                values_of(registers@) == numbered(0, k as int, 0nat),
                forall|j: Seq<char>| #[trigger] registers@.dom().contains(j) ==> registers@[j]@ == 0,
            decreases reg_count - k,
        {
            let name = register_name_string(k);
            let z = zero();
            proof {
                lemma_numbered_step(0, k as int, 0nat);
                lemma_values_insert(registers@, name@, z);
            }
            registers.insert(name.as_str(), z);
            k = k + 1;
        }
        let mut flags: NamedMap<bool> = NamedMap::new();
        flags.insert("ZERO", false);
        flags.insert("CARRY", false);
        flags.insert("OVERFLOW", false);
        flags.insert("SIGN", false);
        let mut memory: Vec<Natural> = Vec::new();
        let mut j: usize = 0;
        while j < mem_size
            invariant
                j <= mem_size,
                memory@.len() == j,
                forall|i: int| 0 <= i < j ==> #[trigger] memory@[i]@ == 0,
            decreases mem_size - j,
        {
            memory.push(zero());
            j = j + 1;
        }
        let cpu = CPU { registers, bits, flags, memory, pc: zero() };
        proof {
            assert(cpu.state().memory =~= Seq::new(mem_size as nat, |i: int| 0nat));
        }
        cpu
    }

    /// The number of bits of the machine's width.
    fn width_usize(&self) -> (n: usize)
        ensures
            n == width_bits(self.width()),
    {
        match self.bits {
            CpuWidth::Bit32 => 32,
            CpuWidth::Bit64 => 64,
            CpuWidth::Bit128 => 128,
            CpuWidth::Bit256 => 256,
            CpuWidth::Bit512 => 512,
            CpuWidth::Bit1024 => 1024,
            CpuWidth::Custom(n) => n as usize,
        }
    }

    /// The mask of the machine's width: `2^width - 1`.
    pub fn mask(&self) -> (m: Natural)
        ensures
            m@ == pow2(width_bits(self.width())) - 1,
    {
        let unit = one();
        let top = shl(&unit, self.width_usize());
        proof {
            lemma_pow2_pos(width_bits(self.bits));
        }
        difference(&top, &unit)
    }

    /// `value` cut to the machine's width.
    pub fn to_masked(&self, value: &Natural) -> (r: Natural)
        ensures
            r@ == wrap(value@, self.width()),
            r@ < pow2(width_bits(self.width())),
    {
        let m = self.mask();
        proof {
            lemma_and_low_mask(value@, width_bits(self.bits));
            lemma_pow2_pos(width_bits(self.bits));
        }
        bit_and(value, &m)
    }

    /// Sets the flag `name` to `value`, when the machine has that flag.
    pub fn set_flag(&mut self, name: &str, value: bool)
        requires
            old(self).wf(),
        ensures
            final(self).wf(),
            final(self).width() == old(self).width(),
            final(self).state() == (Machine {
                flags: with_flag(old(self).state().flags, name@, value),
                ..old(self).state()
            }),
    {
        if self.flags.contains(name) {
            self.flags.insert(name, value);
            assert(self.flags@.dom() =~= old(self).flags@.dom());
        }
    }

    /// Puts `value`, which fits the width, into register `reg`.
    fn put(&mut self, reg: &str, value: Natural)
        requires
            old(self).wf(),
            value@ < pow2(width_bits(old(self).width())),
        ensures
            final(self).wf(),
            final(self).width() == old(self).width(),
            final(self).state() == set_register(old(self).state(), reg@, value@),
    {
        let ghost before = self.registers@;
        proof {
            lemma_values_insert(before, reg@, value);
        }
        self.registers.insert(reg, value);
        proof {
            assert forall|j: Seq<char>| #[trigger] self.registers@.dom().contains(j) implies self.registers@[j]@
                < pow2(width_bits(self.bits)) by {
                if j != reg@ {
                    assert(before.dom().contains(j));
                }
            }
        }
    }

    /// Stores `result` cut to the width in register `reg`, and sets the
    /// `ZERO` flag when `result` is zero.
    fn commit(&mut self, reg: &str, result: &Natural)
        requires
            old(self).wf(),
        ensures
            final(self).wf(),
            final(self).width() == old(self).width(),
            final(self).state() == store_result(old(self).state(), old(self).width(), reg@, result@),
    {
        let masked = self.to_masked(result);
        self.put(reg, masked);
        let z = is_zero(result);
        self.set_flag("ZERO", z);
    }

    /// Adds `val` to register `reg`.
    pub fn add(&mut self, reg: &str, val: &Natural)
        requires
            old(self).wf(),
            old(self).state().registers.dom().contains(reg@),
        ensures
            final(self).wf(),
            final(self).width() == old(self).width(),
            final(self).state() == store_result(
                old(self).state(),
                old(self).width(),
                reg@,
                old(self).state().registers[reg@] + val@,
            ),
    {
        let result = sum(self.registers.get(reg).unwrap(), val);
        self.commit(reg, &result);
    }

    /// Subtracts `val` from register `reg`, stopping at zero.
    pub fn sub(&mut self, reg: &str, val: &Natural)
        requires
            old(self).wf(),
            old(self).state().registers.dom().contains(reg@),
        ensures
            final(self).wf(),
            final(self).width() == old(self).width(),
            final(self).state() == store_result(
                old(self).state(),
                old(self).width(),
                reg@,
                saturating_sub(old(self).state().registers[reg@], val@),
            ),
    {
        let r_val = self.registers.get(reg).unwrap();
        let result = if at_least(r_val, val) {
            difference(r_val, val)
        } else {
            zero()
        };
        self.commit(reg, &result);
    }

    /// Multiplies register `reg` by `val`.
    pub fn mul(&mut self, reg: &str, val: &Natural)
        requires
            old(self).wf(),
            old(self).state().registers.dom().contains(reg@),
        ensures
            final(self).wf(),
            final(self).width() == old(self).width(),
            final(self).state() == store_result(
                old(self).state(),
                old(self).width(),
                reg@,
                old(self).state().registers[reg@] * val@,
            ),
    {
        let result = product(self.registers.get(reg).unwrap(), val);
        self.commit(reg, &result);
    }

    /// Divides register `reg` by `val`, rounding down; does nothing when
    /// `val` is zero.
    pub fn div(&mut self, reg: &str, val: &Natural)
        requires
            old(self).wf(),
            val@ != 0 ==> old(self).state().registers.dom().contains(reg@),
        ensures
            final(self).wf(),
            final(self).width() == old(self).width(),
            final(self).state() == divide_result(old(self).state(), old(self).width(), reg@, val@),
    {
        if is_zero(val) {
            return;
        }
        let result = quotient(self.registers.get(reg).unwrap(), val);
        self.commit(reg, &result);
    }

    /// Applies the bitwise operation named `op` (`AND`, `OR` or `XOR`) to
    /// register `reg` and `val`; any other name keeps the register's value.
    pub fn bitwise_op(&mut self, reg: &str, val: &Natural, op: &str)
        requires
            old(self).wf(),
            old(self).state().registers.dom().contains(reg@),
        ensures
            final(self).wf(),
            final(self).width() == old(self).width(),
            final(self).state() == store_result(
                old(self).state(),
                old(self).width(),
                reg@,
                bitwise_result(old(self).state().registers[reg@], val@, op@),
            ),
    {
        let r_val = self.registers.get(reg).unwrap();
        let name = op.to_owned();
        let result = if name == String::from_str("AND") {
            bit_and(r_val, val)
        } else if name == String::from_str("OR") {
            bit_or(r_val, val)
        } else if name == String::from_str("XOR") {
            bit_xor(r_val, val)
        } else {
            r_val.copy()
        };
        self.commit(reg, &result);
    }

    /// Shifts register `reg` left by `bits`, cut to the width.
    pub fn shl(&mut self, reg: &str, bits: usize)
        requires
            old(self).wf(),
            old(self).state().registers.dom().contains(reg@),
        ensures
            final(self).wf(),
            final(self).width() == old(self).width(),
            final(self).state() == set_register(
                old(self).state(),
                reg@,
                wrap(old(self).state().registers[reg@] * pow2(bits as nat), old(self).width()),
            ),
    {
        let result = shl(self.registers.get(reg).unwrap(), bits);
        let masked = self.to_masked(&result);
        self.put(reg, masked);
    }

    /// Shifts register `reg` right by `bits`.
    pub fn shr(&mut self, reg: &str, bits: usize)
        requires
            old(self).wf(),
            old(self).state().registers.dom().contains(reg@),
        ensures
            final(self).wf(),
            final(self).width() == old(self).width(),
            final(self).state() == set_register(
                old(self).state(),
                reg@,
                wrap(old(self).state().registers[reg@] / pow2(bits as nat), old(self).width()),
            ),
    {
        let result = shr(self.registers.get(reg).unwrap(), bits);
        let masked = self.to_masked(&result);
        self.put(reg, masked);
    }

    /// Loads the word at `addr` into register `reg`; does nothing when memory
    /// does not reach `addr`.
    pub fn load(&mut self, reg: &str, addr: usize)
        requires
            old(self).wf(),
        ensures
            final(self).wf(),
            final(self).width() == old(self).width(),
            final(self).state() == load_result(old(self).state(), reg@, addr as nat),
    {
        if addr < self.memory.len() {
            let word = self.memory[addr].copy();
            self.put(reg, word);
        }
    }

    /// Stores register `reg`, cut to the width, at `addr`; does nothing when
    /// memory does not reach `addr`.
    pub fn store(&mut self, reg: &str, addr: usize)
        requires
            old(self).wf(),
            addr < old(self).state().memory.len() ==> old(self).state().registers.dom().contains(
                reg@,
            ),
        ensures
            final(self).wf(),
            final(self).width() == old(self).width(),
            final(self).state() == store_memory(old(self).state(), old(self).width(), reg@, addr as nat),
    {
        if addr < self.memory.len() {
            let val = self.registers.get(reg).unwrap().copy();
            let masked = self.to_masked(&val);
            let ghost before = self.memory@;
            self.memory.set(addr, masked);
            proof {
                assert(words_of(self.memory@) =~= words_of(before).update(addr as int, masked@));
                assert forall|i: int| 0 <= i < self.memory@.len() implies #[trigger] self.memory@[i]@
                    < pow2(width_bits(self.bits)) by {
                    if i != addr {
                        assert(self.memory@[i] == before[i]);
                    }
                }
            }
        }
    }

    /// The value of a register, if the machine has it.
    pub fn get(&self, name: &str) -> (r: Option<Natural>)
        requires
            self.wf(),
        ensures
            match r {
                Some(n) => self.state().registers.dom().contains(name@) && n@ == self.state().registers[name@],
                None => !self.state().registers.dom().contains(name@),
            },
    {
        match self.registers.get(name) {
            Some(v) => Some(v.copy()),
            None => None,
        }
    }

    /// The value of a flag, if the machine has it.
    pub fn flag(&self, name: &str) -> (r: Option<bool>)
        requires
            self.wf(),
        ensures
            r == (if self.state().flags.dom().contains(name@) {
                Some(self.state().flags[name@])
            } else {
                None
            }),
    {
        match self.flags.get(name) {
            Some(v) => Some(*v),
            None => None,
        }
    }

    /// The names of the registers, each once.
    pub fn register_names(&self) -> (r: Vec<String>)
        requires
            self.wf(),
        ensures
            forall|i: int, j: int| 0 <= i < j < r@.len() ==> r@[i]@ != r@[j]@,
            forall|k: Seq<char>|
                self.state().registers.dom().contains(k) <==> exists|i: int|
                    0 <= i < r@.len() && r@[i]@ == k,
    {
        self.registers.names()
    }

    /// The names of the flags, each once.
    pub fn flag_names(&self) -> (r: Vec<String>)
        requires
            self.wf(),
        ensures
            forall|i: int, j: int| 0 <= i < j < r@.len() ==> r@[i]@ != r@[j]@,
            forall|k: Seq<char>|
                self.state().flags.dom().contains(k) <==> exists|i: int|
                    0 <= i < r@.len() && r@[i]@ == k,
    {
        self.flags.names()
    }

    /// The word at `addr`, if memory reaches that far.
    pub fn memory_at(&self, addr: usize) -> (r: Option<Natural>)
        ensures
            match r {
                Some(n) => addr < self.state().memory.len() && n@ == self.state().memory[addr as int],
                None => addr >= self.state().memory.len(),
            },
    {
        if addr < self.memory.len() {
            Some(self.memory[addr].copy())
        } else {
            None
        }
    }

    /// The program counter.
    pub fn pc(&self) -> (n: Natural)
        ensures
            n@ == self.state().pc,
    {
        self.pc.copy()
    }

    /// The width of the machine.
    pub fn bits(&self) -> (w: CpuWidth)
        ensures
            w == self.width(),
    {
        self.bits
    }

    /// Whether the console line cannot be carried out (see `line_fails_hard`).
    pub fn line_fails(&self, line: &str) -> (b: bool)
        requires
            self.wf(),
        ensures
            b == line_fails_hard(self.state(), line@),
    {
        let ws = WordList::of(line);
        if ws.len() == 0 {
            return false;
        }
        let mm = match ws.mnemonic(0) {
            Some(mm) => mm,
            None => {
                return false;
            },
        };
        let needs_operands = match mm {
            Mnemonic::Mov | Mnemonic::Not | Mnemonic::Exit | Mnemonic::State => false,
            _ => true,
        };
        if !needs_operands {
            return false;
        }
        if ws.len() < 3 {
            return true;
        }
        let known = self.registers.contains(ws.word(line, 1));
        proof {
            assert(self.state().registers.dom() == self.registers@.dom());
        }
        match mm {
            Mnemonic::Load => false,
            Mnemonic::Div => {
                let val = parse_biguint(ws.word(line, 2));
                !is_zero(&val) && !known
            },
            Mnemonic::Store => {
                let count: usize = match ws.usize_word(2) {
                    Some(n) => n,
                    None => 0,
                };
                count < self.memory.len() && !known
            },
            _ => !known,
        }
    }

    /// Carries out one console line: `ADD`, `SUB`, `MUL`, `DIV`, `AND`, `OR`
    /// or `XOR` with a register and a decimal number, `SHL`, `SHR`, `LOAD` or
    /// `STORE` with a register and a count, or `EXIT` or `STATE`; the name is
    /// read in any case. A number or count that does not read counts as zero.
    /// Says what the console does next.
    pub fn handle_line(&mut self, line: &str) -> (a: LineAction)
        requires
            old(self).wf(),
            !line_fails_hard(old(self).state(), line@),
        ensures
            final(self).wf(),
            final(self).width() == old(self).width(),
            (final(self).state(), a) == line_step(old(self).state(), old(self).width(), line@),
    {
        let ws = WordList::of(line);
        if ws.len() == 0 {
            return LineAction::Continue;
        }
        let m = ws.mnemonic(0);
        let kind: u8 = match m {
            Some(Mnemonic::Exit) => {
                return LineAction::Exit;
            },
            Some(Mnemonic::State) => {
                return LineAction::PrintState;
            },
            Some(Mnemonic::Add) | Some(Mnemonic::Sub) | Some(Mnemonic::Mul) | Some(Mnemonic::Div)
            | Some(Mnemonic::And) | Some(Mnemonic::Or) | Some(Mnemonic::Xor) => 1,
            Some(Mnemonic::Shl) | Some(Mnemonic::Shr) | Some(Mnemonic::Load) | Some(Mnemonic::Store) => 2,
            _ => {
                return LineAction::Unknown;
            },
        };
        let reg = ws.word(line, 1);
        if kind == 1 {
            let val = parse_biguint(ws.word(line, 2));
            proof {
                reveal_strlit("AND");
                reveal_strlit("OR");
                reveal_strlit("XOR");
                assert("OR"@.len() == 2 && "AND"@.len() == 3 && "XOR"@[0] == 'X' && "AND"@[0] == 'A');
                assert("OR"@ != "AND"@ && "XOR"@ != "AND"@ && "XOR"@ != "OR"@);
            }
            match m {
                Some(Mnemonic::Add) => self.add(reg, &val),
                Some(Mnemonic::Sub) => self.sub(reg, &val),
                Some(Mnemonic::Mul) => self.mul(reg, &val),
                Some(Mnemonic::Div) => self.div(reg, &val),
                Some(Mnemonic::And) => self.bitwise_op(reg, &val, "AND"),
                Some(Mnemonic::Or) => self.bitwise_op(reg, &val, "OR"),
                _ => self.bitwise_op(reg, &val, "XOR"),
            }
        } else {
            let count: usize = match ws.usize_word(2) {
                Some(n) => n,
                None => 0,
            };
            match m {
                Some(Mnemonic::Shl) => self.shl(reg, count),
                Some(Mnemonic::Shr) => self.shr(reg, count),
                Some(Mnemonic::Load) => self.load(reg, count),
                _ => self.store(reg, count),
            }
        }
        LineAction::Continue
    }
}

/// What the console does after a line.
#[derive(Clone, Copy, Debug, PartialEq, Eq, Structural)]
pub enum LineAction {
    /// Read the next line.
    Continue,
    /// Stop.
    Exit,
    /// Show the machine's state, then read the next line.
    PrintState,
    /// Report an unknown instruction, then read the next line.
    Unknown,
}

/// A number as the console reads it: a decimal numeral, or zero.
pub open spec fn numeral_or_zero(t: Seq<char>) -> nat {
    match decimal_numeral(t) {
        Some(v) => v,
        None => 0,
    }
}

/// A count as the console reads it: a `usize` in decimal, or zero.
pub open spec fn count_or_zero(t: Seq<char>) -> nat {
    match usize_literal(t) {
        Some(v) => v as nat,
        None => 0,
    }
}

/// The console line cannot be carried out: a missing operand, or an
/// operation on a register that does not exist.
pub open spec fn line_fails_hard(m: Machine, line: Seq<char>) -> bool {
    let p = words(line);
    p.len() > 0 && match mnemonic_of(p[0]) {
        Some(Mnemonic::Add) | Some(Mnemonic::Sub) | Some(Mnemonic::Mul) | Some(Mnemonic::And)
        | Some(Mnemonic::Or) | Some(Mnemonic::Xor) | Some(Mnemonic::Shl) | Some(Mnemonic::Shr) => p.len() < 3
            || !m.registers.dom().contains(p[1]),
        Some(Mnemonic::Div) => p.len() < 3 || (numeral_or_zero(p[2]) != 0
            && !m.registers.dom().contains(p[1])),
        Some(Mnemonic::Load) => p.len() < 3,
        Some(Mnemonic::Store) => p.len() < 3 || (count_or_zero(p[2]) < m.memory.len()
            && !m.registers.dom().contains(p[1])),
        _ => false,
    }
}

/// The machine after a console line, and what the console does next.
pub open spec fn line_step(m: Machine, w: CpuWidth, line: Seq<char>) -> (Machine, LineAction) {
    let p = words(line);
    if p.len() == 0 {
        (m, LineAction::Continue)
    } else {
        let reg = p[1];
        let r = m.registers[reg];
        match mnemonic_of(p[0]) {
            Some(Mnemonic::Exit) => (m, LineAction::Exit),
            Some(Mnemonic::State) => (m, LineAction::PrintState),
            Some(Mnemonic::Add) => (
                store_result(m, w, reg, r + numeral_or_zero(p[2])),
                LineAction::Continue,
            ),
            Some(Mnemonic::Sub) => (
                store_result(m, w, reg, saturating_sub(r, numeral_or_zero(p[2]))),
                LineAction::Continue,
            ),
            Some(Mnemonic::Mul) => (
                store_result(m, w, reg, r * numeral_or_zero(p[2])),
                LineAction::Continue,
            ),
            Some(Mnemonic::Div) => (
                divide_result(m, w, reg, numeral_or_zero(p[2])),
                LineAction::Continue,
            ),
            Some(Mnemonic::And) => (
                store_result(m, w, reg, nat_and(r, numeral_or_zero(p[2]))),
                LineAction::Continue,
            ),
            Some(Mnemonic::Or) => (
                store_result(m, w, reg, nat_or(r, numeral_or_zero(p[2]))),
                LineAction::Continue,
            ),
            Some(Mnemonic::Xor) => (
                store_result(m, w, reg, nat_xor(r, numeral_or_zero(p[2]))),
                LineAction::Continue,
            ),
            Some(Mnemonic::Shl) => (
                set_register(m, reg, wrap(r * pow2(count_or_zero(p[2])), w)),
                LineAction::Continue,
            ),
            Some(Mnemonic::Shr) => (
                set_register(m, reg, wrap(r / pow2(count_or_zero(p[2])), w)),
                LineAction::Continue,
            ),
            Some(Mnemonic::Load) => (load_result(m, reg, count_or_zero(p[2])), LineAction::Continue),
            Some(Mnemonic::Store) => (
                store_memory(m, w, reg, count_or_zero(p[2])),
                LineAction::Continue,
            ),
            _ => (m, LineAction::Unknown),
        }
    }
}

/// `s` read as a decimal numeral, or zero when it is none.
pub fn parse_biguint(s: &str) -> (n: Natural)
    ensures
        n@ == numeral_or_zero(s@),
{
    match parse_decimal(s) {
        Some(n) => n,
        None => zero(),
    }
}

// ---------------------------------------------------------------------
// Laws
// ---------------------------------------------------------------------

/// Every register and memory word of the machine fits the width.
pub open spec fn fits(m: Machine, w: CpuWidth) -> bool {
    &&& forall|k: Seq<char>| #[trigger] m.registers.dom().contains(k) ==> m.registers[k] < pow2(width_bits(w))
    &&& forall|i: int| 0 <= i < m.memory.len() ==> #[trigger] m.memory[i] < pow2(width_bits(w))
}

/// Cutting to the width gives a value that fits it, and leaves a value that
/// already fits unchanged.
pub proof fn law_wrap_fits(v: nat, w: CpuWidth)
    ensures
        wrap(v, w) < pow2(width_bits(w)),
        wrap(wrap(v, w), w) == wrap(v, w),
        v < pow2(width_bits(w)) ==> wrap(v, w) == v,
{
    let m = pow2(width_bits(w));
    lemma_pow2_pos(width_bits(w));
    vstd::arithmetic::div_mod::lemma_mod_bound(v as int, m as int);
    vstd::arithmetic::div_mod::lemma_small_mod(v % m, m);
    if v < m {
        vstd::arithmetic::div_mod::lemma_small_mod(v, m);
    }
}

/// A console line keeps every register and memory word within the width.
pub proof fn law_line_keeps_width(m: Machine, w: CpuWidth, line: Seq<char>)
    requires
        fits(m, w),
        !line_fails_hard(m, line),
    ensures
        fits(line_step(m, w, line).0, w),
{
    let after = line_step(m, w, line).0;
    let p = words(line);
    lemma_pow2_pos(width_bits(w));
    assert forall|k: Seq<char>| #[trigger] after.registers.dom().contains(k) implies after.registers[k]
        < pow2(width_bits(w)) by {
        if !m.registers.dom().contains(k) || after.registers[k] != m.registers[k] {
            let r = m.registers[p[1]];
            let v = numeral_or_zero(p[2]);
            let c = count_or_zero(p[2]);
            match mnemonic_of(p[0]) {
                Some(Mnemonic::Add) => law_wrap_fits(r + v, w),
                Some(Mnemonic::Sub) => law_wrap_fits(saturating_sub(r, v), w),
                Some(Mnemonic::Mul) => law_wrap_fits(r * v, w),
                Some(Mnemonic::Div) => law_wrap_fits(r / v, w),
                Some(Mnemonic::And) => law_wrap_fits(nat_and(r, v), w),
                Some(Mnemonic::Or) => law_wrap_fits(nat_or(r, v), w),
                Some(Mnemonic::Xor) => law_wrap_fits(nat_xor(r, v), w),
                Some(Mnemonic::Shl) => law_wrap_fits(r * pow2(c), w),
                Some(Mnemonic::Shr) => law_wrap_fits(r / pow2(c), w),
                _ => {},
            }
        }
    }
    assert forall|i: int| 0 <= i < after.memory.len() implies #[trigger] after.memory[i] < pow2(
        width_bits(w),
    ) by {
        if after.memory != m.memory {
            let c = count_or_zero(p[2]);
            law_wrap_fits(m.registers[p[1]], w);
            if i != c {
                assert(after.memory[i] == m.memory[i]);
            }
        }
    }
}

/// A register stored at an address and loaded back from it gives the
/// register's value cut to the width.
pub proof fn law_store_then_load(m: Machine, w: CpuWidth, reg: Seq<char>, dest: Seq<char>, addr: nat)
    requires
        addr < m.memory.len(),
    ensures
        load_result(store_memory(m, w, reg, addr), dest, addr).registers[dest] == wrap(
            m.registers[reg],
            w,
        ),
{
}

/// Subtraction stops at zero: it gives zero exactly when the subtrahend is
/// at least the register's value.
pub proof fn law_sub_stops_at_zero(r: nat, v: nat)
    ensures
        (saturating_sub(r, v) == 0) == (v >= r),
        v <= r ==> saturating_sub(r, v) + v == r,
{
}

/// The machine after the console lines of `lines`, one after another.
pub open spec fn run_lines(m: Machine, w: CpuWidth, lines: Seq<Seq<char>>) -> Machine
    decreases lines.len(),
{
    if lines.len() == 0 {
        m
    } else {
        line_step(run_lines(m, w, lines.drop_last()), w, lines.last()).0
    }
}

/// No line of `lines` fails hard where it is carried out.
pub open spec fn lines_complete(m: Machine, w: CpuWidth, lines: Seq<Seq<char>>) -> bool
    decreases lines.len(),
{
    lines.len() == 0 || (lines_complete(m, w, lines.drop_last()) && !line_fails_hard(
        run_lines(m, w, lines.drop_last()),
        lines.last(),
    ))
}

/// Running one more line is one more console step.
pub proof fn law_run_lines_one_more(m: Machine, w: CpuWidth, lines: Seq<Seq<char>>, l: Seq<char>)
    ensures
        run_lines(m, w, lines.push(l)) == line_step(run_lines(m, w, lines), w, l).0,
        lines_complete(m, w, lines.push(l)) == (lines_complete(m, w, lines) && !line_fails_hard(
            run_lines(m, w, lines),
            l,
        )),
{
    assert(lines.push(l).drop_last() =~= lines);
}

/// A console line keeps the memory's length and the flags' names, and
/// removes no register.
pub proof fn law_line_keeps_shape(m: Machine, w: CpuWidth, line: Seq<char>)
    ensures
        line_step(m, w, line).0.memory.len() == m.memory.len(),
        line_step(m, w, line).0.flags.dom() == m.flags.dom(),
        m.registers.dom().subset_of(line_step(m, w, line).0.registers.dom()),
{
    let after = line_step(m, w, line).0;
    assert(after.flags.dom() =~= m.flags.dom());
    assert forall|k: Seq<char>| m.registers.dom().contains(k) implies #[trigger] after.registers.dom().contains(k) by {
        let p = words(line);
        if p.len() > 0 {
            let c = count_or_zero(p[2]);
            match mnemonic_of(p[0]) {
                Some(Mnemonic::Load) => {
                    if c < m.memory.len() {
                        assert(after.registers == m.registers.insert(p[1], m.memory[c as int]));
                    }
                },
                Some(Mnemonic::Div) => {
                    let v = numeral_or_zero(p[2]);
                    if v != 0 {
                        assert(after.registers == m.registers.insert(p[1], wrap(m.registers[p[1]] / v, w)));
                    }
                },
                Some(Mnemonic::Store) => {
                    assert(after.registers == m.registers);
                },
                Some(Mnemonic::Shl) => {
                    let x = wrap(m.registers[p[1]] * pow2(c), w);
                    assert(after.registers == m.registers.insert(p[1], x));
                },
                Some(Mnemonic::Shr) => {
                    lemma_pow2_pos(c);
                    let x = wrap(m.registers[p[1]] / pow2(c), w);
                    assert(after.registers == m.registers.insert(p[1], x));
                },
                Some(Mnemonic::Add) | Some(Mnemonic::Sub) | Some(Mnemonic::Mul) | Some(Mnemonic::And)
                | Some(Mnemonic::Or) | Some(Mnemonic::Xor) => {
                    let r = m.registers[p[1]];
                    let v = numeral_or_zero(p[2]);
                    let res: nat = match mnemonic_of(p[0]) {
                        Some(Mnemonic::Add) => r + v,
                        Some(Mnemonic::Sub) => saturating_sub(r, v),
                        Some(Mnemonic::Mul) => r * v,
                        Some(Mnemonic::And) => nat_and(r, v),
                        Some(Mnemonic::Or) => nat_or(r, v),
                        _ => nat_xor(r, v),
                    };
                    assert(after == store_result(m, w, p[1], res));
                    assert(after.registers.dom() =~= m.registers.dom().insert(p[1]));
                },
                _ => {
                    assert(after.registers == m.registers);
                },
            }
        }
    }
}

/// Whatever lines the console carries out to completion, the registers and
/// memory keep fitting the width, the memory keeps its length, the flags keep
/// their names, and no register disappears.
pub proof fn law_run_lines_keeps_width(m: Machine, w: CpuWidth, lines: Seq<Seq<char>>)
    requires
        fits(m, w),
        lines_complete(m, w, lines),
    ensures
        fits(run_lines(m, w, lines), w),
        run_lines(m, w, lines).memory.len() == m.memory.len(),
        run_lines(m, w, lines).flags.dom() == m.flags.dom(),
        m.registers.dom().subset_of(run_lines(m, w, lines).registers.dom()),
    decreases lines.len(),
{
    if lines.len() > 0 {
        let before = run_lines(m, w, lines.drop_last());
        law_run_lines_keeps_width(m, w, lines.drop_last());
        law_line_keeps_width(before, w, lines.last());
        law_line_keeps_shape(before, w, lines.last());
    }
}


/// A console count is the decimal value of its word: what a `usize` literal
/// says, zero for anything else, and the decimal digits of any `usize` read
/// back as that number.
pub proof fn law_count_reads_decimal(t: Seq<char>, n: usize)
    ensures
        usize_literal(t) == Some(n) ==> count_or_zero(t) == n,
        usize_literal(t) is None ==> count_or_zero(t) == 0,
        count_or_zero(decimal(n as nat)) == n,
{
    law_decimal_reads_back(n as nat);
    let d = decimal(n as nat);
    assert(digit_of(d[0]) < 10);
}

/// A console number is the value of its decimal numeral, zero for anything
/// else.
pub proof fn law_number_reads_decimal(t: Seq<char>, n: nat)
    ensures
        decimal_numeral(t) == Some(n) ==> numeral_or_zero(t) == n,
        decimal_numeral(t) is None ==> numeral_or_zero(t) == 0,
{
}

/// What a console line with a register that exists and a third word does.
/// With `n` the decimal number and `c` the decimal count of the third word,
/// and `r` the register's value, each result is kept to the width's low bits:
/// `ADD`, `SUB`, `MUL`, `DIV` store `r + n`, `r - n` or zero when `n` is
/// larger, `r * n`, and `r / n` rounded down (nothing happens for `n == 0`),
/// and set `ZERO` to whether the exact result is zero, as `AND`, `OR`, `XOR`
/// do for the bitwise results; `SHL` and `SHR` store
/// `r * 2^c` and `r / 2^c`; `LOAD` takes the word at `c` and `STORE` writes
/// `r` there, when `c` is inside memory. Every such line goes on to the next.
pub proof fn law_console_lines(m: Machine, w: CpuWidth, line: Seq<char>)
    requires
        words(line).len() >= 3,
        m.registers.dom().contains(words(line)[1]),
    ensures
        ({
            let p = words(line);
            let reg = p[1];
            let r = m.registers[reg];
            let n = numeral_or_zero(p[2]);
            let c = count_or_zero(p[2]);
            let size = pow2(width_bits(w));
            let after = line_step(m, w, line).0;
            let op = mnemonic_of(p[0]);
            &&& op == Some(Mnemonic::Add) ==> after == Machine {
                registers: m.registers.insert(reg, (r + n) % size),
                flags: with_flag(m.flags, "ZERO"@, r == 0 && n == 0),
                ..m
            }
            &&& op == Some(Mnemonic::Sub) ==> after == Machine {
                registers: m.registers.insert(reg, (if n <= r { (r - n) as nat } else { 0nat }) % size),
                flags: with_flag(m.flags, "ZERO"@, r <= n),
                ..m
            }
            &&& op == Some(Mnemonic::Mul) ==> after == Machine {
                registers: m.registers.insert(reg, (r * n) % size),
                flags: with_flag(m.flags, "ZERO"@, r == 0 || n == 0),
                ..m
            }
            &&& op == Some(Mnemonic::Div) && n == 0 ==> after == m
            &&& op == Some(Mnemonic::Div) && n != 0 ==> after == Machine {
                registers: m.registers.insert(reg, (r / n) % size),
                flags: with_flag(m.flags, "ZERO"@, r < n),
                ..m
            }
            &&& op == Some(Mnemonic::And) ==> after == Machine {
                registers: m.registers.insert(reg, nat_and(r, n) % size),
                flags: with_flag(m.flags, "ZERO"@, nat_and(r, n) == 0),
                ..m
            }
            &&& op == Some(Mnemonic::Or) ==> after == Machine {
                registers: m.registers.insert(reg, nat_or(r, n) % size),
                flags: with_flag(m.flags, "ZERO"@, nat_or(r, n) == 0),
                ..m
            }
            &&& op == Some(Mnemonic::Xor) ==> after == Machine {
                registers: m.registers.insert(reg, nat_xor(r, n) % size),
                flags: with_flag(m.flags, "ZERO"@, nat_xor(r, n) == 0),
                ..m
            }
            &&& op == Some(Mnemonic::Shl) ==> after == Machine {
                registers: m.registers.insert(reg, (r * pow2(c)) % size),
                ..m
            }
            &&& op == Some(Mnemonic::Shr) ==> after == Machine {
                registers: m.registers.insert(reg, (r / pow2(c)) % size),
                ..m
            }
            &&& op == Some(Mnemonic::Load) && c < m.memory.len() ==> after == Machine {
                registers: m.registers.insert(reg, m.memory[c as int]),
                ..m
            }
            &&& op == Some(Mnemonic::Load) && c >= m.memory.len() ==> after == m
            &&& op == Some(Mnemonic::Store) && c < m.memory.len() ==> after == Machine {
                memory: m.memory.update(c as int, r % size),
                ..m
            }
            &&& op == Some(Mnemonic::Store) && c >= m.memory.len() ==> after == m
            &&& (op == Some(Mnemonic::Add) || op == Some(Mnemonic::Sub) || op == Some(Mnemonic::Mul)
                || op == Some(Mnemonic::Div) || op == Some(Mnemonic::And) || op == Some(Mnemonic::Or)
                || op == Some(Mnemonic::Xor) || op == Some(Mnemonic::Shl) || op == Some(Mnemonic::Shr)
                || op == Some(Mnemonic::Load) || op == Some(Mnemonic::Store)) ==> line_step(m, w, line).1
                == LineAction::Continue
        }),
{
    let p = words(line);
    let r = m.registers[p[1]];
    let n = numeral_or_zero(p[2]);
    let c = count_or_zero(p[2]);
    lemma_pow2_pos(c);
    if n != 0 {
        vstd::arithmetic::div_mod::lemma_div_is_ordered_by_denominator(r as int, 1, n as int);
        if r < n {
            vstd::arithmetic::div_mod::lemma_basic_div(r as int, n as int);
        } else {
            vstd::arithmetic::div_mod::lemma_div_pos_is_pos(r as int, n as int);
            assert(r / n >= 1) by {
                vstd::arithmetic::div_mod::lemma_div_is_ordered(n as int, r as int, n as int);
                vstd::arithmetic::div_mod::lemma_div_by_self(n as int);
            }
        }
    }
    assert(r * n == 0 <==> (r == 0 || n == 0)) by (nonlinear_arith);
}

} // verus!
