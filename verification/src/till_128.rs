//! A machine of 32, 64 or 128 bits over `u128` registers, with flags and a
//! word-addressed memory, driven by one text instruction at a time.
use vstd::prelude::*;
use vstd::arithmetic::power2::*;
use crate::bits::{lemma_mod_pow2_mod_pow2, lemma_pow2_widths, lemma_u128_masks, lemma_u128_shl_mod};
use crate::named_map::NamedMap;
use crate::text::{
    decimal, digit_of, law_decimal_reads_back, chars_of, lemma_numbered_step, mnemonic_of, numbered, register_name_string,
    result_text, trim_commas, u128_literal, u128_literal_at, words, Mnemonic, WordList,
};

verus! {

/// The widths the machine can have.
#[derive(Clone, Copy, Debug, PartialEq, Eq, Structural)]
pub enum CpuWidth {
    Bit32,
    Bit64,
    Bit128,
}

/// The number of bits of a width.
pub open spec fn width_bits(w: CpuWidth) -> nat {
    match w {
        CpuWidth::Bit32 => 32,
        CpuWidth::Bit64 => 64,
        CpuWidth::Bit128 => 128,
    }
}

/// `v` reduced to the low bits of width `w`.
pub open spec fn wrap_to(v: int, w: CpuWidth) -> u128 {
    (v % (pow2(width_bits(w)) as int)) as u128
}

/// The state of a machine: registers and flags by name, and memory.
pub struct Machine {
    pub registers: Map<Seq<char>, u128>,
    pub flags: Map<Seq<char>, bool>,
    pub memory: Seq<u128>,
}

/// `flags` with `name` set to `v`, when `name` is one of them.
pub open spec fn with_flag(flags: Map<Seq<char>, bool>, name: Seq<char>, v: bool) -> Map<Seq<char>, bool> {
    if flags.dom().contains(name) {
        flags.insert(name, v)
    } else {
        flags
    }
}

/// The flags a new machine has, all clear.
pub open spec fn initial_flags() -> Map<Seq<char>, bool> {
    Map::empty().insert("ZERO"@, false).insert("CARRY"@, false).insert("OVERFLOW"@, false).insert(
        "SIGN"@,
        false,
    )
}

/// The memory address that a number stands for: its low `usize` bits.
pub open spec fn address_of(v: u128) -> int {
    v as int % (usize::MAX as int + 1)
}

/// What an operand stands for: the register it names when it starts with `R`,
/// a hexadecimal literal after `0x`, else a decimal literal.
pub open spec fn operand_value(regs: Map<Seq<char>, u128>, op: Seq<char>) -> Result<u128, Seq<char>> {
    if op.len() > 0 && op[0] == 'R' {
        if regs.dom().contains(op) {
            Ok(regs[op])
        } else {
            Err("Register "@ + op + " not found"@)
        }
    } else if op.len() >= 2 && op[0] == '0' && op[1] == 'x' {
        match u128_literal(op.subrange(2, op.len() as int), 16) {
            Some(v) => Ok(v),
            None => Err("Invalid hex"@),
        }
    } else {
        match u128_literal(op, 10) {
            Some(v) => Ok(v),
            None => Err("Invalid number"@),
        }
    }
}

/// The instructions of this machine that take a register and an operand.
pub open spec fn takes_operand(m: Mnemonic) -> bool {
    match m {
        Mnemonic::Not | Mnemonic::Exit | Mnemonic::State => false,
        _ => true,
    }
}

/// The instruction `s` cannot be carried out: a missing operand, a read of a
/// register that does not exist, or a shift by 128 bits or more.
pub open spec fn step_fails_hard(m: Machine, s: Seq<char>) -> bool {
    let p = words(s);
    p.len() > 0 && match mnemonic_of(p[0]) {
        Some(Mnemonic::Not) => p.len() < 2 || !m.registers.dom().contains(p[1]),
        Some(op) => takes_operand(op) && (p.len() < 3 || match operand_value(m.registers, p[2]) {
            Err(_) => false,
            Ok(v) => apply_fails_hard(m, op, trim_commas(p[1]), v),
        }),
        None => false,
    }
}

/// A register-and-operand instruction cannot be carried out: it reads a
/// register that does not exist, or shifts by 128 bits or more.
pub open spec fn apply_fails_hard(m: Machine, op: Mnemonic, reg: Seq<char>, v: u128) -> bool {
    let known = m.registers.dom().contains(reg);
    match op {
        Mnemonic::Mov | Mnemonic::Load => false,
        Mnemonic::Div => v != 0 && !known,
        Mnemonic::Store => address_of(v) < m.memory.len() && !known,
        Mnemonic::Shl | Mnemonic::Shr => !known || v >= 128,
        _ => !known,
    }
}

/// The machine after a register-and-operand instruction `op` on register `reg`
/// with operand value `v`, or the error it reports.
pub open spec fn apply(m: Machine, w: CpuWidth, op: Mnemonic, reg: Seq<char>, v: u128) -> Result<
    Machine,
    Seq<char>,
> {
    let r = m.registers[reg];
    let set = |x: u128| Machine { registers: m.registers.insert(reg, x), ..m };
    match op {
        Mnemonic::Mov => Ok(set(wrap_to(v as int, w))),
        Mnemonic::Add => {
            let sum = (r + v) % (pow2(128) as int);
            Ok(
                Machine {
                    registers: m.registers.insert(reg, wrap_to(sum, w)),
                    flags: with_flag(
                        with_flag(m.flags, "CARRY"@, r + v > u128::MAX),
                        "ZERO"@,
                        sum == 0,
                    ),
                    memory: m.memory,
                },
            )
        },
        Mnemonic::Sub => {
            let diff = (r - v) % (pow2(128) as int);
            Ok(
                Machine {
                    registers: m.registers.insert(reg, wrap_to(diff, w)),
                    flags: with_flag(with_flag(m.flags, "CARRY"@, r < v), "ZERO"@, diff == 0),
                    memory: m.memory,
                },
            )
        },
        Mnemonic::Mul => Ok(set(wrap_to(r * v, w))),
        Mnemonic::Div => if v == 0 {
            Err("Division by zero"@)
        } else {
            Ok(set(wrap_to(r as int / v as int, w)))
        },
        Mnemonic::And => Ok(set(wrap_to((r & v) as int, w))),
        Mnemonic::Or => Ok(set(wrap_to((r | v) as int, w))),
        Mnemonic::Xor => Ok(set(wrap_to((r ^ v) as int, w))),
        Mnemonic::Shl => Ok(set(wrap_to(r * pow2(v as nat), w))),
        Mnemonic::Shr => Ok(set(wrap_to(r as int / pow2(v as nat) as int, w))),
        Mnemonic::Load => {
            let a = address_of(v);
            Ok(set(if a < m.memory.len() { m.memory[a] } else { 0 }))
        },
        _ => {
            let a = address_of(v);
            if a >= m.memory.len() {
                Err("Memory out of bounds"@)
            } else {
                Ok(Machine { memory: m.memory.update(a, r), ..m })
            }
        },
    }
}

/// The machine after the instruction `s`, or the error it reports.
pub open spec fn step(m: Machine, w: CpuWidth, s: Seq<char>) -> Result<Machine, Seq<char>> {
    let p = words(s);
    if p.len() == 0 {
        Err("Empty instruction"@)
    } else {
        match mnemonic_of(p[0]) {
            Some(Mnemonic::Not) => Ok(
                Machine {
                    registers: m.registers.insert(
                        p[1],
                        wrap_to(u128::MAX - m.registers[p[1]], w),
                    ),
                    ..m
                },
            ),
            Some(op) => if takes_operand(op) {
                match operand_value(m.registers, p[2]) {
                    Err(e) => Err(e),
                    Ok(v) => apply(m, w, op, trim_commas(p[1]), v),
                }
            } else {
                Err("Unknown instruction: "@ + p[0])
            },
            None => Err("Unknown instruction: "@ + p[0]),
        }
    }
}

/// A machine with `u128` registers kept to the bits of its width.
#[derive(Debug)]
pub struct CPU {
    registers: NamedMap<u128>,
    bits: CpuWidth,
    flags: NamedMap<bool>,
    memory: Vec<u128>,
}

impl CPU {
    /// The registers, flags and memory.
    pub closed spec fn state(&self) -> Machine {
        Machine { registers: self.registers@, flags: self.flags@, memory: self.memory@ }
    }

    /// The width of the machine.
    pub closed spec fn width(&self) -> CpuWidth {
        self.bits
    }

    /// Every register and memory word holds a value of the machine's width.
    pub closed spec fn wf(&self) -> bool {
        &&& self.registers.wf()
        &&& self.flags.wf()
        &&& forall|k: Seq<char>| #[trigger]
            self.registers@.dom().contains(k) ==> self.registers@[k] < pow2(width_bits(self.bits))
        &&& forall|i: int| 0 <= i < self.memory@.len() ==> #[trigger] self.memory@[i] < pow2(width_bits(self.bits))
        &&& self.flags@.dom() == initial_flags().dom()
        &&& self.memory@.len() <= usize::MAX
    }

    /// What a well-formed machine guarantees: its registers and memory fit its
    /// width, its flags are `ZERO`, `CARRY`, `OVERFLOW` and `SIGN`, and its
    /// memory has at most `usize::MAX` words.
    pub proof fn lemma_wf(&self)
        requires
            self.wf(),
        ensures
            fits(self.state(), self.width()),
            self.state().flags.dom() == initial_flags().dom(),
            self.state().memory.len() <= usize::MAX,
    {
    }

    /// A machine of width `bits` with registers `R1`..`R{reg_count}` and
    /// `mem_size` words of memory, all zero, and its flags clear.
    pub fn new(bits: CpuWidth, reg_count: usize, mem_size: usize) -> (cpu: CPU)
        ensures
            cpu.wf(),
            cpu.width() == bits,
            cpu.state().registers == numbered(1, reg_count + 1, 0u128),
            cpu.state().flags == initial_flags(),
            cpu.state().memory == Seq::new(mem_size as nat, |i: int| 0u128),
    {
        let mut registers: NamedMap<u128> = NamedMap::new();
        let mut k: usize = 0;
        while k < reg_count
            invariant
                k <= reg_count,
                registers.wf(),
                registers@ == numbered(1, k + 1, 0u128),
            decreases reg_count - k,
        {
            let name = register_name_string(k + 1);
            proof {
                lemma_numbered_step(1, k + 1, 0u128);
            }
            registers.insert(name.as_str(), 0);
            k = k + 1;
        }
        let mut flags: NamedMap<bool> = NamedMap::new();
        flags.insert("ZERO", false);
        flags.insert("CARRY", false);
        flags.insert("OVERFLOW", false);
        flags.insert("SIGN", false);
        let mut memory: Vec<u128> = Vec::new();
        let mut j: usize = 0;
        while j < mem_size
            invariant
                j <= mem_size,
                memory@ == Seq::new(j as nat, |i: int| 0u128),
            decreases mem_size - j,
        {
            memory.push(0);
            j = j + 1;
            assert(memory@ =~= Seq::new(j as nat, |i: int| 0u128));
        }
        proof {
            lemma_pow2_pos(width_bits(bits));
        }
        CPU { registers, bits, flags, memory }
    }

    /// The mask of the machine's width: `2^width - 1`.
    pub fn mask(&self) -> (m: u128)
        ensures
            m == pow2(width_bits(self.width())) - 1,
    {
        proof {
            lemma_pow2_widths();
            assert((1u128 << 32u128) == 0x1_0000_0000) by (bit_vector);
            assert((1u128 << 64u128) == 0x1_0000_0000_0000_0000) by (bit_vector);
        }
        match self.bits {
            CpuWidth::Bit32 => (1u128 << 32u128) - 1,
            CpuWidth::Bit64 => (1u128 << 64u128) - 1,
            CpuWidth::Bit128 => u128::MAX,
        }
    }

    /// `value` cut to the machine's width.
    pub fn to_masked(&self, value: u128) -> (r: u128)
        ensures
            r == wrap_to(value as int, self.width()),
            r < pow2(width_bits(self.width())),
    {
        proof {
            lemma_u128_masks(value);
            lemma_pow2_widths();
            lemma_pow2_pos(width_bits(self.bits));
            assert((1u128 << 32u128) == 0x1_0000_0000) by (bit_vector);
            assert((1u128 << 64u128) == 0x1_0000_0000_0000_0000) by (bit_vector);
            vstd::arithmetic::div_mod::lemma_small_mod(value as nat, pow2(128));
        }
        value & self.mask()
    }

    /// Sets the flag `name` to `value`, when the machine has that flag.
    pub fn set_flag(&mut self, name: &str, value: bool)
        requires
            old(self).wf(),
        ensures
            final(self).wf(),
            final(self).width() == old(self).width(),
            final(self).state() == (Machine {
                flags: with_flag(old(self).state().flags, name@, value),
                ..old(self).state()
            }),
    {
        if self.flags.contains(name) {
            self.flags.insert(name, value);
            assert(self.flags@.dom() =~= old(self).flags@.dom());
        }
    }

    /// The value of a register, if the machine has it.
    pub fn get(&self, name: &str) -> (r: Option<u128>)
        requires
            self.wf(),
        ensures
            r == (if self.state().registers.dom().contains(name@) {
                Some(self.state().registers[name@])
            } else {
                None
            }),
    {
        match self.registers.get(name) {
            Some(v) => Some(*v),
            None => None,
        }
    }

    /// The value of a flag, if the machine has it.
    pub fn flag(&self, name: &str) -> (r: Option<bool>)
        requires
            self.wf(),
        ensures
            r == (if self.state().flags.dom().contains(name@) {
                Some(self.state().flags[name@])
            } else {
                None
            }),
    {
        match self.flags.get(name) {
            Some(v) => Some(*v),
            None => None,
        }
    }

    /// The names of the registers, each once.
    pub fn register_names(&self) -> (r: Vec<String>)
        requires
            self.wf(),
        ensures
            forall|i: int, j: int| 0 <= i < j < r@.len() ==> r@[i]@ != r@[j]@,
            forall|k: Seq<char>|
                self.state().registers.dom().contains(k) <==> exists|i: int|
                    0 <= i < r@.len() && r@[i]@ == k,
    {
        self.registers.names()
    }

    /// The names of the flags, each once.
    pub fn flag_names(&self) -> (r: Vec<String>)
        requires
            self.wf(),
        ensures
            forall|i: int, j: int| 0 <= i < j < r@.len() ==> r@[i]@ != r@[j]@,
            forall|k: Seq<char>|
                self.state().flags.dom().contains(k) <==> exists|i: int|
                    0 <= i < r@.len() && r@[i]@ == k,
    {
        self.flags.names()
    }

    /// The word at `addr`, if memory reaches that far.
    pub fn memory_at(&self, addr: usize) -> (r: Option<u128>)
        ensures
            r == (if addr < self.state().memory.len() {
                Some(self.state().memory[addr as int])
            } else {
                None
            }),
    {
        if addr < self.memory.len() {
            Some(self.memory[addr])
        } else {
            None
        }
    }

    /// The width of the machine.
    pub fn bits(&self) -> (w: CpuWidth)
        ensures
            w == self.width(),
    {
        self.bits
    }

    /// What `operand` stands for: a register's value, a hexadecimal literal
    /// after `0x`, or a decimal literal.
    pub fn get_value(&self, operand: &str) -> (r: Result<u128, String>)
        requires
            self.wf(),
        ensures
            result_text(r) == operand_value(self.state().registers, operand@),
    {
        let cs = chars_of(operand);
        if cs.len() > 0 && cs[0] == 'R' {
            match self.registers.get(operand) {
                Some(v) => Ok(*v),
                None => {
                    let mut msg = String::from_str("Register ");
                    msg.append(operand);
                    msg.append(" not found");
                    Err(msg)
                },
            }
        } else if cs.len() >= 2 && cs[0] == '0' && cs[1] == 'x' {
            match u128_literal_at(&cs, 2, cs.len(), 16) {
                Some(v) => Ok(v),
                None => Err(String::from_str("Invalid hex")),
            }
        } else {
            proof {
                assert(cs@.subrange(0, cs@.len() as int) =~= operand@);
            }
            match u128_literal_at(&cs, 0, cs.len(), 10) {
                Some(v) => Ok(v),
                None => Err(String::from_str("Invalid number")),
            }
        }
    }

    /// Carries out one instruction: `MOV`, `ADD`, `SUB`, `MUL`, `DIV`, `AND`,
    /// `OR`, `XOR`, `SHL`, `SHR`, `LOAD` or `STORE` with a register and an
    /// operand, or `NOT` with a register; the name is read in any case.
    /// `ADD` and `SUB` set the `CARRY` and `ZERO` flags from the 128-bit
    /// result. An instruction that fails leaves the machine as it was.
    pub fn execute(&mut self, instruction: &str) -> (r: Result<(), String>)
        requires
            old(self).wf(),
            !step_fails_hard(old(self).state(), instruction@),
        ensures
            final(self).wf(),
            final(self).width() == old(self).width(),
            step(old(self).state(), old(self).width(), instruction@) == (match r {
                Ok(_) => Ok(final(self).state()),
                Err(e) => Err(e@),
            }),
            r is Err ==> final(self).state() == old(self).state(),
            final(self).state() == after_step(old(self).state(), old(self).width(), instruction@),
    {
        let ghost m0 = self.state();
        let ws = WordList::of(instruction);
        if ws.len() == 0 {
            return Err(String::from_str("Empty instruction"));
        }
        let m = ws.mnemonic(0);
        let is_not = match m {
            Some(Mnemonic::Not) => true,
            _ => false,
        };
        if is_not {
            let reg = ws.word(instruction, 1);
            let x: u128 = *self.registers.get(reg).unwrap();
            proof {
                lemma_u128_masks(x);
            }
            let result = self.to_masked(!x);
            self.registers.insert(reg, result);
            proof {
                self.lemma_set_register_keeps_wf(m0, reg@, result);
            }
            return Ok(());
        }
        let operand_op = match m {
            Some(mm) => takes_operand_exec(mm),
            None => false,
        };
        if !operand_op {
            let mut msg = String::from_str("Unknown instruction: ");
            msg.append(ws.word(instruction, 0));
            return Err(msg);
        }
        let mm = m.unwrap();
        let reg = ws.trimmed_word(instruction, 1);
        let operand = ws.word(instruction, 2);
        let val = match self.get_value(operand) {
            Ok(v) => v,
            Err(e) => {
                return Err(e);
            },
        };
        proof {
            lemma_pow2_widths();
        }
        self.apply_operand(mm, reg, val)
    }

    /// Carries out a register-and-operand instruction once its operand is known.
    fn apply_operand(&mut self, mm: Mnemonic, reg: &str, val: u128) -> (r: Result<(), String>)
        requires
            old(self).wf(),
            takes_operand(mm),
            !apply_fails_hard(old(self).state(), mm, reg@, val),
        ensures
            final(self).wf(),
            final(self).width() == old(self).width(),
            apply(old(self).state(), old(self).width(), mm, reg@, val) == (match r {
                Ok(_) => Ok(final(self).state()),
                Err(e) => Err(e@),
            }),
            r is Err ==> final(self).state() == old(self).state(),
    {
        let ghost m0 = self.state();
        proof {
            lemma_pow2_widths();
        }
        match mm {
            Mnemonic::Mov => {
                let result = self.to_masked(val);
                self.registers.insert(reg, result);
                proof {
                    self.lemma_set_register_keeps_wf(m0, reg@, result);
                }
                Ok(())
            },
            Mnemonic::Add => {
                let x: u128 = *self.registers.get(reg).unwrap();
                let res = x.wrapping_add(val);
                let carry = x > u128::MAX - val;
                proof {
                    lemma_wrapping_add(x, val);
                }
                self.set_flag("CARRY", carry);
                self.set_flag("ZERO", res == 0);
                let ghost m1 = self.state();
                let result = self.to_masked(res);
                self.registers.insert(reg, result);
                proof {
                    self.lemma_set_register_keeps_wf(m1, reg@, result);
                }
                Ok(())
            },
            Mnemonic::Sub => {
                let x: u128 = *self.registers.get(reg).unwrap();
                let res = x.wrapping_sub(val);
                let borrow = x < val;
                proof {
                    lemma_wrapping_sub(x, val);
                }
                self.set_flag("CARRY", borrow);
                self.set_flag("ZERO", res == 0);
                let ghost m1 = self.state();
                let result = self.to_masked(res);
                self.registers.insert(reg, result);
                proof {
                    self.lemma_set_register_keeps_wf(m1, reg@, result);
                }
                Ok(())
            },
            Mnemonic::Div => {
                if val == 0 {
                    return Err(String::from_str("Division by zero"));
                }
                let x: u128 = *self.registers.get(reg).unwrap();
                let result = self.to_masked(x / val);
                self.registers.insert(reg, result);
                proof {
                    self.lemma_set_register_keeps_wf(m0, reg@, result);
                }
                Ok(())
            },
            Mnemonic::Load => {
                let addr = (val % ((usize::MAX as u128) + 1)) as usize;
                let loaded: u128 = if addr < self.memory.len() {
                    self.memory[addr]
                } else {
                    0
                };
                self.registers.insert(reg, loaded);
                proof {
                    lemma_pow2_pos(width_bits(self.bits));
                    self.lemma_set_register_keeps_wf(m0, reg@, loaded);
                }
                Ok(())
            },
            Mnemonic::Store => {
                let addr = (val % ((usize::MAX as u128) + 1)) as usize;
                if addr >= self.memory.len() {
                    return Err(String::from_str("Memory out of bounds"));
                }
                let x: u128 = *self.registers.get(reg).unwrap();
                self.memory.set(addr, x);
                proof {
                    assert forall|i: int| 0 <= i < self.memory@.len() implies #[trigger] self.memory@[i]
                        < pow2(width_bits(self.bits)) by {
                        if i != addr {
                            assert(self.memory@[i] == m0.memory[i]);
                        }
                    }
                }
                Ok(())
            },
            _ => {
                let x: u128 = *self.registers.get(reg).unwrap();
                let raw = alu(mm, x, val);
                let result = self.to_masked(raw);
                self.registers.insert(reg, result);
                proof {
                    self.lemma_set_register_keeps_wf(m0, reg@, result);
                }
                Ok(())
            },
        }
    }

    /// Whether the instruction `s` cannot be carried out (see `step_fails_hard`).
    pub fn fails_hard(&self, instruction: &str) -> (b: bool)
        requires
            self.wf(),
        ensures
            b == step_fails_hard(self.state(), instruction@),
    {
        let ws = WordList::of(instruction);
        if ws.len() == 0 {
            return false;
        }
        let mm = match ws.mnemonic(0) {
            Some(mm) => mm,
            None => {
                return false;
            },
        };
        if mm == Mnemonic::Not {
            if ws.len() < 2 {
                return true;
            }
            return self.get(ws.word(instruction, 1)).is_none();
        }
        if !takes_operand_exec(mm) {
            return false;
        }
        if ws.len() < 3 {
            return true;
        }
        let val = match self.get_value(ws.word(instruction, 2)) {
            Ok(v) => v,
            Err(_) => {
                return false;
            },
        };
        let known = self.get(ws.trimmed_word(instruction, 1)).is_some();
        match mm {
            Mnemonic::Mov | Mnemonic::Load => false,
            Mnemonic::Div => val != 0 && !known,
            Mnemonic::Store => {
                let addr = (val % ((usize::MAX as u128) + 1)) as usize;
                addr < self.memory.len() && !known
            },
            Mnemonic::Shl | Mnemonic::Shr => !known || val >= 128,
            _ => !known,
        }
    }

    proof fn lemma_set_register_keeps_wf(&self, before: Machine, k: Seq<char>, v: u128)
        requires
            self.registers.wf(),
            self.flags.wf(),
            self.registers@ == before.registers.insert(k, v),
            self.memory@ == before.memory,
            self.flags@.dom() == initial_flags().dom(),
            before.memory.len() <= usize::MAX,
            v < pow2(width_bits(self.bits)),
            forall|j: Seq<char>| #[trigger]
                before.registers.dom().contains(j) ==> before.registers[j] < pow2(
                    width_bits(self.bits),
                ),
            forall|i: int| 0 <= i < before.memory.len() ==> #[trigger] before.memory[i] < pow2(
                width_bits(self.bits),
            ),
        ensures
            self.wf(),
    {
        assert forall|j: Seq<char>| #[trigger] self.registers@.dom().contains(j) implies self.registers@[j]
            < pow2(width_bits(self.bits)) by {
            if j != k {
                assert(before.registers.dom().contains(j));
            }
        }
    }
}

/// `wrapping_add` is the sum modulo `2^128`.
proof fn lemma_wrapping_add(x: u128, y: u128)
    ensures
        x.wrapping_add(y) as int == (x + y) % (pow2(128) as int),
{
    lemma_pow2_widths();
    if x + y > u128::MAX {
        vstd::arithmetic::div_mod::lemma_mod_add_multiples_vanish((x + y - pow2(128)) as int, pow2(128) as int);
        vstd::arithmetic::div_mod::lemma_small_mod((x + y - pow2(128)) as nat, pow2(128));
    } else {
        vstd::arithmetic::div_mod::lemma_small_mod((x + y) as nat, pow2(128));
    }
}

/// `wrapping_sub` is the difference modulo `2^128`.
proof fn lemma_wrapping_sub(x: u128, y: u128)
    ensures
        x.wrapping_sub(y) as int == (x - y) % (pow2(128) as int),
{
    lemma_pow2_widths();
    if x >= y {
        vstd::arithmetic::div_mod::lemma_small_mod((x - y) as nat, pow2(128));
    } else {
        vstd::arithmetic::div_mod::lemma_mod_add_multiples_vanish((x - y) as int, pow2(128) as int);
        vstd::arithmetic::div_mod::lemma_small_mod((x - y + pow2(128)) as nat, pow2(128));
    }
}

/// Decides `takes_operand`.
fn takes_operand_exec(m: Mnemonic) -> (b: bool)
    ensures
        b == takes_operand(m),
{
    match m {
        Mnemonic::Not | Mnemonic::Exit | Mnemonic::State => false,
        _ => true,
    }
}

/// The 128-bit result of `MUL`, `AND`, `OR`, `XOR`, `SHL` or `SHR`; it agrees
/// with `apply` in every width.
fn alu(m: Mnemonic, x: u128, v: u128) -> (r: u128)
    requires
        m == Mnemonic::Mul || m == Mnemonic::And || m == Mnemonic::Or || m == Mnemonic::Xor
            || m == Mnemonic::Shl || m == Mnemonic::Shr,
        (m == Mnemonic::Shl || m == Mnemonic::Shr) ==> v < 128,
    ensures
        forall|w: CpuWidth|
            #![trigger wrap_to(r as int, w)]
            wrap_to(r as int, w) == (match m {
                Mnemonic::Mul => wrap_to(x * v, w),
                Mnemonic::And => wrap_to((x & v) as int, w),
                Mnemonic::Or => wrap_to((x | v) as int, w),
                Mnemonic::Xor => wrap_to((x ^ v) as int, w),
                Mnemonic::Shl => wrap_to(x * pow2(v as nat), w),
                _ => wrap_to(x as int / pow2(v as nat) as int, w),
            }),
{
    proof {
        lemma_pow2_widths();
    }
    match m {
        Mnemonic::Mul => {
            let r = x.wrapping_mul(v);
            proof {
                assert forall|w: CpuWidth| #![trigger wrap_to(r as int, w)] wrap_to(r as int, w) == wrap_to(x * v, w) by {
                    lemma_mod_pow2_mod_pow2(x * v, width_bits(w), 128);
                }
            }
            r
        },
        Mnemonic::And => x & v,
        Mnemonic::Or => x | v,
        Mnemonic::Xor => x ^ v,
        Mnemonic::Shl => {
            proof {
                lemma_u128_shl_mod(x, v);
                assert forall|w: CpuWidth| #![trigger wrap_to((x << v) as int, w)] wrap_to((x << v) as int, w) == wrap_to(x * pow2(v as nat), w) by {
                    lemma_mod_pow2_mod_pow2(x * pow2(v as nat), width_bits(w), 128);
                }
            }
            x << v
        },
        _ => {
            proof {
                vstd::bits::lemma_u128_shr_is_div(x, v);
            }
            x >> v
        },
    }
}

// ---------------------------------------------------------------------
// Laws
// ---------------------------------------------------------------------

/// Every register and memory word of the machine fits the width.
pub open spec fn fits(m: Machine, w: CpuWidth) -> bool {
    &&& forall|k: Seq<char>| #[trigger] m.registers.dom().contains(k) ==> m.registers[k] < pow2(width_bits(w))
    &&& forall|i: int| 0 <= i < m.memory.len() ==> #[trigger] m.memory[i] < pow2(width_bits(w))
}

/// Cutting to the width gives a value that fits it, and leaves a value that
/// already fits unchanged.
pub proof fn law_wrap_fits(v: int, w: CpuWidth)
    requires
        v >= 0,
    ensures
        wrap_to(v, w) < pow2(width_bits(w)),
        wrap_to(v, w) as int == v % (pow2(width_bits(w)) as int),
        wrap_to(wrap_to(v, w) as int, w) == wrap_to(v, w),
        v < pow2(width_bits(w)) ==> wrap_to(v, w) == v,
{
    let m = pow2(width_bits(w));
    lemma_pow2_pos(width_bits(w));
    lemma_pow2_widths();
    vstd::arithmetic::div_mod::lemma_mod_bound(v, m as int);
    vstd::arithmetic::div_mod::lemma_small_mod((v % (m as int)) as nat, m);
    if v < m {
        vstd::arithmetic::div_mod::lemma_small_mod(v as nat, m);
    }
}

/// An instruction that succeeds keeps every register and memory word within
/// the width.
pub proof fn law_step_keeps_width(m: Machine, w: CpuWidth, s: Seq<char>)
    requires
        fits(m, w),
        !step_fails_hard(m, s),
        step(m, w, s) is Ok,
    ensures
        fits(step(m, w, s)->Ok_0, w),
{
    let after = step(m, w, s)->Ok_0;
    let p = words(s);
    lemma_pow2_pos(width_bits(w));
    lemma_pow2_widths();
    assert forall|k: Seq<char>| #[trigger] after.registers.dom().contains(k) implies after.registers[k]
        < pow2(width_bits(w)) by {
        if !m.registers.dom().contains(k) || after.registers[k] != m.registers[k] {
            match mnemonic_of(p[0]) {
                Some(Mnemonic::Not) => {
                    law_wrap_fits(u128::MAX - m.registers[p[1]], w);
                },
                Some(op) => {
                    let v = operand_value(m.registers, p[2])->Ok_0;
                    let reg = trim_commas(p[1]);
                    let r = m.registers[reg];
                    match op {
                        Mnemonic::Mov => law_wrap_fits(v as int, w),
                        Mnemonic::Add => law_wrap_fits((r + v) % (pow2(128) as int), w),
                        Mnemonic::Sub => {
                            vstd::arithmetic::div_mod::lemma_mod_bound(r - v, pow2(128) as int);
                            law_wrap_fits((r - v) % (pow2(128) as int), w);
                        },
                        Mnemonic::Mul => law_wrap_fits(r * v, w),
                        Mnemonic::Div => law_wrap_fits(r as int / v as int, w),
                        Mnemonic::And => law_wrap_fits((r & v) as int, w),
                        Mnemonic::Or => law_wrap_fits((r | v) as int, w),
                        Mnemonic::Xor => law_wrap_fits((r ^ v) as int, w),
                        Mnemonic::Shl => law_wrap_fits(r * pow2(v as nat), w),
                        Mnemonic::Shr => {
                            lemma_pow2_pos(v as nat);
                            law_wrap_fits(r as int / pow2(v as nat) as int, w);
                        },
                        _ => {},
                    }
                },
                None => {},
            }
        }
    }
    assert forall|i: int| 0 <= i < after.memory.len() implies #[trigger] after.memory[i] < pow2(
        width_bits(w),
    ) by {
        if after.memory != m.memory {
            let op = mnemonic_of(p[0]).unwrap();
            let v = operand_value(m.registers, p[2])->Ok_0;
            let reg = trim_commas(p[1]);
            assert(op == Mnemonic::Store);
            assert(m.registers.dom().contains(reg));
            if i != address_of(v) {
                assert(after.memory[i] == m.memory[i]);
            }
        }
    }
}

/// A register stored at an address inside memory and loaded back from it,
/// into any register, gives the stored register's value; neither instruction
/// touches the flags, and `STORE` touches no register.
pub proof fn law_store_then_load(
    m: Machine,
    w: CpuWidth,
    reg: Seq<char>,
    dest: Seq<char>,
    addr: u128,
)
    requires
        addr < m.memory.len() <= usize::MAX,
        m.registers.dom().contains(reg),
    ensures
        apply(m, w, Mnemonic::Store, reg, addr) is Ok,
        apply(m, w, Mnemonic::Store, reg, addr)->Ok_0.memory[addr as int] == m.registers[reg],
        apply(m, w, Mnemonic::Store, reg, addr)->Ok_0.registers == m.registers,
        apply(m, w, Mnemonic::Store, reg, addr)->Ok_0.flags == m.flags,
        apply(apply(m, w, Mnemonic::Store, reg, addr)->Ok_0, w, Mnemonic::Load, dest, addr)
            is Ok,
        apply(
            apply(m, w, Mnemonic::Store, reg, addr)->Ok_0,
            w,
            Mnemonic::Load,
            dest,
            addr,
        )->Ok_0.registers == m.registers.insert(dest, m.registers[reg]),
        apply(
            apply(m, w, Mnemonic::Store, reg, addr)->Ok_0,
            w,
            Mnemonic::Load,
            dest,
            addr,
        )->Ok_0.flags == m.flags,
{
    vstd::arithmetic::div_mod::lemma_small_mod(addr as nat, (usize::MAX + 1) as nat);
    assert(address_of(addr) == addr);
}

/// A register-and-operand instruction is `apply` on its register, with its
/// trailing commas trimmed, and the value of its operand.
pub proof fn law_step_is_apply(m: Machine, w: CpuWidth, s: Seq<char>, op: Mnemonic, v: u128)
    requires
        words(s).len() >= 3,
        mnemonic_of(words(s)[0]) == Some(op),
        takes_operand(op),
        operand_value(m.registers, words(s)[2]) == Ok::<u128, Seq<char>>(v),
    ensures
        step(m, w, s) == apply(m, w, op, trim_commas(words(s)[1]), v),
{
}

/// `NOT` applied twice gives back a value that fits the width.
pub proof fn law_not_twice(r: u128, w: CpuWidth)
    requires
        r < pow2(width_bits(w)),
    ensures
        wrap_to(u128::MAX - wrap_to(u128::MAX - r, w), w) == r,
{
    let m = pow2(width_bits(w)) as int;
    lemma_pow2_pos(width_bits(w));
    lemma_pow2_widths();
    // u128::MAX - x == (2^128 - m) + (m - 1 - x), and m divides 2^128.
    lemma_pow2_adds(width_bits(w), (128 - width_bits(w)) as nat);
    let k = pow2((128 - width_bits(w)) as nat) as int - 1;
    assert(pow2(128) as int - m == m * k) by (nonlinear_arith)
        requires
            pow2(128) as int == m * pow2((128 - width_bits(w)) as nat) as int,
            k == pow2((128 - width_bits(w)) as nat) as int - 1,
    ;
    vstd::arithmetic::div_mod::lemma_mod_multiples_vanish(k, m - 1 - r, m);
    vstd::arithmetic::div_mod::lemma_small_mod((m - 1 - r) as nat, m as nat);
    assert(u128::MAX - r == m * k + (m - 1 - r));
    let n1 = wrap_to(u128::MAX - r, w);
    assert(n1 == m - 1 - r);
    vstd::arithmetic::div_mod::lemma_mod_multiples_vanish(k, r as int, m);
    vstd::arithmetic::div_mod::lemma_small_mod(r as nat, m as nat);
    assert(u128::MAX - n1 == m * k + r);
}

/// A register written by `MOV` holds the operand cut to the width.
pub proof fn law_mov_reads_back(m: Machine, w: CpuWidth, reg: Seq<char>, v: u128)
    ensures
        apply(m, w, Mnemonic::Mov, reg, v) is Ok,
        apply(m, w, Mnemonic::Mov, reg, v)->Ok_0.registers[reg] == wrap_to(v as int, w),
        apply(m, w, Mnemonic::Mov, reg, v)->Ok_0.flags == m.flags,
        apply(m, w, Mnemonic::Mov, reg, v)->Ok_0.memory == m.memory,
{
}

/// An instruction that succeeds keeps the memory's length and the flags'
/// names, and removes no register.
pub proof fn law_step_keeps_shape(m: Machine, w: CpuWidth, s: Seq<char>)
    requires
        step(m, w, s) is Ok,
    ensures
        step(m, w, s)->Ok_0.memory.len() == m.memory.len(),
        step(m, w, s)->Ok_0.flags.dom() == m.flags.dom(),
        m.registers.dom().subset_of(step(m, w, s)->Ok_0.registers.dom()),
{
    let after = step(m, w, s)->Ok_0;
    assert(after.flags.dom() =~= m.flags.dom());
}

/// The machine after the instruction `s`: what `step` gives, or the same
/// machine when the instruction reports an error.
pub open spec fn after_step(m: Machine, w: CpuWidth, s: Seq<char>) -> Machine {
    match step(m, w, s) {
        Ok(n) => n,
        Err(_) => m,
    }
}

/// The machine after the instructions of `prog`, one after another.
pub open spec fn run(m: Machine, w: CpuWidth, prog: Seq<Seq<char>>) -> Machine
    decreases prog.len(),
{
    if prog.len() == 0 {
        m
    } else {
        after_step(run(m, w, prog.drop_last()), w, prog.last())
    }
}

/// No instruction of `prog` fails hard where it is carried out.
pub open spec fn run_completes(m: Machine, w: CpuWidth, prog: Seq<Seq<char>>) -> bool
    decreases prog.len(),
{
    prog.len() == 0 || (run_completes(m, w, prog.drop_last()) && !step_fails_hard(
        run(m, w, prog.drop_last()),
        prog.last(),
    ))
}

/// Running one more instruction is one more step.
pub proof fn law_run_one_more(m: Machine, w: CpuWidth, prog: Seq<Seq<char>>, s: Seq<char>)
    ensures
        run(m, w, prog.push(s)) == after_step(run(m, w, prog), w, s),
        run_completes(m, w, prog.push(s)) == (run_completes(m, w, prog) && !step_fails_hard(
            run(m, w, prog),
            s,
        )),
{
    assert(prog.push(s).drop_last() =~= prog);
}

/// Whatever instructions a machine runs to completion, its registers and
/// memory keep fitting its width, its memory keeps its length, its flags keep
/// their names, and no register disappears.
pub proof fn law_run_keeps_width(m: Machine, w: CpuWidth, prog: Seq<Seq<char>>)
    requires
        fits(m, w),
        run_completes(m, w, prog),
    ensures
        fits(run(m, w, prog), w),
        run(m, w, prog).memory.len() == m.memory.len(),
        run(m, w, prog).flags.dom() == m.flags.dom(),
        m.registers.dom().subset_of(run(m, w, prog).registers.dom()),
    decreases prog.len(),
{
    if prog.len() > 0 {
        let before = run(m, w, prog.drop_last());
        law_run_keeps_width(m, w, prog.drop_last());
        if step(before, w, prog.last()) is Ok {
            law_step_keeps_width(before, w, prog.last());
            law_step_keeps_shape(before, w, prog.last());
        }
    }
}


/// `m` with register `reg` holding `x`, nothing else changed.
pub open spec fn with_register(m: Machine, reg: Seq<char>, x: u128) -> Machine {
    Machine { registers: m.registers.insert(reg, x), flags: m.flags, memory: m.memory }
}

/// What the register-and-operand instructions other than `ADD`, `SUB`,
/// `LOAD` and `STORE` do to a register `r` that exists, with an operand of
/// value `v`: `MOV` stores `v`; `MUL` the product wrapped at 128 bits; `DIV`
/// reports division by zero or stores the `u128` quotient; `AND`, `OR`, `XOR`
/// store `r & v`, `r | v`, `r ^ v`; `SHL` and `SHR` store `r << v` and
/// `r >> v`. Every result is cut to the width; flags, memory and the other
/// registers stay as they were.
pub proof fn law_register_operations(m: Machine, w: CpuWidth, reg: Seq<char>, v: u128)
    requires
        m.registers.dom().contains(reg),
    ensures
        apply(m, w, Mnemonic::Mov, reg, v) == Ok::<Machine, Seq<char>>(
            with_register(m, reg, wrap_to(v as int, w)),
        ),
        apply(m, w, Mnemonic::Mul, reg, v) == Ok::<Machine, Seq<char>>(
            with_register(m, reg, wrap_to((m.registers[reg] * v) % (pow2(128) as int), w)),
        ),
        v == 0 ==> apply(m, w, Mnemonic::Div, reg, v) == Err::<Machine, Seq<char>>(
            "Division by zero"@,
        ),
        v != 0 ==> apply(m, w, Mnemonic::Div, reg, v) == Ok::<Machine, Seq<char>>(
            with_register(m, reg, wrap_to((m.registers[reg] / v) as int, w)),
        ),
        apply(m, w, Mnemonic::And, reg, v) == Ok::<Machine, Seq<char>>(
            with_register(m, reg, wrap_to((m.registers[reg] & v) as int, w)),
        ),
        apply(m, w, Mnemonic::Or, reg, v) == Ok::<Machine, Seq<char>>(
            with_register(m, reg, wrap_to((m.registers[reg] | v) as int, w)),
        ),
        apply(m, w, Mnemonic::Xor, reg, v) == Ok::<Machine, Seq<char>>(
            with_register(m, reg, wrap_to((m.registers[reg] ^ v) as int, w)),
        ),
        v < 128 ==> apply(m, w, Mnemonic::Shl, reg, v) == Ok::<Machine, Seq<char>>(
            with_register(m, reg, wrap_to((m.registers[reg] << v) as int, w)),
        ),
        v < 128 ==> apply(m, w, Mnemonic::Shr, reg, v) == Ok::<Machine, Seq<char>>(
            with_register(m, reg, wrap_to((m.registers[reg] >> v) as int, w)),
        ),
{
    let r = m.registers[reg];
    lemma_pow2_widths();
    assert(width_bits(w) <= 128);
    lemma_mod_pow2_mod_pow2(r * v, width_bits(w), 128);
    if v < 128 {
        lemma_u128_shl_mod(r, v);
        lemma_mod_pow2_mod_pow2(r * pow2(v as nat), width_bits(w), 128);
        vstd::bits::lemma_u128_shr_is_div(r, v);
    }
}

/// `ADD` and `SUB` on a register `r` that exists, with an operand of value
/// `v`: the sum or difference wrapped at 128 bits is cut to the width and
/// stored; `CARRY` tells whether the sum passed `u128::MAX` or the difference
/// went below zero, and `ZERO` whether the wrapped result is zero; memory and
/// the other registers stay as they were.
pub proof fn law_add_sub(m: Machine, w: CpuWidth, reg: Seq<char>, v: u128)
    requires
        m.registers.dom().contains(reg),
    ensures
        ({
            let r = m.registers[reg];
            let carry = r + v > u128::MAX;
            let sum: int = if carry { r + v - pow2(128) } else { r + v };
            apply(m, w, Mnemonic::Add, reg, v) == Ok::<Machine, Seq<char>>(
                Machine {
                    registers: m.registers.insert(reg, wrap_to(sum, w)),
                    flags: with_flag(with_flag(m.flags, "CARRY"@, carry), "ZERO"@, sum == 0),
                    memory: m.memory,
                },
            )
        }),
        ({
            let r = m.registers[reg];
            let borrow = r < v;
            let diff: int = if borrow { r - v + pow2(128) } else { r - v };
            apply(m, w, Mnemonic::Sub, reg, v) == Ok::<Machine, Seq<char>>(
                Machine {
                    registers: m.registers.insert(reg, wrap_to(diff, w)),
                    flags: with_flag(with_flag(m.flags, "CARRY"@, borrow), "ZERO"@, r == v),
                    memory: m.memory,
                },
            )
        }),
{
    let r = m.registers[reg];
    let p = pow2(128) as int;
    lemma_pow2_widths();
    if r + v > u128::MAX {
        vstd::arithmetic::div_mod::lemma_mod_sub_multiples_vanish(r + v, p);
        vstd::arithmetic::div_mod::lemma_small_mod((r + v - p) as nat, p as nat);
    } else {
        vstd::arithmetic::div_mod::lemma_small_mod((r + v) as nat, p as nat);
    }
    if r < v {
        vstd::arithmetic::div_mod::lemma_mod_add_multiples_vanish(r - v, p);
        vstd::arithmetic::div_mod::lemma_small_mod((r - v + p) as nat, p as nat);
    } else {
        vstd::arithmetic::div_mod::lemma_small_mod((r - v) as nat, p as nat);
    }
}

/// `DIV` rounds down: on a register whose value `r` fits the width, the
/// quotient `q` it stores satisfies `q * v <= r < q * v + v`.
pub proof fn law_div_rounds_down(m: Machine, w: CpuWidth, reg: Seq<char>, v: u128)
    requires
        m.registers.dom().contains(reg),
        v != 0,
        m.registers[reg] < pow2(width_bits(w)),
    ensures
        apply(m, w, Mnemonic::Div, reg, v) is Ok,
        ({
            let q = apply(m, w, Mnemonic::Div, reg, v)->Ok_0.registers[reg];
            q * v <= m.registers[reg] < q * v + v
        }),
{
    let r = m.registers[reg];
    let q0: int = r as int / v as int;
    vstd::arithmetic::div_mod::lemma_fundamental_div_mod(r as int, v as int);
    vstd::arithmetic::div_mod::lemma_mod_pos_bound(r as int, v as int);
    vstd::arithmetic::div_mod::lemma_div_is_ordered_by_denominator(r as int, 1, v as int);
    assert(q0 <= r);
    law_wrap_fits(q0, w);
    assert(wrap_to(q0, w) == q0);
    let q = apply(m, w, Mnemonic::Div, reg, v)->Ok_0.registers[reg];
    assert(q == q0);
    assert(q0 * v == v * q0) by (nonlinear_arith);
    assert(q * v <= r < q * v + v);
}

/// `LOAD` and `STORE` at an address `v` that a `usize` holds: `LOAD` stores
/// the word at `v`, or zero past the end of memory, in the register; `STORE`
/// writes register `r` at `v`, or reports that `v` is out of bounds. Nothing
/// else changes.
pub proof fn law_memory_operations(m: Machine, w: CpuWidth, reg: Seq<char>, v: u128)
    requires
        v <= usize::MAX,
    ensures
        apply(m, w, Mnemonic::Load, reg, v) == Ok::<Machine, Seq<char>>(
            with_register(m, reg, if v < m.memory.len() { m.memory[v as int] } else { 0 }),
        ),
        v >= m.memory.len() ==> apply(m, w, Mnemonic::Store, reg, v) == Err::<Machine, Seq<char>>(
            "Memory out of bounds"@,
        ),
        v < m.memory.len() ==> apply(m, w, Mnemonic::Store, reg, v) == Ok::<Machine, Seq<char>>(
            Machine {
                registers: m.registers,
                flags: m.flags,
                memory: m.memory.update(v as int, m.registers[reg]),
            },
        ),
{
    vstd::arithmetic::div_mod::lemma_small_mod(v as nat, (usize::MAX + 1) as nat);
    assert(address_of(v) == v);
}

/// `NOT` on a register that exists stores its bitwise complement, cut to the
/// width; nothing else changes.
pub proof fn law_not_instruction(m: Machine, w: CpuWidth, s: Seq<char>)
    requires
        words(s).len() >= 2,
        mnemonic_of(words(s)[0]) == Some(Mnemonic::Not),
        m.registers.dom().contains(words(s)[1]),
    ensures
        step(m, w, s) == Ok::<Machine, Seq<char>>(
            with_register(m, words(s)[1], wrap_to((!m.registers[words(s)[1]]) as int, w)),
        ),
{
    lemma_u128_masks(m.registers[words(s)[1]]);
}

/// An operand `0x` followed by `h` is the hexadecimal value of `h` whenever
/// `h` reads as a `u128` in base 16, and is refused as invalid hex otherwise.
pub proof fn law_hex_operand(regs: Map<Seq<char>, u128>, h: Seq<char>)
    ensures
        operand_value(regs, seq!['0', 'x'] + h) == match u128_literal(h, 16) {
            Some(v) => Ok::<u128, Seq<char>>(v),
            None => Err::<u128, Seq<char>>("Invalid hex"@),
        },
{
    let t = seq!['0', 'x'] + h;
    assert(t.subrange(2, t.len() as int) =~= h);
}

/// The decimal digits of any `u128` value, as an operand, read back as that
/// value.
pub proof fn law_decimal_operand(regs: Map<Seq<char>, u128>, n: u128)
    ensures
        operand_value(regs, decimal(n as nat)) == Ok::<u128, Seq<char>>(n),
{
    law_decimal_reads_back(n as nat);
    let t = decimal(n as nat);
    assert(digit_of(t[0]) < 10);
    if t.len() >= 2 {
        assert(digit_of(t[1]) < 10);
    }
}

} // verus!
