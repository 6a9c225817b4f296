//! An `i32` register machine of configurable width: eight registers `R1`..`R8`,
//! driven by one text instruction at a time.
use vstd::prelude::*;
use vstd::arithmetic::power2::*;
use crate::bits::{lemma_i32_mask, lemma_i32_not, lemma_i32_one_shl, lemma_i32_shl_mod, lemma_i32_shr_mod};
use crate::named_map::NamedMap;
use crate::text::{
    chars_of, i32_literal, i32_literal_at, lemma_numbered_step, mnemonic_of, numbered, result_text,
    register_name_string, trim_commas, words, Mnemonic, WordList,
};

verus! {

/// Division rounding toward zero.
pub open spec fn trunc_div(a: int, b: int) -> int {
    let q: int = (vstd::math::abs(a) / vstd::math::abs(b)) as int;
    if (a < 0) != (b < 0) {
        -q
    } else {
        q
    }
}

/// `v` reduced to its `bits` low bits, as a nonnegative number.
pub open spec fn wrap(v: int, bits: u32) -> int {
    v % (pow2(bits as nat) as int)
}

/// The registers a new machine has, from `R1` to `R8`, all zero.
pub open spec fn initial_registers() -> Map<Seq<char>, i32> {
    numbered(1, 9, 0i32)
}

/// What an operand stands for: the register it names when it starts with `R`,
/// else a decimal literal.
pub open spec fn operand_value(regs: Map<Seq<char>, i32>, op: Seq<char>) -> Result<i32, Seq<char>> {
    if op.len() > 0 && op[0] == 'R' {
        if regs.dom().contains(op) {
            Ok(regs[op])
        } else {
            Err("Register "@ + op + " not found"@)
        }
    } else {
        match i32_literal(op) {
            Some(v) => Ok(v),
            None => Err("Invalid immediate value: "@ + op),
        }
    }
}

/// The instructions that take a register and an operand.
pub open spec fn takes_operand(m: Mnemonic) -> bool {
    match m {
        Mnemonic::Mov | Mnemonic::Add | Mnemonic::Sub | Mnemonic::Mul | Mnemonic::Div
        | Mnemonic::And | Mnemonic::Or | Mnemonic::Xor | Mnemonic::Shl | Mnemonic::Shr => true,
        _ => false,
    }
}

/// What a register-and-operand instruction computes from the register's value
/// `r` and the operand `v`, before it is cut to the machine's width; `None`
/// where the `i32` arithmetic overflows or the shift is out of range.
pub open spec fn combine(m: Mnemonic, r: i32, v: i32) -> Option<int> {
    match m {
        Mnemonic::Add => if i32::MIN <= r + v <= i32::MAX {
            Some(r + v)
        } else {
            None
        },
        Mnemonic::Sub => if i32::MIN <= r - v <= i32::MAX {
            Some(r - v)
        } else {
            None
        },
        Mnemonic::Mul => if i32::MIN <= r * v <= i32::MAX {
            Some(r * v)
        } else {
            None
        },
        Mnemonic::Div => if r == i32::MIN && v == -1 {
            None
        } else {
            Some(trunc_div(r as int, v as int))
        },
        Mnemonic::And => Some((r & v) as int),
        Mnemonic::Or => Some((r | v) as int),
        Mnemonic::Xor => Some((r ^ v) as int),
        Mnemonic::Shl => if 0 <= v < 32 {
            Some(r * pow2(v as nat))
        } else {
            None
        },
        Mnemonic::Shr => if 0 <= v < 32 {
            Some((r as int % 0x1_0000_0000) / (pow2(v as nat) as int))
        } else {
            None
        },
        _ => Some(v as int),
    }
}

/// The instruction `s` cannot be carried out: a missing operand, an unknown
/// register read, an overflow, or a width above 30 bits where a result is stored.
pub open spec fn step_fails_hard(regs: Map<Seq<char>, i32>, bits: u32, s: Seq<char>) -> bool {
    let p = words(s);
    p.len() > 0 && match mnemonic_of(p[0]) {
        Some(Mnemonic::Not) => p.len() < 2 || !regs.dom().contains(p[1]) || bits > 30,
        Some(m) => takes_operand(m) && (p.len() < 3 || match operand_value(regs, p[2]) {
            Err(_) => false,
            Ok(v) => if m == Mnemonic::Mov {
                bits > 30
            } else if m == Mnemonic::Div && v == 0 {
                false
            } else {
                let reg = trim_commas(p[1]);
                !regs.dom().contains(reg) || combine(m, regs[reg], v) is None || bits > 30
            },
        }),
        None => false,
    }
}

/// The registers after the instruction `s`, or the error it reports.
pub open spec fn step(regs: Map<Seq<char>, i32>, bits: u32, s: Seq<char>) -> Result<
    Map<Seq<char>, i32>,
    Seq<char>,
> {
    let p = words(s);
    if p.len() == 0 {
        Err("Empty instruction"@)
    } else {
        match mnemonic_of(p[0]) {
            Some(Mnemonic::Not) => Ok(regs.insert(p[1], wrap(-regs[p[1]] - 1, bits) as i32)),
            Some(m) => if takes_operand(m) {
                match operand_value(regs, p[2]) {
                    Err(e) => Err(e),
                    Ok(v) => {
                        let reg = trim_commas(p[1]);
                        if m == Mnemonic::Mov {
                            Ok(regs.insert(reg, wrap(v as int, bits) as i32))
                        } else if m == Mnemonic::Div && v == 0 {
                            Err("Division by zero"@)
                        } else {
                            Ok(regs.insert(reg, wrap(combine(m, regs[reg], v).unwrap(), bits) as i32))
                        }
                    },
                }
            } else {
                Err("Unknown instruction: "@ + p[0])
            },
            None => Err("Unknown instruction: "@ + p[0]),
        }
    }
}

/// A machine with `i32` registers whose values are kept to `bits` low bits.
#[derive(Debug)]
pub struct CPU {
    registers: NamedMap<i32>,
    bits: u32,
}

impl CPU {
    /// The registers, by name.
    pub closed spec fn regs(&self) -> Map<Seq<char>, i32> {
        self.registers@
    }

    /// The width of the machine, in bits.
    pub closed spec fn width(&self) -> u32 {
        self.bits
    }

    /// Every register holds a value of `width()` bits, nonnegative, and
    /// `R1`..`R8` are among the registers.
    pub closed spec fn wf(&self) -> bool {
        &&& self.registers.wf()
        &&& fits(self.registers@, self.bits)
        &&& initial_registers().dom().subset_of(self.registers@.dom())
    }

    /// What a well-formed machine guarantees: its registers fit its width and
    /// include `R1`..`R8`.
    pub proof fn lemma_wf(&self)
        requires
            self.wf(),
        ensures
            fits(self.regs(), self.width()),
            initial_registers().dom().subset_of(self.regs().dom()),
    {
    }

    /// A machine of width `bits` whose registers `R1`..`R8` hold zero.
    pub fn new(bits: u32) -> (cpu: CPU)
        ensures
            cpu.wf(),
            cpu.width() == bits,
            cpu.regs() == initial_registers(),
    {
        let mut registers: NamedMap<i32> = NamedMap::new();
        let mut i: usize = 1;
        while i <= 8
            invariant
                1 <= i <= 9,
                registers.wf(),
                registers@ == numbered(1, i as int, 0i32),
            decreases 9 - i,
        {
            let name = register_name_string(i);
            proof {
                lemma_numbered_step(1, i as int, 0i32);
            }
            registers.insert(name.as_str(), 0);
            i = i + 1;
        }
        let cpu = CPU { registers, bits };
        proof {
            lemma_pow2_pos(bits as nat);
        }
        cpu
    }

    /// The mask of the machine's width: `2^bits - 1`.
    pub fn mask(&self) -> (m: i32)
        requires
            self.width() <= 30,
        ensures
            m == pow2(self.width() as nat) - 1,
    {
        proof {
            lemma_i32_one_shl(self.bits);
        }
        (1 << self.bits) - 1
    }

    /// `value` cut to the machine's width: its residue modulo `2^bits`.
    pub fn to_twos_complement(&self, value: i32) -> (r: i32)
        requires
            self.width() <= 30,
        ensures
            r == wrap(value as int, self.width()),
            0 <= r < pow2(self.width() as nat),
    {
        proof {
            lemma_i32_mask(value, self.bits);
            lemma_i32_one_shl(self.bits);
            lemma_pow2_pos(self.bits as nat);
        }
        value & self.mask()
    }

    /// The value of a register, if the machine has it.
    pub fn get(&self, name: &str) -> (r: Option<i32>)
        requires
            self.wf(),
        ensures
            r == (if self.regs().dom().contains(name@) {
                Some(self.regs()[name@])
            } else {
                None
            }),
    {
        match self.registers.get(name) {
            Some(v) => Some(*v),
            None => None,
        }
    }

    /// The width of the machine, in bits.
    pub fn bits(&self) -> (b: u32)
        ensures
            b == self.width(),
    {
        self.bits
    }

    /// What `operand` stands for: a register's value or a decimal literal.
    pub fn get_value(&self, operand: &str) -> (r: Result<i32, String>)
        requires
            self.wf(),
        ensures
            result_text(r) == operand_value(self.regs(), operand@),
    {
        let cs = chars_of(operand);
        if cs.len() > 0 && cs[0] == 'R' {
            match self.registers.get(operand) {
                Some(v) => Ok(*v),
                None => {
                    let mut msg = String::from_str("Register ");
                    msg.append(operand);
                    msg.append(" not found");
                    Err(msg)
                },
            }
        } else {
            proof {
                assert(cs@.subrange(0, cs@.len() as int) =~= operand@);
            }
            match i32_literal_at(&cs, 0, cs.len()) {
                Some(v) => Ok(v),
                None => {
                    let mut msg = String::from_str("Invalid immediate value: ");
                    msg.append(operand);
                    Err(msg)
                },
            }
        }
    }

    /// Carries out one instruction: `MOV`, `ADD`, `SUB`, `MUL`, `DIV`, `AND`,
    /// `OR`, `XOR`, `SHL` or `SHR` with a register and an operand, or `NOT`
    /// with a register; the name is read in any case. Every stored result is
    /// cut to the machine's width. An instruction that fails leaves the
    /// registers as they were.
    pub fn execute(&mut self, instruction: &str) -> (r: Result<(), String>)
        requires
            old(self).wf(),
            !step_fails_hard(old(self).regs(), old(self).width(), instruction@),
        ensures
            final(self).wf(),
            final(self).width() == old(self).width(),
            step(old(self).regs(), old(self).width(), instruction@) == (match r {
                Ok(_) => Ok(final(self).regs()),
                Err(e) => Err(e@),
            }),
            r is Err ==> final(self).regs() == old(self).regs(),
            final(self).regs() == after_step(old(self).regs(), old(self).width(), instruction@),
    {
        let ghost regs0 = self.regs();
        let ws = WordList::of(instruction);
        if ws.len() == 0 {
            return Err(String::from_str("Empty instruction"));
        }
        let m = ws.mnemonic(0);
        let is_not = match m {
            Some(Mnemonic::Not) => true,
            _ => false,
        };
        if is_not {
            let reg = ws.word(instruction, 1);
            let x: i32 = *self.registers.get(reg).unwrap();
            proof {
                lemma_i32_not(x);
            }
            let result = self.to_twos_complement(!x);
            self.registers.insert(reg, result);
            proof {
                self.lemma_insert_keeps_wf(regs0, reg@, result);
            }
            return Ok(());
        }
        let operand_op = match m {
            Some(mm) => takes_operand_exec(mm),
            None => false,
        };
        if !operand_op {
            let mut msg = String::from_str("Unknown instruction: ");
            msg.append(ws.word(instruction, 0));
            return Err(msg);
        }
        let mm = m.unwrap();
        let reg = ws.trimmed_word(instruction, 1);
        let operand = ws.word(instruction, 2);
        let val = match self.get_value(operand) {
            Ok(v) => v,
            Err(e) => {
                return Err(e);
            },
        };
        if mm == Mnemonic::Mov {
            let result = self.to_twos_complement(val);
            self.registers.insert(reg, result);
            proof {
                self.lemma_insert_keeps_wf(regs0, reg@, result);
            }
            return Ok(());
        }
        if mm == Mnemonic::Div && val == 0 {
            return Err(String::from_str("Division by zero"));
        }
        let x: i32 = *self.registers.get(reg).unwrap();
        let raw = alu(mm, x, val, self.bits);
        let result = self.to_twos_complement(raw);
        self.registers.insert(reg, result);
        proof {
            self.lemma_insert_keeps_wf(regs0, reg@, result);
        }
        Ok(())
    }

    /// Whether the instruction `s` cannot be carried out (see `step_fails_hard`).
    pub fn fails_hard(&self, instruction: &str) -> (b: bool)
        requires
            self.wf(),
        ensures
            b == step_fails_hard(self.regs(), self.width(), instruction@),
    {
        let ws = WordList::of(instruction);
        if ws.len() == 0 {
            return false;
        }
        let m = ws.mnemonic(0);
        let mm = match m {
            Some(mm) => mm,
            None => {
                return false;
            },
        };
        if mm == Mnemonic::Not {
            if ws.len() < 2 {
                return true;
            }
            let reg = ws.word(instruction, 1);
            return self.get(reg).is_none() || self.bits > 30;
        }
        if !takes_operand_exec(mm) {
            return false;
        }
        if ws.len() < 3 {
            return true;
        }
        let val = match self.get_value(ws.word(instruction, 2)) {
            Ok(v) => v,
            Err(_) => {
                return false;
            },
        };
        if mm == Mnemonic::Mov {
            return self.bits > 30;
        }
        if mm == Mnemonic::Div && val == 0 {
            return false;
        }
        let x = match self.get(ws.trimmed_word(instruction, 1)) {
            Some(x) => x,
            None => {
                return true;
            },
        };
        !combine_defined(mm, x, val) || self.bits > 30
    }

    proof fn lemma_insert_keeps_wf(&self, before: Map<Seq<char>, i32>, k: Seq<char>, v: i32)
        requires
            self.registers.wf(),
            self.registers@ == before.insert(k, v),
            0 <= v < pow2(self.bits as nat),
            fits(before, self.bits),
            initial_registers().dom().subset_of(before.dom()),
        ensures
            self.wf(),
    {
        assert forall|j: Seq<char>| #[trigger] self.registers@.dom().contains(j) implies 0
            <= self.registers@[j] < pow2(self.bits as nat) by {
            if j != k {
                assert(before.dom().contains(j));
            }
        }
    }
}

/// Decides `takes_operand`.
fn takes_operand_exec(m: Mnemonic) -> (b: bool)
    ensures
        b == takes_operand(m),
{
    match m {
        Mnemonic::Mov | Mnemonic::Add | Mnemonic::Sub | Mnemonic::Mul | Mnemonic::Div
        | Mnemonic::And | Mnemonic::Or | Mnemonic::Xor | Mnemonic::Shl | Mnemonic::Shr => true,
        _ => false,
    }
}

/// Whether `combine(m, x, v)` is defined.
fn combine_defined(m: Mnemonic, x: i32, v: i32) -> (b: bool)
    requires
        takes_operand(m),
        m != Mnemonic::Mov,
    ensures
        b == combine(m, x, v) is Some,
{
    match m {
        Mnemonic::Add => x.checked_add(v).is_some(),
        Mnemonic::Sub => x.checked_sub(v).is_some(),
        Mnemonic::Mul => x.checked_mul(v).is_some(),
        Mnemonic::Div => !(x == i32::MIN && v == -1),
        Mnemonic::Shl | Mnemonic::Shr => 0 <= v && v < 32,
        _ => true,
    }
}

/// The `i32` result of a register-and-operand instruction other than `MOV`;
/// it agrees with `combine` in its `bits` low bits.
fn alu(m: Mnemonic, x: i32, v: i32, bits: u32) -> (r: i32)
    requires
        takes_operand(m),
        m != Mnemonic::Mov,
        0 <= x,
        bits <= 30,
        combine(m, x, v) is Some,
        m == Mnemonic::Div ==> v != 0,
    ensures
        wrap(r as int, bits) == wrap(combine(m, x, v).unwrap(), bits),
{
    match m {
        Mnemonic::Add => x + v,
        Mnemonic::Sub => x - v,
        Mnemonic::Mul => x * v,
        Mnemonic::Div => {
            if v > 0 {
                let q = x / v;
                assert(q == trunc_div(x as int, v as int));
                q
            } else if v == i32::MIN {
                proof {
                    vstd::arithmetic::div_mod::lemma_basic_div(x as int, 0x8000_0000);
                }
                assert(trunc_div(x as int, v as int) == 0);
                0
            } else {
                let q = 0 - x / (0 - v);
                assert(q == trunc_div(x as int, v as int));
                q
            }
        },
        Mnemonic::And => x & v,
        Mnemonic::Or => x | v,
        Mnemonic::Xor => x ^ v,
        Mnemonic::Shl => {
            proof {
                lemma_i32_shl_mod(x, v as u32, bits as nat);
            }
            x << (v as u32)
        },
        _ => {
            proof {
                lemma_i32_shr_mod(x, v as u32, bits as nat);
            }
            ((x as u32) >> (v as u32)) as i32
        },
    }
}

// ---------------------------------------------------------------------
// Laws
// ---------------------------------------------------------------------

/// Every register value of the machine fits its width: in `[0, 2^bits)`.
pub open spec fn fits(regs: Map<Seq<char>, i32>, bits: u32) -> bool {
    forall|k: Seq<char>| #[trigger] regs.dom().contains(k) ==> 0 <= regs[k] < pow2(bits as nat)
}

/// Cutting to the width gives a value that fits it, and leaves a value that
/// already fits unchanged.
pub proof fn law_wrap_fits(v: int, bits: u32)
    ensures
        0 <= wrap(v, bits) < pow2(bits as nat),
        wrap(wrap(v, bits), bits) == wrap(v, bits),
        0 <= v < pow2(bits as nat) ==> wrap(v, bits) == v,
{
    lemma_pow2_pos(bits as nat);
    vstd::arithmetic::div_mod::lemma_mod_bound(v, pow2(bits as nat) as int);
    vstd::arithmetic::div_mod::lemma_small_mod(wrap(v, bits) as nat, pow2(bits as nat));
    if 0 <= v < pow2(bits as nat) {
        vstd::arithmetic::div_mod::lemma_small_mod(v as nat, pow2(bits as nat));
    }
}

/// An instruction that succeeds keeps every register within the width.
pub proof fn law_step_keeps_width(regs: Map<Seq<char>, i32>, bits: u32, s: Seq<char>)
    requires
        fits(regs, bits),
        bits <= 30,
        step(regs, bits, s) is Ok,
    ensures
        fits(step(regs, bits, s)->Ok_0, bits),
{
    let after = step(regs, bits, s)->Ok_0;
    lemma_pow2_pos(bits as nat);
    lemma_i32_one_shl(bits);
    assert forall|k: Seq<char>| #[trigger] after.dom().contains(k) implies 0 <= after[k] < pow2(bits as nat) by {
        if !regs.dom().contains(k) || after[k] != regs[k] {
            // `k` is the register the instruction wrote: its value was cut to the width.
            let p = words(s);
            let written: int = choose|v: int| after[k] == wrap(v, bits) as i32;
            assert(exists|v: int| after[k] == wrap(v, bits) as i32) by {
                match mnemonic_of(p[0]) {
                    Some(Mnemonic::Not) => {
                        assert(after[k] == wrap(-regs[p[1]] - 1, bits) as i32);
                    },
                    Some(m) => {
                        let v = operand_value(regs, p[2])->Ok_0;
                        let reg = trim_commas(p[1]);
                        if m == Mnemonic::Mov {
                            assert(after[k] == wrap(v as int, bits) as i32);
                        } else {
                            assert(after[k] == wrap(combine(m, regs[reg], v).unwrap(), bits) as i32);
                        }
                    },
                    None => {},
                }
            }
            law_wrap_fits(written, bits);
        }
    }
}

/// A register written by `MOV` holds the operand cut to the width.
pub proof fn law_mov_reads_back(regs: Map<Seq<char>, i32>, bits: u32, s: Seq<char>)
    requires
        words(s).len() >= 3,
        mnemonic_of(words(s)[0]) == Some(Mnemonic::Mov),
        step(regs, bits, s) is Ok,
    ensures
        operand_value(regs, words(s)[2]) is Ok,
        step(regs, bits, s)->Ok_0[trim_commas(words(s)[1])] == wrap(
            operand_value(regs, words(s)[2])->Ok_0 as int,
            bits,
        ) as i32,
{
}

/// `NOT` applied twice gives back a value that fits the width.
pub proof fn law_not_twice(r: i32, bits: u32)
    requires
        bits <= 30,
        0 <= r < pow2(bits as nat),
    ensures
        wrap(-(wrap(-r - 1, bits) as i32) - 1, bits) == r,
{
    let m = pow2(bits as nat) as int;
    lemma_pow2_pos(bits as nat);
    lemma_i32_one_shl(bits);
    // -r - 1 == (m - 1 - r) - m
    vstd::arithmetic::div_mod::lemma_mod_add_multiples_vanish(-r - 1, m);
    vstd::arithmetic::div_mod::lemma_small_mod((m - 1 - r) as nat, m as nat);
    let n1 = m - 1 - r;
    assert(wrap(-r - 1, bits) == n1);
    vstd::arithmetic::div_mod::lemma_mod_add_multiples_vanish(-n1 - 1, m);
    vstd::arithmetic::div_mod::lemma_small_mod(r as nat, m as nat);
}

/// An instruction that succeeds writes one register and leaves the others
/// as they were.
pub proof fn law_step_writes_one_register(regs: Map<Seq<char>, i32>, bits: u32, s: Seq<char>)
    requires
        step(regs, bits, s) is Ok,
    ensures
        exists|r: Seq<char>| #[trigger]
            step(regs, bits, s)->Ok_0.dom().contains(r) && step(regs, bits, s)->Ok_0 == regs.insert(
                r,
                step(regs, bits, s)->Ok_0[r],
            ),
{
    let after = step(regs, bits, s)->Ok_0;
    let p = words(s);
    let r = match mnemonic_of(p[0]) {
        Some(Mnemonic::Not) => p[1],
        _ => trim_commas(p[1]),
    };
    assert(after.dom().contains(r));
    assert(after == regs.insert(r, after[r]));
}

/// The registers after the instruction `s`: those that `step` gives, or the
/// same registers when the instruction reports an error.
pub open spec fn after_step(regs: Map<Seq<char>, i32>, bits: u32, s: Seq<char>) -> Map<Seq<char>, i32> {
    match step(regs, bits, s) {
        Ok(r) => r,
        Err(_) => regs,
    }
}

/// The registers after the instructions of `prog`, one after another.
pub open spec fn run(regs: Map<Seq<char>, i32>, bits: u32, prog: Seq<Seq<char>>) -> Map<Seq<char>, i32>
    decreases prog.len(),
{
    if prog.len() == 0 {
        regs
    } else {
        after_step(run(regs, bits, prog.drop_last()), bits, prog.last())
    }
}

/// Running one more instruction is one more step.
pub proof fn law_run_one_more(regs: Map<Seq<char>, i32>, bits: u32, prog: Seq<Seq<char>>, s: Seq<char>)
    ensures
        run(regs, bits, prog.push(s)) == after_step(run(regs, bits, prog), bits, s),
{
    assert(prog.push(s).drop_last() =~= prog);
}

/// Whatever instructions a machine runs, its registers keep fitting its
/// width, and no register disappears.
pub proof fn law_run_keeps_width(regs: Map<Seq<char>, i32>, bits: u32, prog: Seq<Seq<char>>)
    requires
        fits(regs, bits),
        bits <= 30,
    ensures
        fits(run(regs, bits, prog), bits),
        regs.dom().subset_of(run(regs, bits, prog).dom()),
    decreases prog.len(),
{
    if prog.len() > 0 {
        let before = run(regs, bits, prog.drop_last());
        law_run_keeps_width(regs, bits, prog.drop_last());
        if step(before, bits, prog.last()) is Ok {
            law_step_keeps_width(before, bits, prog.last());
            law_step_writes_one_register(before, bits, prog.last());
        }
    }
}


/// The registers with `x`, cut to the width, stored in `reg`.
pub open spec fn stored(regs: Map<Seq<char>, i32>, bits: u32, reg: Seq<char>, x: int) -> Result<
    Map<Seq<char>, i32>,
    Seq<char>,
> {
    Ok(regs.insert(reg, wrap(x, bits) as i32))
}

/// Division of `i32` values rounds toward zero: the remainder is smaller than
/// the divisor in size, and is zero or has the dividend's sign.
pub proof fn law_division_rounds_toward_zero(a: int, b: int)
    requires
        b != 0,
    ensures
        vstd::math::abs(a - trunc_div(a, b) * b) < vstd::math::abs(b),
        a - trunc_div(a, b) * b == 0 || ((a - trunc_div(a, b) * b < 0) == (a < 0)),
{
    let x = vstd::math::abs(a);
    let d = vstd::math::abs(b);
    let q: int = (x / d) as int;
    vstd::arithmetic::div_mod::lemma_fundamental_div_mod(x as int, d as int);
    vstd::arithmetic::div_mod::lemma_mod_pos_bound(x as int, d as int);
    let rem = x - q * d;
    assert(0 <= rem < d);
    if a >= 0 && b > 0 {
        assert(a - trunc_div(a, b) * b == rem);
    } else if a >= 0 && b < 0 {
        assert(trunc_div(a, b) * b == q * d) by (nonlinear_arith)
            requires
                trunc_div(a, b) == -q,
                b == -d,
        ;
        assert(a - trunc_div(a, b) * b == rem);
    } else if a < 0 && b > 0 {
        assert(trunc_div(a, b) * b == -(q * d)) by (nonlinear_arith)
            requires
                trunc_div(a, b) == -q,
                b == d,
        ;
        assert(a - trunc_div(a, b) * b == -rem);
    } else {
        assert(trunc_div(a, b) * b == -(q * d)) by (nonlinear_arith)
            requires
                trunc_div(a, b) == q,
                b == -d,
        ;
        assert(a - trunc_div(a, b) * b == -rem);
    }
}

/// What each register-and-operand instruction that can be carried out does,
/// for a register `r` that exists and an operand of value `v`: `MOV` stores
/// `v`; `ADD`, `SUB`, `MUL` store `r + v`, `r - v`, `r * v`; `DIV` reports
/// division by zero, or stores the quotient rounded toward zero; `AND`, `OR`,
/// `XOR` store `r & v`, `r | v`, `r ^ v`; `SHL` stores `r * 2^v`, and `SHR`
/// the bits of `r`, read as unsigned, shifted right by `v`. Every result is
/// cut to the machine's width, and no other register changes.
pub proof fn law_operand_instructions(regs: Map<Seq<char>, i32>, bits: u32, s: Seq<char>, v: i32)
    requires
        words(s).len() >= 3,
        operand_value(regs, words(s)[2]) == Ok::<i32, Seq<char>>(v),
        regs.dom().contains(trim_commas(words(s)[1])),
        !step_fails_hard(regs, bits, s),
    ensures
        ({
            let reg = trim_commas(words(s)[1]);
            let r = regs[reg];
            let op = mnemonic_of(words(s)[0]);
            &&& op == Some(Mnemonic::Mov) ==> step(regs, bits, s) == stored(regs, bits, reg, v as int)
            &&& op == Some(Mnemonic::Add) ==> step(regs, bits, s) == stored(regs, bits, reg, r + v)
            &&& op == Some(Mnemonic::Sub) ==> step(regs, bits, s) == stored(regs, bits, reg, r - v)
            &&& op == Some(Mnemonic::Mul) ==> step(regs, bits, s) == stored(regs, bits, reg, r * v)
            &&& op == Some(Mnemonic::Div) && v == 0 ==> step(regs, bits, s) == Err::<
                Map<Seq<char>, i32>,
                Seq<char>,
            >("Division by zero"@)
            &&& op == Some(Mnemonic::Div) && v != 0 ==> step(regs, bits, s) == stored(
                regs,
                bits,
                reg,
                trunc_div(r as int, v as int),
            )
            &&& op == Some(Mnemonic::And) ==> step(regs, bits, s) == stored(regs, bits, reg, (r & v) as int)
            &&& op == Some(Mnemonic::Or) ==> step(regs, bits, s) == stored(regs, bits, reg, (r | v) as int)
            &&& op == Some(Mnemonic::Xor) ==> step(regs, bits, s) == stored(regs, bits, reg, (r ^ v) as int)
            &&& op == Some(Mnemonic::Shl) ==> 0 <= v < 32 && step(regs, bits, s) == stored(
                regs,
                bits,
                reg,
                r * pow2(v as nat),
            )
            &&& op == Some(Mnemonic::Shr) ==> 0 <= v < 32 && step(regs, bits, s) == stored(
                regs,
                bits,
                reg,
                ((r as u32) >> (v as u32)) as int,
            )
        }),
{
    let reg = trim_commas(words(s)[1]);
    let r = regs[reg];
    let op = mnemonic_of(words(s)[0]);
    if op == Some(Mnemonic::Shr) && 0 <= v < 32 {
        crate::bits::lemma_i32_as_u32(r);
        vstd::bits::lemma_u32_shr_is_div(r as u32, v as u32);
    }
}

/// `NOT` on a register that exists stores its bitwise complement, cut to the
/// width, and changes no other register.
pub proof fn law_not_instruction(regs: Map<Seq<char>, i32>, bits: u32, s: Seq<char>)
    requires
        words(s).len() >= 2,
        mnemonic_of(words(s)[0]) == Some(Mnemonic::Not),
        regs.dom().contains(words(s)[1]),
    ensures
        step(regs, bits, s) == stored(regs, bits, words(s)[1], (!regs[words(s)[1]]) as int),
{
    lemma_i32_not(regs[words(s)[1]]);
}

} // verus!
