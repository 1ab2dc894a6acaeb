use vstd::prelude::*;
use vstd::arithmetic::power2::{pow2, lemma2_to64, lemma_pow2_strictly_increases};
use vstd::bits::lemma_u64_shr_is_div;

verus! {

pub const ADV: u8 = 0;
pub const BXL: u8 = 1;
pub const BST: u8 = 2;
pub const JNZ: u8 = 3;
pub const BXC: u8 = 4;
pub const OUT: u8 = 5;
pub const BDV: u8 = 6;
pub const CDV: u8 = 7;

/// Registers A, B and C.
pub type Regs = (u64, u64, u64);

/// How a run of the machine ended.
#[derive(PartialEq, Eq, Structural, Debug, Clone, Copy)]
pub enum RunEnd {
    /// The program counter left the program.
    Halted,
    /// An opcode or a combo operand was invalid, or an operand was missing.
    Fault,
    /// The step budget ran out first.
    OutOfSteps,
}

/// A combo operand: 0 to 3 stand for themselves, 4 to 6 for registers A to C.
pub open spec fn combo_spec(reg: Regs, n: u8) -> u64 {
    if n <= 3 {
        n as u64
    } else if n == 4 {
        reg.0
    } else if n == 5 {
        reg.1
    } else {
        reg.2
    }
}

/// Register A divided by two to the power of the combo operand.
pub open spec fn dv_spec(a: u64, c: u64) -> u64 {
    (a as nat / pow2(c as nat)) as u64
}

pub open spec fn uses_combo(opcode: u8) -> bool {
    opcode == ADV || opcode == BST || opcode == OUT || opcode == BDV || opcode == CDV
}

/// One instruction at `pc`: the new registers, the next program counter and
/// any output; `None` where the instruction is invalid or incomplete.
pub open spec fn step_spec(reg: Regs, program: Seq<u8>, pc: int) -> Option<(Regs, int, Option<u8>)> {
    if pc + 1 >= program.len() || program[pc] > 7 || (uses_combo(program[pc]) && program[pc + 1] >= 7) {
        None
    } else {
        let op = program[pc];
        let x = program[pc + 1];
        let cv = combo_spec(reg, x);
        if op == ADV {
            Some(((dv_spec(reg.0, cv), reg.1, reg.2), pc + 2, None))
        } else if op == BXL {
            Some(((reg.0, reg.1 ^ (x as u64), reg.2), pc + 2, None))
        } else if op == BST {
            Some(((reg.0, cv % 8, reg.2), pc + 2, None))
        } else if op == JNZ {
            if reg.0 > 0 {
                Some((reg, x as int, None))
            } else {
                Some((reg, pc + 2, None))
            }
        } else if op == BXC {
            Some(((reg.0, reg.1 ^ reg.2, reg.2), pc + 2, None))
        } else if op == OUT {
            Some((reg, pc + 2, Some((cv % 8) as u8)))
        } else if op == BDV {
            Some(((reg.0, dv_spec(reg.0, cv), reg.2), pc + 2, None))
        } else {
            Some(((reg.0, reg.1, dv_spec(reg.0, cv)), pc + 2, None))
        }
    }
}

/// Output and end of a run from `pc` with at most `fuel` instructions.
pub open spec fn run_spec(reg: Regs, program: Seq<u8>, pc: int, fuel: nat) -> (Seq<u8>, RunEnd)
    decreases fuel,
{
    if pc >= program.len() {
        (Seq::empty(), RunEnd::Halted)
    } else if fuel == 0 {
        (Seq::empty(), RunEnd::OutOfSteps)
    } else {
        match step_spec(reg, program, pc) {
            None => (Seq::empty(), RunEnd::Fault),
            Some((r2, pc2, o)) => {
                let rest = run_spec(r2, program, pc2, (fuel - 1) as nat);
                let here: Seq<u8> = match o {
                    Some(v) => seq![v],
                    None => Seq::empty(),
                };
                (here + rest.0, rest.1)
            },
        }
    }
}

/// The value of a combo operand below 7.
pub fn combo(reg: &[u64; 3], n: u8) -> (r: u64)
    requires
        n <= 6,
    ensures
        r == combo_spec((reg[0], reg[1], reg[2]), n),
{
    if n <= 3 {
        n as u64
    } else {
        reg[(n - 4) as usize]
    }
}

fn divide(a: u64, c: u64) -> (r: u64)
    ensures
        r == dv_spec(a, c),
{
    proof {
        lemma2_to64();
    }
    if c >= 64 {
        proof {
            if c > 64 {
                lemma_pow2_strictly_increases(64, c as nat);
            }
            assert(a as nat / pow2(c as nat) == 0) by (nonlinear_arith)
                requires a < pow2(64), pow2(64) <= pow2(c as nat);
        }
        0
    } else {
        proof {
            lemma_u64_shr_is_div(a, c);
        }
        a >> c
    }
}

/// Runs `program` from registers `reg`, for at most `fuel` instructions,
/// appending every output value to `out`.
pub fn run(reg: [u64; 3], program: &[u8], out: &mut Vec<u8>, fuel: u64) -> (r: RunEnd)
    ensures
        final(out)@ == old(out)@ + run_spec((reg[0], reg[1], reg[2]), program@, 0, fuel as nat).0,
        r == run_spec((reg[0], reg[1], reg[2]), program@, 0, fuel as nat).1,
{
    let ghost r0: Regs = (reg[0], reg[1], reg[2]);
    let ghost out0 = out@;
    let mut a = reg[0];
    let mut b = reg[1];
    let mut c = reg[2];
    let mut pc: usize = 0;
    let mut left = fuel;
    while pc < program.len() && left > 0
        invariant
            out0 == old(out)@,
            r0 == (reg[0], reg[1], reg[2]),
            out@ + run_spec((a, b, c), program@, pc as int, left as nat).0 == out0 + run_spec(r0, program@, 0, fuel as nat).0,
            run_spec((a, b, c), program@, pc as int, left as nat).1 == run_spec(r0, program@, 0, fuel as nat).1,
        decreases left,
    {
        let ghost cur: Regs = (a, b, c);
        let ghost before = out@;
        if pc + 1 >= program.len() {
            assert(step_spec(cur, program@, pc as int) is None);
            assert(run_spec(cur, program@, pc as int, left as nat) == (Seq::<u8>::empty(), RunEnd::Fault));
            assert(out@ + Seq::<u8>::empty() =~= out@);
            return RunEnd::Fault;
        }
        let opcode = program[pc];
        let operand = program[pc + 1];
        if opcode > 7 || ((opcode == ADV || opcode == BST || opcode == OUT || opcode == BDV || opcode == CDV) && operand >= 7) {
            assert(step_spec(cur, program@, pc as int) is None);
            assert(run_spec(cur, program@, pc as int, left as nat) == (Seq::<u8>::empty(), RunEnd::Fault));
            assert(out@ + Seq::<u8>::empty() =~= out@);
            return RunEnd::Fault;
        }
        let regs = [a, b, c];
        if opcode == ADV {
            a = divide(a, combo(&regs, operand));
            pc += 2;
        } else if opcode == BXL {
            b = b ^ operand as u64;
            pc += 2;
        } else if opcode == BST {
            b = combo(&regs, operand) % 8;
            pc += 2;
        } else if opcode == JNZ {
            if a > 0 {
                pc = operand as usize;
            } else {
                pc += 2;
            }
        } else if opcode == BXC {
            b = b ^ c;
            pc += 2;
        } else if opcode == OUT {
            out.push((combo(&regs, operand) % 8) as u8);
            pc += 2;
        } else if opcode == BDV {
            b = divide(a, combo(&regs, operand));
            pc += 2;
        } else {
            c = divide(a, combo(&regs, operand));
            pc += 2;
        }
        left -= 1;
        proof {
            let st = step_spec(cur, program@, pc as int);
            assert(regs@ =~= seq![cur.0, cur.1, cur.2]);
            if opcode == OUT {
                assert(out@ =~= before.push((combo_spec(cur, operand) % 8) as u8));
                assert(before + (seq![(combo_spec(cur, operand) % 8) as u8] + run_spec((a, b, c), program@, pc as int, left as nat).0)
                    =~= out@ + run_spec((a, b, c), program@, pc as int, left as nat).0);
            } else {
                assert(before + (Seq::<u8>::empty() + run_spec((a, b, c), program@, pc as int, left as nat).0)
                    =~= out@ + run_spec((a, b, c), program@, pc as int, left as nat).0);
            }
        }
    }
    proof {
        assert(out@ + Seq::<u8>::empty() =~= out@);
    }
    if pc < program.len() {
        RunEnd::OutOfSteps
    } else {
        RunEnd::Halted
    }
}

} // verus!
