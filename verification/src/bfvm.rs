use vstd::prelude::*;

use crate::bfir::{compile_spec, opt_spec, wrap_add, BfIR};
use crate::errors::{vm_error, RuntimeError, VMError};

verus! {

/// Number of cells in the memory buffer.
pub const MEMORY_SIZE: usize = 30000;

/// The execution engine: a compiled instruction sequence, a fixed
/// zero-initialized memory buffer, an input byte stream (a buffer and a
/// read position) and an output byte stream (a buffer that is appended
/// to).  Construction runs compile, then optionally the optimizer;
/// `run` executes the instructions.
#[derive(Debug)]
pub struct BfVM {
    pub code: Vec<BfIR>,
    pub memory: Vec<u8>,
    pub input: Vec<u8>,
    pub in_pos: usize,
    pub output: Vec<u8>,
}

/// A machine configuration of the executing program: program counter,
/// cursor, memory contents, input read position, bytes written so far,
/// and the loop-entry positions currently open.
#[verifier::ext_equal]
pub ghost struct Config {
    pub pc: int,
    pub cur: int,
    pub ip: int,
    pub mem: Seq<u8>,
    pub out: Seq<u8>,
    pub stk: Seq<usize>,
}

/// Builds a configuration from its parts.
pub open spec fn mk_cfg(pc: int, cur: int, ip: int, mem: Seq<u8>, out: Seq<u8>, stk: Seq<usize>) -> Config {
    Config { pc, cur, ip, mem, out, stk }
}

/// What one instruction step yields: the next configuration, a normal
/// halt, or a halt with the cursor moved outside the buffer.
#[verifier::ext_equal]
pub ghost enum Step {
    More(Config),
    Done(Config),
    Oob(Config),
}

/// Subtraction of a byte delta modulo 256.
pub open spec fn wrap_sub(a: u8, b: u8) -> u8 {
    if a - b < 0 {
        (a - b + 256) as u8
    } else {
        (a - b) as u8
    }
}

/// The byte at the cursor.
pub open spec fn cell(c: Config) -> u8 {
    c.mem[c.cur]
}

/// The index of the `Jnz` matching a scan that starts at `j` with `d`
/// still-open inner loops, or the sequence's length if there is none.
pub open spec fn match_from(code: Seq<BfIR>, j: int, d: int) -> int
    decreases code.len() - j,
{
    if j < 0 || j >= code.len() {
        code.len() as int
    } else if code[j] == BfIR::Jnz {
        if d == 0 {
            j
        } else {
            match_from(code, j + 1, d - 1)
        }
    } else if code[j] == BfIR::Jz {
        match_from(code, j + 1, d + 1)
    } else {
        match_from(code, j + 1, d)
    }
}

/// One step of the program `code` with input `inp` at configuration `c`.
///
/// A program counter outside the code halts normally.  `AddVal`/`SubVal`
/// mutate the byte at the cursor modulo 256 and never fail.  `AddPtr`/
/// `SubPtr` move the cursor and halt with `Oob` if it would leave
/// `[0, mem.len())`.  `GetByte` stores the next input byte at the cursor,
/// or — at end of stream — leaves the cell unchanged; end of stream is not
/// an error.  `PutByte` appends the byte at the cursor to the output.
/// `Jz` skips past its matching `Jnz` when the cell is zero, else enters
/// the loop body and records the loop entry; `Jnz` returns to the body of
/// the innermost open loop when the cell is non-zero, else closes it.  A
/// `Jnz` with no open loop (impossible in code the front end accepted)
/// halts normally.
pub open spec fn step(code: Seq<BfIR>, inp: Seq<u8>, c: Config) -> Step {
    if !(0 <= c.pc < code.len()) {
        Step::Done(c)
    } else {
        match code[c.pc] {
            BfIR::AddVal(x) => Step::More(
                mk_cfg(c.pc + 1, c.cur, c.ip, c.mem.update(c.cur, wrap_add(cell(c), x)), c.out, c.stk),
            ),
            BfIR::SubVal(x) => Step::More(
                mk_cfg(c.pc + 1, c.cur, c.ip, c.mem.update(c.cur, wrap_sub(cell(c), x)), c.out, c.stk),
            ),
            BfIR::AddPtr(x) => {
                if c.cur + x < c.mem.len() {
                    Step::More(mk_cfg(c.pc + 1, c.cur + x, c.ip, c.mem, c.out, c.stk))
                } else {
                    Step::Oob(c)
                }
            },
            BfIR::SubPtr(x) => {
                if c.cur - x >= 0 {
                    Step::More(mk_cfg(c.pc + 1, c.cur - x, c.ip, c.mem, c.out, c.stk))
                } else {
                    Step::Oob(c)
                }
            },
            BfIR::GetByte => {
                if c.ip < inp.len() {
                    Step::More(
                        mk_cfg(c.pc + 1, c.cur, c.ip + 1, c.mem.update(c.cur, inp[c.ip]), c.out, c.stk),
                    )
                } else {
                    Step::More(mk_cfg(c.pc + 1, c.cur, c.ip, c.mem, c.out, c.stk))
                }
            },
            BfIR::PutByte => Step::More(
                mk_cfg(c.pc + 1, c.cur, c.ip, c.mem, c.out.push(cell(c)), c.stk),
            ),
            BfIR::Jz => {
                if cell(c) == 0 {
                    Step::More(
                        mk_cfg(match_from(code, c.pc + 1, 0) + 1, c.cur, c.ip, c.mem, c.out, c.stk),
                    )
                } else {
                    Step::More(
                        mk_cfg(c.pc + 1, c.cur, c.ip, c.mem, c.out, c.stk.push(c.pc as usize)),
                    )
                }
            },
            BfIR::Jnz => {
                if c.stk.len() == 0 {
                    Step::Done(c)
                } else if cell(c) != 0 {
                    Step::More(mk_cfg(c.stk.last() + 1, c.cur, c.ip, c.mem, c.out, c.stk))
                } else {
                    Step::More(mk_cfg(c.pc + 1, c.cur, c.ip, c.mem, c.out, c.stk.drop_last()))
                }
            },
        }
    }
}

/// The machine after `n` steps from `c`: still running, or halted.  A
/// halted outcome is absorbing.
pub open spec fn run_n(code: Seq<BfIR>, inp: Seq<u8>, c: Config, n: nat) -> Step
    decreases n,
{
    if n == 0 {
        Step::More(c)
    } else {
        match run_n(code, inp, c, (n - 1) as nat) {
            Step::More(c2) => step(code, inp, c2),
            halted => halted,
        }
    }
}

impl BfVM {
    /// The engine's observable state is a valid machine.
    pub open spec fn wf(self) -> bool {
        &&& self.memory@.len() == MEMORY_SIZE
        &&& self.in_pos <= self.input@.len()
        &&& self.code@.len() < usize::MAX
    }

    /// The configuration a call of `run` starts from: program counter and
    /// cursor at zero, streams as the engine holds them.
    pub open spec fn cfg(self) -> Config {
        mk_cfg(0, 0, self.in_pos as int, self.memory@, self.output@, Seq::empty())
    }
}

/// Whether the engine's state after a run matches a halting configuration.
pub open spec fn agrees(post: BfVM, c: Config) -> bool {
    &&& post.memory@ == c.mem
    &&& post.in_pos as int == c.ip
    &&& post.output@ == c.out
}

/// Whether `r` and the post-state `post` are the outcome that `n` steps of
/// the semantics assign to the program: a normal halt yields `Ok` and an
/// out-of-bounds cursor move yields the pointer-overflow runtime error,
/// with memory, input position and output exactly those of the halting
/// configuration — so nothing past the violating move has run.
pub open spec fn run_result(
    code: Seq<BfIR>,
    inp: Seq<u8>,
    c0: Config,
    n: nat,
    r: Result<(), VMError>,
    post: BfVM,
) -> bool {
    match run_n(code, inp, c0, n) {
        Step::Done(c) => r is Ok && agrees(post, c),
        Step::Oob(c) => r == Err::<(), VMError>(VMError::Runtime(RuntimeError::PointerOverflow))
            && agrees(post, c),
        Step::More(_) => false,
    }
}

/// A halted machine stays halted: once `run_n` yields a halt at `m` steps,
/// every later step count yields the same halt.
pub proof fn lemma_run_n_absorbs(code: Seq<BfIR>, inp: Seq<u8>, c: Config, m: nat, n: nat)
    requires
        m <= n,
        !(run_n(code, inp, c, m) is More),
    ensures
        run_n(code, inp, c, n) == run_n(code, inp, c, m),
    decreases n,
{
    if n > m {
        lemma_run_n_absorbs(code, inp, c, m, (n - 1) as nat);
    }
}

/// Whether the program halts on this input from this configuration.
pub open spec fn halts(code: Seq<BfIR>, inp: Seq<u8>, c: Config) -> bool {
    exists|n: nat| !(run_n(code, inp, c, n) is More)
}

/// Finds the `Jnz` matching the `Jz` at `i`, scanning forward; returns the
/// code length if there is none.
fn find_match(code: &Vec<BfIR>, i: usize) -> (r: usize)
    requires
        i < code@.len(),
        code@.len() < usize::MAX,
    ensures
        r as int == match_from(code@, i as int + 1, 0),
        r <= code@.len(),
{
    let n: usize = code.len();
    let mut j: usize = i + 1;
    let mut d: usize = 0;
    while j < n
        invariant
            j <= n,
            n == code@.len(),
            n < usize::MAX,
            d <= j,
            match_from(code@, i as int + 1, 0) == match_from(code@, j as int, d as int),
        decreases n - j,
    {
        let op: BfIR = code[j];
        match op {
            BfIR::Jnz => {
                if d == 0 {
                    return j;
                }
                d = d - 1;
            },
            BfIR::Jz => {
                d = d + 1;
            },
            _ => {},
        }
        j = j + 1;
    }
    n
}

impl BfVM {
    /// Builds an engine for the given source text and streams: runs the
    /// front-end compiler, then — when `optimize` is set — the peephole
    /// optimizer, and pairs the code with a zeroed 30,000-cell buffer.
    /// Fails with the compile error exactly when the source text is
    /// structurally ill-formed.
    pub fn new(src_code: &str, input: Vec<u8>, output: Vec<u8>, optimize: bool) -> (r: Result<
        BfVM,
        VMError,
    >)
        requires
            src_code@.len() + 2 < u32::MAX,
        ensures
            compile_spec(src_code@) matches Ok(ir) ==> (r matches Ok(vm) && {
                &&& vm.code@ == (if optimize {
                    opt_spec(ir)
                } else {
                    ir
                })
                &&& vm.memory@.len() == MEMORY_SIZE
                &&& (forall|k: int| 0 <= k < MEMORY_SIZE ==> vm.memory@[k] == 0)
                &&& vm.input@ == input@
                &&& vm.in_pos == 0
                &&& vm.output@ == output@
                &&& vm.wf()
            }),
            compile_spec(src_code@) matches Err(e) ==> (r matches Err(e2) && e2
                == VMError::Compile(e)),
    {
        let ir_result = crate::bfir::compile(src_code);
        match ir_result {
            Err(e) => Err(VMError::Compile(e)),
            Ok(mut ir) => {
                proof {
                    crate::bfir::lemma_compile_bounds(src_code@);
                    crate::bfir::lemma_optimize_no_longer(ir@);
                }
                if optimize {
                    crate::bfir::optimize(&mut ir);
                }
                let mut memory: Vec<u8> = Vec::new();
                while memory.len() < MEMORY_SIZE
                    invariant
                        memory@.len() <= MEMORY_SIZE,
                        forall|k: int| 0 <= k < memory@.len() ==> memory@[k] == 0,
                    decreases MEMORY_SIZE - memory@.len(),
                {
                    memory.push(0u8);
                }
                Ok(BfVM { code: ir, memory, input, in_pos: 0, output })
            },
        }
    }

    /// Executes the compiled program from a fresh program counter and
    /// cursor.  The result and the engine's final memory, input position
    /// and output are exactly what some number of steps of the semantics
    /// yields: `Ok` on a normal halt, the pointer-overflow runtime error
    /// when a cursor move leaves the buffer.
    ///
    /// The caller must know that the program halts on this input: a
    /// verified function cannot loop forever, so a program with no halting
    /// step count is outside this engine's domain.
    #[verifier::loop_isolation(false)]
    pub fn run(&mut self) -> (r: Result<(), VMError>)
        requires
            old(self).wf(),
            halts(old(self).code@, old(self).input@, old(self).cfg()),
        ensures
            final(self).wf(),
            final(self).code@ == old(self).code@,
            final(self).input@ == old(self).input@,
            exists|n: nat|
                run_result(old(self).code@, old(self).input@, old(self).cfg(), n, r, *final(self)),
    {
        let ghost code0 = old(self).code@;
        let ghost inp0 = old(self).input@;
        let ghost c0 = old(self).cfg();
        let ghost total: nat = choose|n: nat| !(run_n(code0, inp0, c0, n) is More);
        let mut pc: usize = 0;
        let mut cur: usize = 0;
        let mut stack: Vec<usize> = Vec::new();
        let ghost mut steps: nat = 0;
        while pc < self.code.len()
            invariant
                self.code@ == code0,
                self.input@ == inp0,
                self.memory@.len() == MEMORY_SIZE,
                self.in_pos <= self.input@.len(),
                code0.len() < usize::MAX,
                cur < MEMORY_SIZE,
                forall|k: int| 0 <= k < stack@.len() ==> stack@[k] < code0.len(),
                !(run_n(code0, inp0, c0, total) is More),
                run_n(code0, inp0, c0, steps) == Step::More(
                    mk_cfg(
                        pc as int,
                        cur as int,
                        self.in_pos as int,
                        self.memory@,
                        self.output@,
                        stack@,
                    ),
                ),
            decreases total - steps,
        {
            proof {
                if steps >= total {
                    lemma_run_n_absorbs(code0, inp0, c0, total, steps);
                    assert(false);
                }
            }
            let ghost pre = mk_cfg(
                pc as int,
                cur as int,
                self.in_pos as int,
                self.memory@,
                self.output@,
                stack@,
            );
            let op: BfIR = self.code[pc];
            match op {
                BfIR::AddVal(x) => {
                    let b: u8 = self.memory[cur];
                    self.memory[cur] = b.wrapping_add(x);
                    pc = pc + 1;
                },
                BfIR::SubVal(x) => {
                    let b: u8 = self.memory[cur];
                    self.memory[cur] = b.wrapping_sub(x);
                    pc = pc + 1;
                },
                BfIR::AddPtr(x) => {
                    let nx: usize = x as usize;
                    if cur + nx < MEMORY_SIZE {
                        cur = cur + nx;
                        pc = pc + 1;
                    } else {
                        proof {
                            assert(step(code0, inp0, pre) == Step::Oob(pre));
                            assert(run_n(code0, inp0, c0, steps + 1) == Step::Oob(pre));
                            assert(run_result(
                                code0,
                                inp0,
                                c0,
                                steps + 1,
                                Err::<(), VMError>(VMError::Runtime(RuntimeError::PointerOverflow)),
                                *self,
                            ));
                        }
                        return Err(vm_error(RuntimeError::PointerOverflow));
                    }
                },
                BfIR::SubPtr(x) => {
                    let nx: usize = x as usize;
                    if nx <= cur {
                        cur = cur - nx;
                        pc = pc + 1;
                    } else {
                        proof {
                            assert(step(code0, inp0, pre) == Step::Oob(pre));
                            assert(run_n(code0, inp0, c0, steps + 1) == Step::Oob(pre));
                            assert(run_result(
                                code0,
                                inp0,
                                c0,
                                steps + 1,
                                Err::<(), VMError>(VMError::Runtime(RuntimeError::PointerOverflow)),
                                *self,
                            ));
                        }
                        return Err(vm_error(RuntimeError::PointerOverflow));
                    }
                },
                BfIR::GetByte => {
                    if self.in_pos < self.input.len() {
                        let b: u8 = self.input[self.in_pos];
                        self.memory[cur] = b;
                        self.in_pos = self.in_pos + 1;
                    }
                    pc = pc + 1;
                },
                BfIR::PutByte => {
                    let b: u8 = self.memory[cur];
                    self.output.push(b);
                    pc = pc + 1;
                },
                BfIR::Jz => {
                    let b: u8 = self.memory[cur];
                    if b == 0 {
                        let m: usize = find_match(&self.code, pc);
                        pc = m + 1;
                    } else {
                        stack.push(pc);
                        pc = pc + 1;
                    }
                },
                BfIR::Jnz => {
                    if stack.len() == 0 {
                        // Defensively unreachable for front-end output: mirror
                        // the semantics, which halts here.
                        proof {
                            assert(step(code0, inp0, pre) == Step::Done(pre));
                            assert(run_n(code0, inp0, c0, steps + 1) == Step::Done(pre));
                            assert(run_result(code0, inp0, c0, steps + 1, Ok::<(), VMError>(()), *self));
                        }
                        return Ok(());
                    }
                    let t: usize = stack[stack.len() - 1];
                    let b: u8 = self.memory[cur];
                    if b != 0 {
                        pc = t + 1;
                    } else {
                        let _ = stack.pop();
                        pc = pc + 1;
                    }
                },
            }
            proof {
                let now = mk_cfg(
                    pc as int,
                    cur as int,
                    self.in_pos as int,
                    self.memory@,
                    self.output@,
                    stack@,
                );
                assert(step(code0, inp0, pre) =~= Step::More(now));
                assert(run_n(code0, inp0, c0, steps + 1) == Step::More(now));
                steps = steps + 1;
            }
        }
        proof {
            let now = mk_cfg(
                pc as int,
                cur as int,
                self.in_pos as int,
                self.memory@,
                self.output@,
                stack@,
            );
            assert(step(code0, inp0, now) == Step::Done(now));
            assert(run_n(code0, inp0, c0, steps + 1) == Step::Done(now));
            assert(run_result(code0, inp0, c0, steps + 1, Ok::<(), VMError>(()), *self));
        }
        Ok(())
    }
}

} // verus!
