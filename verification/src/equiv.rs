//! Correctness of the optimizer against the execution semantics, for
//! straight-line programs.
//!
//! The optimizer folds a run of same-kind delta instructions into one
//! instruction whose delta is the run's sum modulo 256.  For the cell
//! instructions that folding is always faithful, because cells themselves
//! live modulo 256.  For the cursor instructions it is faithful exactly
//! when the run's sum stays below 256; a run of 256 or more cursor moves
//! wraps and lands the cursor elsewhere.  This module states and proves
//! the faithful case: on a loop-free program whose cursor runs fit in a
//! byte, the optimized code halts the same way with the same memory, input
//! position and output.

use vstd::prelude::*;

use crate::bfir::{
    combine, delta_of, is_delta, lemma_with_delta_facts, opt_from, opt_spec, pend_rank, same_kind,
    tag, wrap_add, BfIR,
};
use crate::bfvm::{mk_cfg, run_n, step, wrap_sub, Config, Step};

verus! {

/// The part of a configuration that straight-line code touches: cursor,
/// memory, input position and output.
#[verifier::ext_equal]
pub ghost struct SState {
    pub cur: int,
    pub mem: Seq<u8>,
    pub ip: int,
    pub out: Seq<u8>,
}

/// The straight-line part of a configuration.
pub open spec fn sst(c: Config) -> SState {
    SState { cur: c.cur, mem: c.mem, ip: c.ip, out: c.out }
}

/// Whether the program is straight-line: no loop brackets.
pub open spec fn straightline(code: Seq<BfIR>) -> bool {
    forall|k: int| 0 <= k < code.len() ==> tag(#[trigger] code[k]) <= 5
}

/// Whether an instruction moves the cursor.
pub open spec fn is_ptr(ir: BfIR) -> bool {
    2 <= tag(ir) && tag(ir) <= 3
}

/// One straight-line instruction on an `SState`: `Ok` continues, `Err`
/// halts with the cursor out of bounds.  Loop brackets are not
/// straight-line and are left inert here.
pub open spec fn sstep(ir: BfIR, inp: Seq<u8>, st: SState) -> Result<SState, SState> {
    match ir {
        BfIR::AddVal(x) => Ok(
            SState {
                cur: st.cur,
                mem: st.mem.update(st.cur, wrap_add(st.mem[st.cur], x)),
                ip: st.ip,
                out: st.out,
            },
        ),
        BfIR::SubVal(x) => Ok(
            SState {
                cur: st.cur,
                mem: st.mem.update(st.cur, wrap_sub(st.mem[st.cur], x)),
                ip: st.ip,
                out: st.out,
            },
        ),
        BfIR::AddPtr(x) => {
            if st.cur + x < st.mem.len() {
                Ok(SState { cur: st.cur + x, mem: st.mem, ip: st.ip, out: st.out })
            } else {
                Err(st)
            }
        },
        BfIR::SubPtr(x) => {
            if st.cur - x >= 0 {
                Ok(SState { cur: st.cur - x, mem: st.mem, ip: st.ip, out: st.out })
            } else {
                Err(st)
            }
        },
        BfIR::GetByte => {
            if st.ip < inp.len() {
                Ok(
                    SState {
                        cur: st.cur,
                        mem: st.mem.update(st.cur, inp[st.ip]),
                        ip: st.ip + 1,
                        out: st.out,
                    },
                )
            } else {
                Ok(st)
            }
        },
        BfIR::PutByte => Ok(
            SState { cur: st.cur, mem: st.mem, ip: st.ip, out: st.out.push(st.mem[st.cur]) },
        ),
        _ => Ok(st),
    }
}

/// Evaluates the straight-line program `code` from position `i`.
pub open spec fn seval(code: Seq<BfIR>, i: int, inp: Seq<u8>, st: SState) -> Result<SState, SState>
    decreases code.len() - i,
{
    if i < 0 || i >= code.len() {
        Ok(st)
    } else {
        match sstep(code[i], inp, st) {
            Ok(st2) => seval(code, i + 1, inp, st2),
            Err(e) => Err(e),
        }
    }
}

/// Equality of outcomes up to the final cursor of a failing run: the
/// halting kind, memory, input position and output all agree.
pub open spec fn obs_eq(a: Result<SState, SState>, b: Result<SState, SState>) -> bool {
    match (a, b) {
        (Ok(x), Ok(y)) => x == y,
        (Err(x), Err(y)) => x.mem == y.mem && x.ip == y.ip && x.out == y.out,
        _ => false,
    }
}

/// Whether every run of cursor moves that the optimizer would fold,
/// scanning from `i` with `pending` the fold so far, sums to less than
/// 256 — the condition under which folding cursor moves is faithful.
pub open spec fn fits_from(code: Seq<BfIR>, i: int, pending: Option<BfIR>) -> bool
    decreases code.len() - i, pend_rank(pending),
{
    match pending {
        Some(p) => {
            if i < 0 || i >= code.len() {
                true
            } else if same_kind(p, code[i]) {
                &&& (is_ptr(p) ==> delta_of(p) + delta_of(code[i]) <= 255)
                &&& fits_from(code, i + 1, Some(combine(p, code[i])))
            } else {
                fits_from(code, i, None)
            }
        },
        None => {
            if i < 0 || i >= code.len() {
                true
            } else if is_delta(code[i]) {
                fits_from(code, i + 1, Some(code[i]))
            } else {
                fits_from(code, i + 1, None)
            }
        },
    }
}

/// Folding one more instruction into a run is faithful: the folded
/// instruction takes `st` where the two instructions in sequence take it,
/// up to the cursor of a failing state.
proof fn lemma_sstep_combine(p: BfIR, c: BfIR, inp: Seq<u8>, st: SState)
    requires
        same_kind(p, c),
        is_ptr(p) ==> delta_of(p) + delta_of(c) <= 255,
        0 <= st.cur < st.mem.len(),
    ensures
        obs_eq(
            sstep(combine(p, c), inp, st),
            match sstep(p, inp, st) {
                Ok(st2) => sstep(c, inp, st2),
                Err(e) => Err(e),
            },
        ),
{
    match p {
        BfIR::AddVal(dp) => {
            assert(st.mem.update(st.cur, wrap_add(st.mem[st.cur], dp)).update(
                st.cur,
                wrap_add(wrap_add(st.mem[st.cur], dp), delta_of(c)),
            ) =~= st.mem.update(st.cur, wrap_add(wrap_add(st.mem[st.cur], dp), delta_of(c))));
        },
        BfIR::SubVal(dp) => {
            assert(st.mem.update(st.cur, wrap_sub(st.mem[st.cur], dp)).update(
                st.cur,
                wrap_sub(wrap_sub(st.mem[st.cur], dp), delta_of(c)),
            ) =~= st.mem.update(st.cur, wrap_sub(wrap_sub(st.mem[st.cur], dp), delta_of(c))));
        },
        _ => {},
    }
}

/// A successful straight-line step keeps the cursor inside a buffer of
/// unchanged length.
proof fn lemma_sstep_in_range(ir: BfIR, inp: Seq<u8>, st: SState)
    requires
        0 <= st.cur < st.mem.len(),
    ensures
        sstep(ir, inp, st) matches Ok(st2) ==> 0 <= st2.cur < st2.mem.len() && st2.mem.len()
            == st.mem.len(),
{
}

/// The cursor-fit condition carries into the recursive fold.
proof fn lemma_combine_tag(p: BfIR, c: BfIR)
    requires
        same_kind(p, c),
    ensures
        tag(combine(p, c)) == tag(p),
        is_delta(combine(p, c)),
        is_ptr(p) && delta_of(p) + delta_of(c) <= 255 ==> delta_of(combine(p, c)) == delta_of(p)
            + delta_of(c),
    {
    lemma_with_delta_facts(p);
}

/// Evaluation past a prefix only looks at the rest of the sequence.
proof fn lemma_seval_shift(prefix: Seq<BfIR>, rest: Seq<BfIR>, j: int, inp: Seq<u8>, st: SState)
    requires
        0 <= j,
    ensures
        seval(prefix + rest, prefix.len() + j, inp, st) == seval(rest, j, inp, st),
    decreases rest.len() - j,
{
    let whole = prefix + rest;
    if j >= rest.len() {
    } else {
        assert(whole[prefix.len() + j] == rest[j]);
        match sstep(rest[j], inp, st) {
            Ok(st2) => {
                lemma_seval_shift(prefix, rest, j + 1, inp, st2);
            },
            Err(_) => {},
        }
    }
}

/// Evaluating a one-instruction prefix performs that instruction first.
proof fn lemma_seval_cons(p: BfIR, rest: Seq<BfIR>, inp: Seq<u8>, st: SState)
    ensures
        seval(seq![p] + rest, 0, inp, st) == (match sstep(p, inp, st) {
            Ok(st2) => seval(rest, 0, inp, st2),
            Err(e) => Err(e),
        }),
{
    let whole = seq![p] + rest;
    assert(whole[0] == p);
    assert(whole.len() == 1 + rest.len());
    match sstep(p, inp, st) {
        Ok(st2) => {
            lemma_seval_shift(seq![p], rest, 0, inp, st2);
        },
        Err(_) => {},
    }
}

/// The optimizer's output stays straight-line.
proof fn lemma_opt_from_straightline(code: Seq<BfIR>, i: int, pending: Option<BfIR>)
    requires
        0 <= i <= code.len(),
        straightline(code),
        pending matches Some(p) ==> is_delta(p),
    ensures
        straightline(opt_from(code, i, pending)),
    decreases code.len() - i, pend_rank(pending),
{
    match pending {
        Some(p) => {
            if i < code.len() && same_kind(p, code[i]) {
                lemma_combine_tag(p, code[i]);
                lemma_opt_from_straightline(code, i + 1, Some(combine(p, code[i])));
            } else if i < code.len() {
                lemma_opt_from_straightline(code, i, None);
                let r = seq![p] + opt_from(code, i, None);
                assert forall|k: int| 0 <= k < r.len() implies tag(#[trigger] r[k]) <= 5 by {
                    if k > 0 {
                        assert(r[k] == opt_from(code, i, None)[k - 1]);
                    }
                }
            } else {
                let r = opt_from(code, i, pending);
                assert(r == seq![p]);
            }
        },
        None => {
            if i >= code.len() {
            } else if is_delta(code[i]) {
                lemma_opt_from_straightline(code, i + 1, Some(code[i]));
            } else {
                lemma_opt_from_straightline(code, i + 1, None);
                let r = seq![code[i]] + opt_from(code, i + 1, None);
                assert forall|k: int| 0 <= k < r.len() implies tag(#[trigger] r[k]) <= 5 by {
                    if k > 0 {
                        assert(r[k] == opt_from(code, i + 1, None)[k - 1]);
                    }
                }
            }
        },
    }
}

/// The induction behind the preservation law: the optimizer's output from
/// scanning state `(i, pending)` evaluates as the pending instruction
/// followed by the unoptimized code from `i`.
proof fn lemma_opt_from_seval(
    code: Seq<BfIR>,
    i: int,
    pending: Option<BfIR>,
    inp: Seq<u8>,
    st: SState,
)
    requires
        0 <= i <= code.len(),
        straightline(code),
        fits_from(code, i, pending),
        pending matches Some(p) ==> is_delta(p),
        0 <= st.cur < st.mem.len(),
    ensures
        obs_eq(
            seval(opt_from(code, i, pending), 0, inp, st),
            match pending {
                Some(p) => match sstep(p, inp, st) {
                    Ok(st2) => seval(code, i, inp, st2),
                    Err(e) => Err(e),
                },
                None => seval(code, i, inp, st),
            },
        ),
    decreases code.len() - i, pend_rank(pending),
{
    match pending {
        Some(p) => {
            if i < code.len() && same_kind(p, code[i]) {
                let c = code[i];
                lemma_combine_tag(p, c);
                lemma_sstep_combine(p, c, inp, st);
                match sstep(combine(p, c), inp, st) {
                    Ok(stc) => {
                        lemma_opt_from_seval(code, i + 1, Some(combine(p, c)), inp, st);
                    },
                    Err(_) => {
                        lemma_opt_from_seval(code, i + 1, Some(combine(p, c)), inp, st);
                    },
                }
            } else if i < code.len() {
                let rest = opt_from(code, i, None);
                lemma_seval_cons(p, rest, inp, st);
                lemma_sstep_in_range(p, inp, st);
                match sstep(p, inp, st) {
                    Ok(st2) => {
                        lemma_opt_from_seval(code, i, None, inp, st2);
                    },
                    Err(_) => {},
                }
            } else {
                let rest = opt_from(code, i, None);
                assert(rest == Seq::<BfIR>::empty());
                assert(opt_from(code, i, pending) == seq![p]);
                assert(seq![p] + rest =~= seq![p]);
                lemma_seval_cons(p, rest, inp, st);
            }
        },
        None => {
            if i >= code.len() {
            } else if is_delta(code[i]) {
                lemma_opt_from_seval(code, i + 1, Some(code[i]), inp, st);
            } else {
                let rest = opt_from(code, i + 1, None);
                lemma_seval_cons(code[i], rest, inp, st);
                lemma_sstep_in_range(code[i], inp, st);
                match sstep(code[i], inp, st) {
                    Ok(st2) => {
                        lemma_opt_from_seval(code, i + 1, None, inp, st2);
                    },
                    Err(_) => {},
                }
            }
        },
    }
}

/// Step counts of the machine compose.
pub proof fn lemma_run_n_add(code: Seq<BfIR>, inp: Seq<u8>, c: Config, m: nat, n: nat)
    ensures
        run_n(code, inp, c, m + n) == (match run_n(code, inp, c, m) {
            Step::More(c2) => run_n(code, inp, c2, n),
            halted => halted,
        }),
    decreases n,
{
    if n != 0 {
        lemma_run_n_add(code, inp, c, m, (n - 1) as nat);
        assert(m + n - 1 == m + ((n - 1) as nat));
    }
}

/// Whether `n` machine steps reach an out-of-bounds halt at program
/// counter `pcf` whose state is `e` up to the stack.
pub open spec fn reaches_oob(
    code: Seq<BfIR>,
    inp: Seq<u8>,
    c: Config,
    e: SState,
    n: nat,
    pcf: int,
) -> bool {
    run_n(code, inp, c, n) == Step::Oob(mk_cfg(pcf, e.cur, e.ip, e.mem, e.out, c.stk))
}

/// The stepwise machine follows straight-line evaluation: when `seval`
/// halts, some number of machine steps reaches the corresponding halt.
proof fn lemma_bridge(code: Seq<BfIR>, inp: Seq<u8>, c: Config)
    requires
        straightline(code),
        0 <= c.pc <= code.len(),
        0 <= c.cur < c.mem.len(),
    ensures
        seval(code, c.pc, inp, sst(c)) matches Ok(st2) ==> (exists|n: nat|
            run_n(code, inp, c, n) == Step::Done(
                mk_cfg(code.len() as int, st2.cur, st2.ip, st2.mem, st2.out, c.stk),
            )),
        seval(code, c.pc, inp, sst(c)) matches Err(e) ==> (exists|n: nat, pcf: int|
            reaches_oob(code, inp, c, e, n, pcf)),
    decreases code.len() - c.pc,
{
    let st0 = sst(c);
    assert(run_n(code, inp, c, 0) == Step::More(c));
    if c.pc == code.len() {
        assert(run_n(code, inp, c, 1) == Step::Done(c));
        assert(mk_cfg(code.len() as int, st0.cur, st0.ip, st0.mem, st0.out, c.stk) =~= c);
    } else {
        let op = code[c.pc];
        assert(tag(op) <= 5);
        lemma_sstep_in_range(op, inp, st0);
        match sstep(op, inp, st0) {
            Ok(st2) => {
                let c2 = mk_cfg(c.pc + 1, st2.cur, st2.ip, st2.mem, st2.out, c.stk);
                assert(step(code, inp, c) =~= Step::More(c2));
                assert(sst(c2) =~= st2);
                lemma_bridge(code, inp, c2);
                assert(run_n(code, inp, c, 1) == Step::More(c2));
                let r = seval(code, c.pc, inp, st0);
                assert(r == seval(code, c.pc + 1, inp, st2));
                if r is Ok {
                    let st3 = r->Ok_0;
                    let fin = mk_cfg(code.len() as int, st3.cur, st3.ip, st3.mem, st3.out, c.stk);
                    let n = choose|n: nat| run_n(code, inp, c2, n) == Step::Done(fin);
                    lemma_run_n_add(code, inp, c, 1, n);
                    assert(run_n(code, inp, c, 1 + n) == Step::Done(fin));
                } else {
                    let e = r->Err_0;
                    let (n, pcf) = choose|n: nat, pcf: int| reaches_oob(code, inp, c2, e, n, pcf);
                    lemma_run_n_add(code, inp, c, 1, n);
                    assert(reaches_oob(code, inp, c, e, 1 + n, pcf));
                }
            },
            Err(e) => {
                assert(step(code, inp, c) == Step::Oob(c));
                assert(run_n(code, inp, c, 1) == Step::Oob(c));
                assert(mk_cfg(c.pc, e.cur, e.ip, e.mem, e.out, c.stk) =~= c);
                assert(reaches_oob(code, inp, c, e, 1, c.pc));
            },
        }
    }
}

/// Whether `n` steps of the machine on `code` and `m` steps of the
/// machine on `codeo` reach halts of the same kind with the same memory,
/// input position and output (and, for normal halts, the same cursor).
pub open spec fn outcomes_agree(
    code: Seq<BfIR>,
    codeo: Seq<BfIR>,
    inp: Seq<u8>,
    c: Config,
    co: Config,
    n: nat,
    m: nat,
) -> bool {
    match (run_n(code, inp, c, n), run_n(codeo, inp, co, m)) {
        (Step::Done(a), Step::Done(b)) => a.cur == b.cur && a.mem == b.mem && a.ip == b.ip
            && a.out == b.out,
        (Step::Oob(a), Step::Oob(b)) => a.mem == b.mem && a.ip == b.ip && a.out == b.out,
        _ => false,
    }
}

/// Law (the faithful part of optimize-and-run): a straight-line program
/// whose cursor runs fit in a byte evaluates, after optimization, to the
/// same outcome as before it — the same halting kind and the same memory,
/// input position and output, so in particular byte-identical output.
/// Only the final cursor of a failing run may differ.  On programs whose
/// cursor runs sum to 256 or more the optimizer's modulo-256 folding moves
/// the cursor differently and no such law holds.
pub proof fn lemma_optimize_preserves_straightline(code: Seq<BfIR>, inp: Seq<u8>, st: SState)
    requires
        straightline(code),
        fits_from(code, 0, None),
        0 <= st.cur < st.mem.len(),
    ensures
        obs_eq(seval(opt_spec(code), 0, inp, st), seval(code, 0, inp, st)),
{
    lemma_opt_from_seval(code, 0, None, inp, st);
}

/// Law (engine level): run the same straight-line program, cursor runs
/// fitting in a byte, on two machines from matching start states — one on
/// the code as compiled, one on its optimized form.  Both halt the same
/// way, with the same memory, the same amount of input consumed, and
/// byte-identical output.
pub proof fn lemma_optimize_preserves_outcome(code: Seq<BfIR>, inp: Seq<u8>, c: Config, co: Config)
    requires
        straightline(code),
        fits_from(code, 0, None),
        c.pc == 0,
        co.pc == 0,
        co.stk == c.stk,
        sst(co) == sst(c),
        0 <= c.cur < c.mem.len(),
    ensures
        exists|n: nat, m: nat| outcomes_agree(code, opt_spec(code), inp, c, co, n, m),
{
    let st0 = sst(c);
    let codeo = opt_spec(code);
    lemma_optimize_preserves_straightline(code, inp, st0);
    lemma_opt_from_straightline(code, 0, None);
    lemma_bridge(code, inp, c);
    lemma_bridge(codeo, inp, co);
    let r = seval(code, 0, inp, st0);
    let ro = seval(codeo, 0, inp, st0);
    if r is Ok {
        let st2 = r->Ok_0;
        let fin = mk_cfg(code.len() as int, st2.cur, st2.ip, st2.mem, st2.out, c.stk);
        let n = choose|n: nat| run_n(code, inp, c, n) == Step::Done(fin);
        let st2o = ro->Ok_0;
        assert(st2o == st2);
        let fino = mk_cfg(codeo.len() as int, st2o.cur, st2o.ip, st2o.mem, st2o.out, co.stk);
        let m = choose|m: nat| run_n(codeo, inp, co, m) == Step::Done(fino);
        assert(outcomes_agree(code, codeo, inp, c, co, n, m));
    } else {
        let e = r->Err_0;
        let (n, pcf) = choose|n: nat, pcf: int| reaches_oob(code, inp, c, e, n, pcf);
        let eo = ro->Err_0;
        let (m, pcfo) = choose|m: nat, pcfo: int| reaches_oob(codeo, inp, co, eo, m, pcfo);
        assert(outcomes_agree(code, codeo, inp, c, co, n, m));
    }
}

} // verus!
