use vstd::prelude::*;
use vstd::string::StrSliceExecFns;

use crate::errors::{CompileError, CompileErrorKind};

verus! {

/// One instruction of the intermediate representation.
///
/// The four delta-carrying instructions mutate the current cell modulo 256
/// (`AddVal`, `SubVal`) or move the cursor (`AddPtr`, `SubPtr`); `GetByte`
/// and `PutByte` exchange one byte with the streams; `Jz` and `Jnz` bracket
/// a structurally balanced loop.
#[derive(Debug, Clone, Copy, PartialEq, Eq, Structural)]
pub enum BfIR {
    AddVal(u8),
    SubVal(u8),
    AddPtr(u8),
    SubPtr(u8),
    GetByte,
    PutByte,
    Jz,
    Jnz,
}

/// Numbers the variants, so that specifications can speak of two
/// instructions being of the same kind.
pub open spec fn tag(ir: BfIR) -> int {
    match ir {
        BfIR::AddVal(_) => 0,
        BfIR::SubVal(_) => 1,
        BfIR::AddPtr(_) => 2,
        BfIR::SubPtr(_) => 3,
        BfIR::GetByte => 4,
        BfIR::PutByte => 5,
        BfIR::Jz => 6,
        BfIR::Jnz => 7,
    }
}

/// Whether an instruction carries a delta that the optimizer may fold.
pub open spec fn is_delta(ir: BfIR) -> bool {
    tag(ir) <= 3
}

/// The delta carried by a foldable instruction; 0 for the others.
pub open spec fn delta_of(ir: BfIR) -> u8 {
    match ir {
        BfIR::AddVal(x) => x,
        BfIR::SubVal(x) => x,
        BfIR::AddPtr(x) => x,
        BfIR::SubPtr(x) => x,
        _ => 0,
    }
}

/// The same instruction with its delta replaced by `d`; non-delta
/// instructions are returned unchanged.
pub open spec fn with_delta(ir: BfIR, d: u8) -> BfIR {
    match ir {
        BfIR::AddVal(_) => BfIR::AddVal(d),
        BfIR::SubVal(_) => BfIR::SubVal(d),
        BfIR::AddPtr(_) => BfIR::AddPtr(d),
        BfIR::SubPtr(_) => BfIR::SubPtr(d),
        _ => ir,
    }
}

/// Whether `b` may be folded into a run anchored at `a`.
pub open spec fn same_kind(a: BfIR, b: BfIR) -> bool {
    is_delta(a) && tag(a) == tag(b)
}

/// Addition of two byte deltas modulo 256.
pub open spec fn wrap_add(a: u8, b: u8) -> u8 {
    if a + b > 255 {
        (a + b - 256) as u8
    } else {
        (a + b) as u8
    }
}

/// The instruction standing for a run anchor `p` followed by one more
/// same-kind instruction `c`: the anchor with the deltas folded together.
pub open spec fn combine(p: BfIR, c: BfIR) -> BfIR {
    with_delta(p, wrap_add(delta_of(p), delta_of(c)))
}

/// The result of scanning `s` from position `i` onward, with `code` the
/// instructions already emitted, `stk` the positions (line, column) of the
/// still-open brackets, and `line`/`col` the current source position.
///
/// This is the whole front end as one mathematical function: `+ - > < , .`
/// map to one instruction each, other characters are comments, `[` opens a
/// loop and `]` closes the innermost one.  A `]` with no open bracket fails
/// at once; a bracket still open at the end of the text fails at the
/// position of the most recently opened one.
pub open spec fn compile_from(
    s: Seq<char>,
    i: int,
    code: Seq<BfIR>,
    stk: Seq<(u32, u32)>,
    line: int,
    col: int,
) -> Result<Seq<BfIR>, CompileError>
    decreases s.len() - i,
{
    if i < 0 || i >= s.len() {
        if stk.len() > 0 {
            Err(CompileError {
                line: stk.last().0,
                col: stk.last().1,
                kind: CompileErrorKind::UnclosedLeftBracket,
            })
        } else {
            Ok(code)
        }
    } else {
        let c2: int = col + 1;
        let ch = s[i];
        if ch == '\n' {
            compile_from(s, i + 1, code, stk, line + 1, 0)
        } else if ch == '+' {
            compile_from(s, i + 1, code.push(BfIR::AddVal(1)), stk, line, c2)
        } else if ch == '-' {
            compile_from(s, i + 1, code.push(BfIR::SubVal(1)), stk, line, c2)
        } else if ch == '>' {
            compile_from(s, i + 1, code.push(BfIR::AddPtr(1)), stk, line, c2)
        } else if ch == '<' {
            compile_from(s, i + 1, code.push(BfIR::SubPtr(1)), stk, line, c2)
        } else if ch == ',' {
            compile_from(s, i + 1, code.push(BfIR::GetByte), stk, line, c2)
        } else if ch == '.' {
            compile_from(s, i + 1, code.push(BfIR::PutByte), stk, line, c2)
        } else if ch == '[' {
            compile_from(
                s,
                i + 1,
                code.push(BfIR::Jz),
                stk.push((line as u32, c2 as u32)),
                line,
                c2,
            )
        } else if ch == ']' {
            if stk.len() == 0 {
                Err(CompileError {
                    line: line as u32,
                    col: c2 as u32,
                    kind: CompileErrorKind::UnexpectedRightBracket,
                })
            } else {
                compile_from(s, i + 1, code.push(BfIR::Jnz), stk.drop_last(), line, c2)
            }
        } else {
            compile_from(s, i + 1, code, stk, line, c2)
        }
    }
}

/// What `compile` returns on the source text `s`.
pub open spec fn compile_spec(s: Seq<char>) -> Result<Seq<BfIR>, CompileError> {
    compile_from(s, 0, Seq::empty(), Seq::empty(), 1, 1)
}

/// Translates source text into the instruction sequence, or fails with the
/// first structural error.  The result is exactly `compile_spec(src@)`.
pub fn compile(src: &str) -> (r: Result<Vec<BfIR>, CompileError>)
    requires
        src@.len() + 2 < u32::MAX,
    ensures
        compile_spec(src@) matches Ok(code) ==> (r matches Ok(v) && v@ == code),
        compile_spec(src@) matches Err(e) ==> (r matches Err(e2) && e2 == e),
{
    let n: usize = src.unicode_len();
    let mut code: Vec<BfIR> = Vec::new();
    let mut stk: Vec<(u32, u32)> = Vec::new();
    let mut line: u32 = 1;
    let mut col: u32 = 1;
    let mut i: usize = 0;
    while i < n
        invariant
            n == src@.len(),
            i <= n,
            n + 2 < u32::MAX,
            line <= i + 1,
            col <= i + 1,
            compile_from(src@, i as int, code@, stk@, line as int, col as int)
                == compile_spec(src@),
        decreases n - i,
    {
        let ghost pre_code = code@;
        let ghost pre_stk = stk@;
        let ghost pre_line: int = line as int;
        let ghost pre_col: int = col as int;
        let ch = src.get_char(i);
        col = col + 1;
        match ch {
            '\n' => {
                line = line + 1;
                col = 0;
            },
            '+' => code.push(BfIR::AddVal(1)),
            '-' => code.push(BfIR::SubVal(1)),
            '>' => code.push(BfIR::AddPtr(1)),
            '<' => code.push(BfIR::SubPtr(1)),
            ',' => code.push(BfIR::GetByte),
            '.' => code.push(BfIR::PutByte),
            '[' => {
                stk.push((line, col));
                code.push(BfIR::Jz);
            },
            ']' => {
                match stk.pop() {
                    Some(_) => code.push(BfIR::Jnz),
                    None => {
                        return Err(CompileError {
                            line,
                            col,
                            kind: CompileErrorKind::UnexpectedRightBracket,
                        });
                    },
                }
            },
            _ => {},
        }
        proof {
            assert(compile_from(src@, i as int, pre_code, pre_stk, pre_line, pre_col)
                == compile_from(src@, i as int + 1, code@, stk@, line as int, col as int));
        }
        i = i + 1;
    }
    match stk.pop() {
        Some(p) => Err(CompileError {
            line: p.0,
            col: p.1,
            kind: CompileErrorKind::UnclosedLeftBracket,
        }),
        None => Ok(code),
    }
}

/// Whether the brackets of the source text, scanned from `i` with `d`
/// brackets currently open, close in order and leave none open.
pub open spec fn bal_from(s: Seq<char>, i: int, d: int) -> bool
    decreases s.len() - i,
{
    if i < 0 || i >= s.len() {
        d == 0
    } else if s[i] == '[' {
        bal_from(s, i + 1, d + 1)
    } else if s[i] == ']' {
        d > 0 && bal_from(s, i + 1, d - 1)
    } else {
        bal_from(s, i + 1, d)
    }
}

/// Whether the brackets of the source text are balanced.
pub open spec fn balanced(s: Seq<char>) -> bool {
    bal_from(s, 0, 0)
}

/// Whether the loop instructions of `code`, scanned from `i` with `d`
/// loops currently open, nest consistently: every `Jnz` closes a `Jz` that
/// precedes it, and every `Jz` is closed.
pub open spec fn nest_from(code: Seq<BfIR>, i: int, d: int) -> bool
    decreases code.len() - i,
{
    if i < 0 || i >= code.len() {
        d == 0
    } else if code[i] == BfIR::Jz {
        nest_from(code, i + 1, d + 1)
    } else if code[i] == BfIR::Jnz {
        d > 0 && nest_from(code, i + 1, d - 1)
    } else {
        nest_from(code, i + 1, d)
    }
}

/// Whether the loop instructions of `code` nest consistently.
pub open spec fn well_nested(code: Seq<BfIR>) -> bool {
    nest_from(code, 0, 0)
}

proof fn lemma_compile_from_props(
    s: Seq<char>,
    i: int,
    code: Seq<BfIR>,
    stk: Seq<(u32, u32)>,
    line: int,
    col: int,
)
    requires
        0 <= i <= s.len(),
    ensures
        bal_from(s, i, stk.len() as int) ==> compile_from(s, i, code, stk, line, col) matches Ok(
            _,
        ),
        compile_from(s, i, code, stk, line, col) matches Ok(fin) ==> {
            &&& code.len() <= fin.len()
            &&& fin.len() <= code.len() + s.len() - i
            &&& fin.subrange(0, code.len() as int) == code
            &&& nest_from(fin, code.len() as int, stk.len() as int)
        },
    decreases s.len() - i, 1int,
{
    if i >= s.len() {
        if stk.len() == 0 {
            assert(code.subrange(0, code.len() as int) =~= code);
            assert(nest_from(code, code.len() as int, 0));
        }
    } else {
        let ch = s[i];
        let c2: int = col + 1;
        if ch == '\n' {
            lemma_compile_from_step(s, i, code, stk, line, col, code, stk, line + 1, 0);
        } else if ch == '+' {
            lemma_compile_from_step(
                s, i, code, stk, line, col, code.push(BfIR::AddVal(1)), stk, line, c2);
        } else if ch == '-' {
            lemma_compile_from_step(
                s, i, code, stk, line, col, code.push(BfIR::SubVal(1)), stk, line, c2);
        } else if ch == '>' {
            lemma_compile_from_step(
                s, i, code, stk, line, col, code.push(BfIR::AddPtr(1)), stk, line, c2);
        } else if ch == '<' {
            lemma_compile_from_step(
                s, i, code, stk, line, col, code.push(BfIR::SubPtr(1)), stk, line, c2);
        } else if ch == ',' {
            lemma_compile_from_step(
                s, i, code, stk, line, col, code.push(BfIR::GetByte), stk, line, c2);
        } else if ch == '.' {
            lemma_compile_from_step(
                s, i, code, stk, line, col, code.push(BfIR::PutByte), stk, line, c2);
        } else if ch == '[' {
            lemma_compile_from_step(
                s, i, code, stk, line, col, code.push(BfIR::Jz),
                stk.push((line as u32, c2 as u32)), line, c2);
        } else if ch == ']' {
            if stk.len() > 0 {
                lemma_compile_from_step(
                    s, i, code, stk, line, col, code.push(BfIR::Jnz), stk.drop_last(), line, c2);
            }
        } else {
            lemma_compile_from_step(s, i, code, stk, line, col, code, stk, line, c2);
        }
    }
}

/// One scanning step of the induction behind the compiler's laws: the
/// claims about position `i` follow from the claims about position `i + 1`
/// with the given successor state.
proof fn lemma_compile_from_step(
    s: Seq<char>,
    i: int,
    code: Seq<BfIR>,
    stk: Seq<(u32, u32)>,
    line: int,
    col: int,
    code2: Seq<BfIR>,
    stk2: Seq<(u32, u32)>,
    line2: int,
    col2: int,
)
    requires
        0 <= i < s.len(),
        compile_from(s, i, code, stk, line, col) == compile_from(
            s,
            i + 1,
            code2,
            stk2,
            line2,
            col2,
        ),
        bal_from(s, i, stk.len() as int) ==> bal_from(s, i + 1, stk2.len() as int),
        code2 == code || code2 == code.push(code2.last()),
        code2 == code ==> stk2.len() == stk.len(),
        code2 != code ==> {
            ||| (code2.last() == BfIR::Jz && stk2.len() == stk.len() + 1)
            ||| (code2.last() == BfIR::Jnz && stk.len() > 0 && stk2.len() == stk.len() - 1)
            ||| (code2.last() != BfIR::Jz && code2.last() != BfIR::Jnz && stk2.len() == stk.len())
        },
    ensures
        bal_from(s, i, stk.len() as int) ==> compile_from(s, i, code, stk, line, col) matches Ok(
            _,
        ),
        compile_from(s, i, code, stk, line, col) matches Ok(fin) ==> {
            &&& code.len() <= fin.len()
            &&& fin.len() <= code.len() + s.len() - i
            &&& fin.subrange(0, code.len() as int) == code
            &&& nest_from(fin, code.len() as int, stk.len() as int)
        },
    decreases s.len() - i, 0int,
{
    lemma_compile_from_props(s, i + 1, code2, stk2, line2, col2);
    let r = compile_from(s, i + 1, code2, stk2, line2, col2);
    if r is Ok {
        let fin = r->Ok_0;
        let l: int = code.len() as int;
        assert(fin.subrange(0, code2.len() as int) == code2);
        assert(forall|k: int|
            0 <= k < code2.len() ==> fin[k] == #[trigger] code2[k]) by {
            assert(forall|k: int|
                0 <= k < code2.len() ==> #[trigger] fin.subrange(0, code2.len() as int)[k]
                    == fin[k]);
        }
        if code2 != code {
            assert(fin.subrange(0, l) =~= code);
            assert(fin[l] == code2.last());
        } else {
            assert(fin.subrange(0, l) =~= code);
        }
        assert(nest_from(fin, l, stk.len() as int));
    }
}


/// The sequence a pending run anchor stands for: one instruction, or none.
pub open spec fn pending_seq(pending: Option<BfIR>) -> Seq<BfIR> {
    match pending {
        Some(p) => seq![p],
        None => Seq::empty(),
    }
}

/// Orders the optimizer's scanning states, for termination; doubles as the
/// length of `pending_seq`.
pub open spec fn pend_rank(pending: Option<BfIR>) -> int {
    match pending {
        Some(_) => 1,
        None => 0,
    }
}

/// One left-to-right pass of the peephole optimizer over `code` from
/// position `i`, with `pending` the instruction the current run of
/// same-kind delta instructions has been folded into so far.
///
/// Every maximal run of consecutive same-kind delta instructions becomes a
/// single instruction whose delta is the modulo-256 sum of the run's
/// deltas — a folded delta of zero is kept, not elided — and every other
/// instruction is copied through unchanged.
pub open spec fn opt_from(code: Seq<BfIR>, i: int, pending: Option<BfIR>) -> Seq<BfIR>
    decreases code.len() - i, pend_rank(pending),
{
    match pending {
        Some(p) => {
            if i < 0 || i >= code.len() {
                seq![p]
            } else if same_kind(p, code[i]) {
                opt_from(code, i + 1, Some(combine(p, code[i])))
            } else {
                seq![p] + opt_from(code, i, None)
            }
        },
        None => {
            if i < 0 || i >= code.len() {
                Seq::empty()
            } else if is_delta(code[i]) {
                opt_from(code, i + 1, Some(code[i]))
            } else {
                seq![code[i]] + opt_from(code, i + 1, None)
            }
        },
    }
}

/// What `optimize` leaves in place of the sequence `code`.
pub open spec fn opt_spec(code: Seq<BfIR>) -> Seq<BfIR> {
    opt_from(code, 0, None)
}

/// Runtime counterpart of `is_delta`.
fn is_delta_exec(ir: BfIR) -> (r: bool)
    ensures
        r == is_delta(ir),
{
    match ir {
        BfIR::AddVal(_) => true,
        BfIR::SubVal(_) => true,
        BfIR::AddPtr(_) => true,
        BfIR::SubPtr(_) => true,
        _ => false,
    }
}

/// Runtime counterpart of `same_kind`.
fn same_kind_exec(a: BfIR, b: BfIR) -> (r: bool)
    ensures
        r == same_kind(a, b),
{
    match (a, b) {
        (BfIR::AddVal(_), BfIR::AddVal(_)) => true,
        (BfIR::SubVal(_), BfIR::SubVal(_)) => true,
        (BfIR::AddPtr(_), BfIR::AddPtr(_)) => true,
        (BfIR::SubPtr(_), BfIR::SubPtr(_)) => true,
        _ => false,
    }
}

/// Runtime counterpart of `delta_of`.
fn delta_exec(ir: BfIR) -> (r: u8)
    ensures
        r == delta_of(ir),
{
    match ir {
        BfIR::AddVal(x) => x,
        BfIR::SubVal(x) => x,
        BfIR::AddPtr(x) => x,
        BfIR::SubPtr(x) => x,
        _ => 0,
    }
}

/// Runtime counterpart of `with_delta`.
fn with_delta_exec(ir: BfIR, d: u8) -> (r: BfIR)
    ensures
        r == with_delta(ir, d),
{
    match ir {
        BfIR::AddVal(_) => BfIR::AddVal(d),
        BfIR::SubVal(_) => BfIR::SubVal(d),
        BfIR::AddPtr(_) => BfIR::AddPtr(d),
        BfIR::SubPtr(_) => BfIR::SubPtr(d),
        _ => ir,
    }
}

pub(crate) proof fn lemma_with_delta_facts(ir: BfIR)
    ensures
        with_delta(ir, delta_of(ir)) == ir,
        forall|d: u8| tag(#[trigger] with_delta(ir, d)) == tag(ir),
        forall|d: u8| is_delta(ir) ==> delta_of(#[trigger] with_delta(ir, d)) == d,
{
}

/// Rewrites the sequence in place: every maximal run of consecutive
/// same-kind delta instructions is collapsed into one instruction carrying
/// the modulo-256 sum of the run's deltas (a folded delta of zero is kept);
/// all other instructions are copied through unchanged.  The result is
/// exactly `opt_spec` of the input, and never longer than the input.
pub fn optimize(code: &mut Vec<BfIR>)
    ensures
        final(code)@ == opt_spec(old(code)@),
{
    let ghost orig = old(code)@;
    let n: usize = code.len();
    let mut i: usize = 0;
    let mut pc: usize = 0;
    while i < n
        invariant
            n == code@.len(),
            n == orig.len(),
            pc <= i <= n,
            forall|k: int| i <= k < n ==> code@[k] == orig[k],
            opt_spec(orig) == code@.subrange(0, pc as int) + opt_from(orig, i as int, None),
        decreases n - i,
    {
        let ghost prefix = code@.subrange(0, pc as int);
        let op: BfIR = code[i];
        if is_delta_exec(op) {
            let mut x: u8 = delta_exec(op);
            let mut j: usize = i + 1;
            proof {
                lemma_with_delta_facts(op);
            }
            while j < n && same_kind_exec(op, code[j])
                invariant
                    i < j <= n,
                    n == code@.len(),
                    n == orig.len(),
                    pc <= i < n,
                    forall|k: int| i <= k < n ==> code@[k] == orig[k],
                    op == orig[i as int],
                    is_delta(op),
                    opt_from(orig, i as int, None) == opt_from(
                        orig,
                        j as int,
                        Some(with_delta(op, x)),
                    ),
                decreases n - j,
            {
                let d: u8 = delta_exec(code[j]);
                proof {
                    lemma_with_delta_facts(op);
                    assert(combine(with_delta(op, x), orig[j as int]) == with_delta(
                        op,
                        wrap_add(x, d),
                    ));
                }
                x = x.wrapping_add(d);
                j = j + 1;
            }
            let folded: BfIR = with_delta_exec(op, x);
            proof {
                lemma_with_delta_facts(op);
                if j < n {
                    assert(!same_kind(with_delta(op, x), orig[j as int]));
                    assert(opt_from(orig, j as int, Some(with_delta(op, x))) == seq![folded]
                        + opt_from(orig, j as int, None));
                } else {
                    assert(seq![folded] + opt_from(orig, j as int, None) =~= seq![folded]);
                }
                assert(opt_spec(orig) == prefix + (seq![folded] + opt_from(
                    orig,
                    j as int,
                    None,
                )));
                assert(prefix + (seq![folded] + opt_from(orig, j as int, None)) =~= (prefix
                    + seq![folded]) + opt_from(orig, j as int, None));
            }
            code[pc] = folded;
            proof {
                assert(code@.subrange(0, pc as int + 1) =~= prefix + seq![folded]);
            }
            pc = pc + 1;
            i = j;
        } else {
            proof {
                assert(opt_from(orig, i as int, None) == seq![op] + opt_from(
                    orig,
                    i as int + 1,
                    None,
                ));
                assert(prefix + (seq![op] + opt_from(orig, i as int + 1, None)) =~= (prefix
                    + seq![op]) + opt_from(orig, i as int + 1, None));
            }
            code[pc] = op;
            proof {
                assert(code@.subrange(0, pc as int + 1) =~= prefix + seq![op]);
            }
            pc = pc + 1;
            i = i + 1;
        }
    }
    proof {
        assert(code@.subrange(0, pc as int) + opt_from(orig, n as int, None) =~= code@.subrange(
            0,
            pc as int,
        ));
    }
    code.truncate(pc);
}

/// No two neighbouring instructions of `code` could still be folded.
pub open spec fn no_adj(code: Seq<BfIR>) -> bool {
    forall|j: int| 0 <= j < code.len() - 1 ==> !same_kind(#[trigger] code[j], code[j + 1])
}

proof fn lemma_opt_from_shape(code: Seq<BfIR>, i: int, pending: Option<BfIR>)
    requires
        0 <= i <= code.len(),
    ensures
        ({
            let r = opt_from(code, i, pending);
            &&& no_adj(r)
            &&& (pending matches Some(p) ==> r.len() > 0 && tag(r[0]) == tag(p))
            &&& (pending is None && i < code.len() ==> r.len() > 0 && tag(r[0]) == tag(code[i]))
        }),
    decreases code.len() - i, pend_rank(pending),
{
    match pending {
        Some(p) => {
            if i < code.len() && same_kind(p, code[i]) {
                lemma_opt_from_shape(code, i + 1, Some(combine(p, code[i])));
                lemma_with_delta_facts(p);
            } else if i < code.len() {
                lemma_opt_from_shape(code, i, None);
                let r2 = opt_from(code, i, None);
                let r = seq![p] + r2;
                assert(!same_kind(p, r2[0]));
                assert forall|j: int| 0 <= j < r.len() - 1 implies !same_kind(
                    #[trigger] r[j],
                    r[j + 1],
                ) by {
                    if j == 0 {
                        assert(r[0] == p && r[1] == r2[0]);
                    } else {
                        assert(r[j] == r2[j - 1] && r[j + 1] == r2[j]);
                    }
                }
            } else {
                let r = opt_from(code, i, pending);
                assert(r == seq![p]);
                assert(r.len() == 1);
            }
        },
        None => {
            if i >= code.len() {
            } else if is_delta(code[i]) {
                lemma_opt_from_shape(code, i + 1, Some(code[i]));
            } else {
                lemma_opt_from_shape(code, i + 1, None);
                let r2 = opt_from(code, i + 1, None);
                let r = seq![code[i]] + r2;
                assert(!same_kind(code[i], r2[0]));
                assert forall|j: int| 0 <= j < r.len() - 1 implies !same_kind(
                    #[trigger] r[j],
                    r[j + 1],
                ) by {
                    if j == 0 {
                        assert(r[0] == code[i] && r[1] == r2[0]);
                    } else {
                        assert(r[j] == r2[j - 1] && r[j + 1] == r2[j]);
                    }
                }
            }
        },
    }
}

proof fn lemma_opt_from_noadj(code: Seq<BfIR>, i: int, pending: Option<BfIR>)
    requires
        0 <= i <= code.len(),
        forall|j: int| i <= j < code.len() - 1 ==> !same_kind(#[trigger] code[j], code[j + 1]),
        pending matches Some(p) ==> (i < code.len() ==> !same_kind(p, code[i])),
    ensures
        opt_from(code, i, pending) == pending_seq(pending) + code.subrange(i, code.len() as int),
    decreases code.len() - i, pend_rank(pending),
{
    let tail = code.subrange(i, code.len() as int);
    match pending {
        Some(p) => {
            if i >= code.len() {
                assert(pending_seq(pending) + tail =~= seq![p]);
            } else {
                lemma_opt_from_noadj(code, i, None);
                assert(seq![p] + (pending_seq(None) + tail) =~= pending_seq(pending) + tail);
            }
        },
        None => {
            if i >= code.len() {
                assert(pending_seq(pending) + tail =~= Seq::<BfIR>::empty());
            } else if is_delta(code[i]) {
                lemma_opt_from_noadj(code, i + 1, Some(code[i]));
                assert(seq![code[i]] + code.subrange(i + 1, code.len() as int) =~= tail);
                assert(pending_seq(None) + tail =~= tail);
            } else {
                lemma_opt_from_noadj(code, i + 1, None);
                assert(seq![code[i]] + (pending_seq(None) + code.subrange(
                    i + 1,
                    code.len() as int,
                )) =~= pending_seq(pending) + tail);
            }
        },
    }
}

proof fn lemma_opt_from_len(code: Seq<BfIR>, i: int, pending: Option<BfIR>)
    requires
        0 <= i <= code.len(),
    ensures
        opt_from(code, i, pending).len() <= pend_rank(pending) + code.len() - i,
    decreases code.len() - i, pend_rank(pending),
{
    match pending {
        Some(p) => {
            if i < code.len() && same_kind(p, code[i]) {
                lemma_opt_from_len(code, i + 1, Some(combine(p, code[i])));
            } else if i < code.len() {
                lemma_opt_from_len(code, i, None);
            }
        },
        None => {
            if i >= code.len() {
            } else if is_delta(code[i]) {
                lemma_opt_from_len(code, i + 1, Some(code[i]));
            } else {
                lemma_opt_from_len(code, i + 1, None);
            }
        },
    }
}

/// Law: the optimizer is idempotent — one pass already reaches a fixed
/// point, so applying it twice equals applying it once, for any input
/// sequence.
pub proof fn lemma_optimize_idempotent(code: Seq<BfIR>)
    ensures
        opt_spec(opt_spec(code)) == opt_spec(code),
{
    lemma_opt_from_shape(code, 0, None);
    let r = opt_spec(code);
    lemma_opt_from_noadj(r, 0, None);
    assert(pending_seq(None) + r.subrange(0, r.len() as int) =~= r);
}

/// Law: an already-folded sequence is a fixed point of the optimizer.  On
/// such a program an engine built with optimization enabled runs code
/// identical to one built without it, so the two produce byte-identical
/// output.
pub proof fn lemma_optimize_fixed_point(code: Seq<BfIR>)
    requires
        no_adj(code),
    ensures
        opt_spec(code) == code,
{
    lemma_opt_from_noadj(code, 0, None);
    assert(pending_seq(None) + code.subrange(0, code.len() as int) =~= code);
}

/// Law: the optimizer never lengthens a sequence.
pub proof fn lemma_optimize_no_longer(code: Seq<BfIR>)
    ensures
        opt_spec(code).len() <= code.len(),
{
    lemma_opt_from_len(code, 0, None);
}

/// Law: a source text whose brackets are balanced always compiles, and the
/// loop instructions of the resulting sequence nest consistently: every
/// `Jnz` closes a `Jz` that precedes it, with no overlap.
pub proof fn lemma_balanced_compiles(s: Seq<char>)
    requires
        balanced(s),
    ensures
        compile_spec(s) matches Ok(_),
        compile_spec(s) matches Ok(code) ==> well_nested(code),
{
    lemma_compile_from_props(s, 0, Seq::empty(), Seq::empty(), 1, 1);
}

/// A successful compilation emits at most one instruction per source
/// character, and its output always nests consistently.
pub proof fn lemma_compile_bounds(s: Seq<char>)
    ensures
        compile_spec(s) matches Ok(code) ==> code.len() <= s.len() && well_nested(code),
{
    lemma_compile_from_props(s, 0, Seq::empty(), Seq::empty(), 1, 1);
}

} // verus!
