//! Execution of a program on text.
//!
//! The machine's state is a program counter and a cursor into the text. A
//! `Split` is a choice: its first address is tried before its second. The
//! search is depth first and keeps a table of the states it has entered, so a
//! state that already failed, or is still being explored, is not entered
//! twice; this bounds the work by the number of states, also for programs
//! whose loops consume nothing.
use super::Instruction;
use vstd::prelude::*;

verus! {

#[derive(Debug)]
pub enum EvalError {
    /// A program counter does not fit in `usize`. The search moves a program
    /// counter forward only from inside the program, so it never reports this.
    PCOverFlow,
    /// The states of the machine on this text cannot be numbered in `usize`.
    SPOverFlow,
    /// A program counter outside the program.
    InvalidPC,
}

/// From state `(pc, sp)`, `prog` reaches `Match` on `input` within `fuel`
/// steps, where a `Split` may take either way.
pub open spec fn accepts_within(
    prog: Seq<Instruction>,
    input: Seq<char>,
    pc: int,
    sp: int,
    fuel: nat,
) -> bool
    decreases fuel,
{
    if fuel == 0 || !(0 <= pc < prog.len()) {
        false
    } else {
        let f = (fuel - 1) as nat;
        match prog[pc] {
            Instruction::Char(c) => 0 <= sp < input.len() && input[sp] == c && accepts_within(
                prog,
                input,
                pc + 1,
                sp + 1,
                f,
            ),
            Instruction::Dot => 0 <= sp < input.len() && accepts_within(prog, input, pc + 1, sp + 1, f),
            Instruction::Match => true,
            Instruction::Jump(t) => accepts_within(prog, input, t as int, sp, f),
            Instruction::Split(a, b) => accepts_within(prog, input, a as int, sp, f)
                || accepts_within(prog, input, b as int, sp, f),
        }
    }
}

/// From state `(pc, sp)`, `prog` reaches `Match` on `input`.
pub open spec fn accepts(prog: Seq<Instruction>, input: Seq<char>, pc: int, sp: int) -> bool {
    exists|fuel: nat| accepts_within(prog, input, pc, sp, fuel)
}

/// From state `(pc, sp)`, `prog` reaches an address outside itself on
/// `input` within `fuel` steps, where a `Split` may take either way.
pub open spec fn reaches_invalid_within(
    prog: Seq<Instruction>,
    input: Seq<char>,
    pc: int,
    sp: int,
    fuel: nat,
) -> bool
    decreases fuel,
{
    if fuel == 0 {
        false
    } else if !(0 <= pc < prog.len()) {
        true
    } else {
        let f = (fuel - 1) as nat;
        match prog[pc] {
            Instruction::Char(c) => 0 <= sp < input.len() && input[sp] == c
                && reaches_invalid_within(prog, input, pc + 1, sp + 1, f),
            Instruction::Dot => 0 <= sp < input.len() && reaches_invalid_within(
                prog,
                input,
                pc + 1,
                sp + 1,
                f,
            ),
            Instruction::Match => false,
            Instruction::Jump(t) => reaches_invalid_within(prog, input, t as int, sp, f),
            Instruction::Split(a, b) => reaches_invalid_within(prog, input, a as int, sp, f)
                || reaches_invalid_within(prog, input, b as int, sp, f),
        }
    }
}

/// From state `(pc, sp)`, `prog` reaches an address outside itself on `input`.
pub open spec fn reaches_invalid(prog: Seq<Instruction>, input: Seq<char>, pc: int, sp: int) -> bool {
    exists|fuel: nat| reaches_invalid_within(prog, input, pc, sp, fuel)
}

/// The first outcome, unless it is `Ok(false)`: then the second.
pub open spec fn then_run(
    first: Option<Result<bool, EvalError>>,
    second: Option<Result<bool, EvalError>>,
) -> Option<Result<bool, EvalError>> {
    if first == Some(Ok::<bool, EvalError>(false)) {
        second
    } else {
        first
    }
}

/// The outcome of the backtracking run of `prog` on `input` from `(pc, sp)`
/// within `fuel` nested steps, or `None` where it needs more: an address
/// outside the program aborts with `InvalidPC`, and a `Split` runs from its
/// first address, and from its second only where the first gave `Ok(false)`.
pub open spec fn run_within(
    prog: Seq<Instruction>,
    input: Seq<char>,
    pc: int,
    sp: int,
    fuel: nat,
) -> Option<Result<bool, EvalError>>
    decreases fuel,
{
    if fuel == 0 {
        None
    } else if !(0 <= pc < prog.len()) {
        Some(Err(EvalError::InvalidPC))
    } else {
        let f = (fuel - 1) as nat;
        match prog[pc] {
            Instruction::Char(c) => if 0 <= sp < input.len() && input[sp] == c {
                run_within(prog, input, pc + 1, sp + 1, f)
            } else {
                Some(Ok(false))
            },
            Instruction::Dot => if 0 <= sp < input.len() {
                run_within(prog, input, pc + 1, sp + 1, f)
            } else {
                Some(Ok(false))
            },
            Instruction::Match => Some(Ok(true)),
            Instruction::Jump(t) => run_within(prog, input, t as int, sp, f),
            Instruction::Split(a, b) => then_run(
                run_within(prog, input, a as int, sp, f),
                run_within(prog, input, b as int, sp, f),
            ),
        }
    }
}

/// Every address that `prog` can move to lies inside it.
pub open spec fn well_formed(prog: Seq<Instruction>) -> bool {
    forall|i: int|
        0 <= i < prog.len() ==> match #[trigger] prog[i] {
            Instruction::Char(_) => i + 1 < prog.len(),
            Instruction::Dot => i + 1 < prog.len(),
            Instruction::Jump(t) => t < prog.len(),
            Instruction::Split(a, b) => a < prog.len() && b < prog.len(),
            Instruction::Match => true,
        }
}

/// The table of states has room for every program counter and cursor.
pub open spec fn states_fit(prog_len: int, input_len: int) -> bool {
    &&& input_len + 1 <= usize::MAX
    &&& (input_len + 1) * prog_len <= usize::MAX
}

// ---- the search and its invariant ----

/// The number of entries of `s` that are set.
spec fn count_true(s: Seq<bool>) -> nat
    decreases s.len(),
{
    if s.len() == 0 {
        0
    } else {
        count_true(s.drop_last()) + if s.last() {
            1nat
        } else {
            0nat
        }
    }
}

proof fn lemma_count_le(s: Seq<bool>)
    ensures
        count_true(s) <= s.len(),
    decreases s.len(),
{
    if s.len() > 0 {
        lemma_count_le(s.drop_last());
    }
}

proof fn lemma_count_set(s: Seq<bool>, i: int)
    requires
        0 <= i < s.len(),
        !s[i],
    ensures
        count_true(s.update(i, true)) == count_true(s) + 1,
    decreases s.len(),
{
    if i == s.len() - 1 {
        assert(s.update(i, true).drop_last() =~= s.drop_last());
    } else {
        assert(s.update(i, true).drop_last() =~= s.drop_last().update(i, true));
        lemma_count_set(s.drop_last(), i);
    }
}

proof fn lemma_index(n: int, w: int, pc: int, sp: int)
    requires
        0 <= pc < n,
        0 <= sp < w,
    ensures
        0 <= pc * w + sp < n * w,
        pc * w <= (n - 1) * w,
{
    assert(0 <= pc * w + sp < n * w) by (nonlinear_arith)
        requires
            0 <= pc < n,
            0 <= sp < w,
    ;
    assert(pc * w <= (n - 1) * w) by (nonlinear_arith)
        requires
            0 <= pc < n,
            0 <= sp < w,
    ;
}

proof fn lemma_index_unique(w: int, pa: int, sa: int, pb: int, sb: int)
    requires
        0 <= pa,
        0 <= pb,
        0 <= sa < w,
        0 <= sb < w,
        pa * w + sa == pb * w + sb,
    ensures
        pa == pb,
        sa == sb,
{
    if pa < pb {
        assert(pa * w + w <= pb * w) by (nonlinear_arith)
            requires
                pa < pb,
                0 <= w,
        ;
    } else if pb < pa {
        assert(pb * w + w <= pa * w) by (nonlinear_arith)
            requires
                pb < pa,
                0 <= w,
        ;
    }
}

proof fn lemma_fit_len(n: int, len: int)
    requires
        0 <= n,
        0 <= len,
        states_fit(n, len),
    ensures
        n <= usize::MAX,
{
    assert(n <= (len + 1) * n) by (nonlinear_arith)
        requires
            0 <= n,
            0 <= len,
    ;
}

/// State `(pc, sp)` has been entered.
spec fn seen(marked: Seq<bool>, w: int, pc: int, sp: int) -> bool {
    marked[pc * w + sp]
}

/// State `(pc, sp)` has been entered, or waits on the stack.
spec fn covered(
    prog_len: int,
    w: int,
    marked: Seq<bool>,
    stack: Seq<(usize, usize)>,
    pc: int,
    sp: int,
) -> bool {
    (0 <= pc < prog_len && 0 <= sp < w && seen(marked, w, pc, sp)) || stack.contains(
        (pc as usize, sp as usize),
    )
}

/// State `(pc, sp)` is not accepting, and each state it can move to is
/// covered.
spec fn explored(
    prog: Seq<Instruction>,
    input: Seq<char>,
    marked: Seq<bool>,
    stack: Seq<(usize, usize)>,
    pc: int,
    sp: int,
) -> bool {
    let n = prog.len() as int;
    let w = input.len() + 1int;
    match prog[pc] {
        Instruction::Char(c) => (sp < input.len() && input[sp] == c) ==> covered(
            n,
            w,
            marked,
            stack,
            pc + 1,
            sp + 1,
        ),
        Instruction::Dot => sp < input.len() ==> covered(n, w, marked, stack, pc + 1, sp + 1),
        Instruction::Jump(t) => covered(n, w, marked, stack, t as int, sp),
        Instruction::Split(a, b) => covered(n, w, marked, stack, a as int, sp) && covered(
            n,
            w,
            marked,
            stack,
            b as int,
            sp,
        ),
        Instruction::Match => false,
    }
}

/// Every entered state is explored.
#[verifier::opaque]
spec fn search_inv(
    prog: Seq<Instruction>,
    input: Seq<char>,
    marked: Seq<bool>,
    stack: Seq<(usize, usize)>,
) -> bool {
    let w = input.len() + 1int;
    forall|pc: int, sp: int|
        0 <= pc < prog.len() && 0 <= sp < w && #[trigger] seen(marked, w, pc, sp) ==> explored(
            prog,
            input,
            marked,
            stack,
            pc,
            sp,
        )
}

/// Where no state waits and every entered state is explored, no entered
/// state reaches `Match`, nor an address outside the program.
proof fn lemma_closed_rejects(
    prog: Seq<Instruction>,
    input: Seq<char>,
    marked: Seq<bool>,
    pc: int,
    sp: int,
    fuel: nat,
)
    requires
        search_inv(prog, input, marked, seq![]),
        0 <= pc < prog.len(),
        0 <= sp <= input.len(),
        seen(marked, input.len() + 1int, pc, sp),
    ensures
        !accepts_within(prog, input, pc, sp, fuel),
        !reaches_invalid_within(prog, input, pc, sp, fuel),
    decreases fuel,
{
    reveal(search_inv);
    if fuel > 0 {
        let f = (fuel - 1) as nat;
        assert(explored(prog, input, marked, seq![], pc, sp));
        match prog[pc] {
            Instruction::Char(c) => {
                if sp < input.len() && input[sp] == c {
                    lemma_closed_rejects(prog, input, marked, pc + 1, sp + 1, f);
                }
            },
            Instruction::Dot => {
                if sp < input.len() {
                    lemma_closed_rejects(prog, input, marked, pc + 1, sp + 1, f);
                }
            },
            Instruction::Jump(t) => {
                lemma_closed_rejects(prog, input, marked, t as int, sp, f);
            },
            Instruction::Split(a, b) => {
                lemma_closed_rejects(prog, input, marked, a as int, sp, f);
                lemma_closed_rejects(prog, input, marked, b as int, sp, f);
            },
            Instruction::Match => {},
        }
    }
}

/// A state that moves to an accepting one accepts too.
pub proof fn lemma_step_back(
    prog: Seq<Instruction>,
    input: Seq<char>,
    pc: int,
    sp: int,
    pc2: int,
    sp2: int,
)
    requires
        0 <= pc < prog.len(),
        accepts(prog, input, pc2, sp2),
        match prog[pc] {
            Instruction::Char(c) => 0 <= sp < input.len() && input[sp] == c && pc2 == pc + 1 && sp2
                == sp + 1,
            Instruction::Dot => 0 <= sp < input.len() && pc2 == pc + 1 && sp2 == sp + 1,
            Instruction::Jump(t) => pc2 == t && sp2 == sp,
            Instruction::Split(a, b) => (pc2 == a || pc2 == b) && sp2 == sp,
            Instruction::Match => true,
        },
    ensures
        accepts(prog, input, pc, sp),
{
    let fuel = choose|fuel: nat| accepts_within(prog, input, pc2, sp2, fuel);
    assert(accepts_within(prog, input, pc, sp, fuel + 1));
}

/// A state that moves to one that reaches an address outside the program
/// reaches it too.
proof fn lemma_step_back_invalid(
    prog: Seq<Instruction>,
    input: Seq<char>,
    pc: int,
    sp: int,
    pc2: int,
    sp2: int,
)
    requires
        0 <= pc < prog.len(),
        reaches_invalid(prog, input, pc2, sp2),
        match prog[pc] {
            Instruction::Char(c) => 0 <= sp < input.len() && input[sp] == c && pc2 == pc + 1 && sp2
                == sp + 1,
            Instruction::Dot => 0 <= sp < input.len() && pc2 == pc + 1 && sp2 == sp + 1,
            Instruction::Jump(t) => pc2 == t && sp2 == sp,
            Instruction::Split(a, b) => (pc2 == a || pc2 == b) && sp2 == sp,
            Instruction::Match => false,
        },
    ensures
        reaches_invalid(prog, input, pc, sp),
{
    let fuel = choose|fuel: nat| reaches_invalid_within(prog, input, pc2, sp2, fuel);
    assert(reaches_invalid_within(prog, input, pc, sp, fuel + 1));
}

/// The common conditions of a step: `cur`, on top of `stack`, is entered,
/// and what lay under it stays on the stack.
spec fn enter_step(
    prog: Seq<Instruction>,
    input: Seq<char>,
    marked: Seq<bool>,
    stack: Seq<(usize, usize)>,
    marked2: Seq<bool>,
    stack2: Seq<(usize, usize)>,
) -> bool {
    &&& marked.len() == prog.len() * (input.len() + 1)
    &&& input.len() < usize::MAX
    &&& prog.len() <= usize::MAX
    &&& stack.len() > 0
    &&& stack.last().0 < prog.len()
    &&& stack.last().1 <= input.len()
    &&& marked2 == marked.update(stack.last().0 * (input.len() + 1) + stack.last().1, true)
    &&& stack2.len() >= stack.len() - 1
    &&& forall|i: int| 0 <= i < stack.len() - 1 ==> stack2[i] == stack[i]
}

/// After a step, the entered states are those before and `cur`.
proof fn lemma_enter_seen(
    prog: Seq<Instruction>,
    input: Seq<char>,
    marked: Seq<bool>,
    stack: Seq<(usize, usize)>,
    marked2: Seq<bool>,
    stack2: Seq<(usize, usize)>,
)
    requires
        enter_step(prog, input, marked, stack, marked2, stack2),
    ensures
        forall|pc: int, sp: int|
            0 <= pc < prog.len() && 0 <= sp <= input.len() ==> (#[trigger] seen(
                marked2,
                input.len() + 1int,
                pc,
                sp,
            ) <==> seen(marked, input.len() + 1int, pc, sp) || (pc == stack.last().0 && sp
                == stack.last().1)),
{
    let n = prog.len() as int;
    let w = input.len() + 1int;
    let cur = stack.last();
    lemma_index(n, w, cur.0 as int, cur.1 as int);
    assert forall|pc: int, sp: int|
        0 <= pc < prog.len() && 0 <= sp <= input.len() implies (#[trigger] seen(
        marked2,
        w,
        pc,
        sp,
    ) <==> seen(marked, w, pc, sp) || (pc == cur.0 && sp == cur.1)) by {
        lemma_index(n, w, pc, sp);
        if pc * w + sp == cur.0 * w + cur.1 {
            lemma_index_unique(w, pc, sp, cur.0 as int, cur.1 as int);
        }
    }
}

/// A step keeps covered what was covered.
proof fn lemma_enter_covered(
    prog: Seq<Instruction>,
    input: Seq<char>,
    marked: Seq<bool>,
    stack: Seq<(usize, usize)>,
    marked2: Seq<bool>,
    stack2: Seq<(usize, usize)>,
    pc: int,
    sp: int,
)
    requires
        enter_step(prog, input, marked, stack, marked2, stack2),
        0 <= pc <= usize::MAX,
        0 <= sp <= usize::MAX,
        covered(prog.len() as int, input.len() + 1int, marked, stack, pc, sp),
    ensures
        covered(prog.len() as int, input.len() + 1int, marked2, stack2, pc, sp),
{
    let n = prog.len() as int;
    let w = input.len() + 1int;
    lemma_enter_seen(prog, input, marked, stack, marked2, stack2);
    if 0 <= pc < n && 0 <= sp < w && seen(marked, w, pc, sp) {
        assert(seen(marked2, w, pc, sp));
    } else {
        let j = choose|j: int| 0 <= j < stack.len() && stack[j] == (pc as usize, sp as usize);
        if j < stack.len() - 1 {
            assert(stack2[j] == stack[j]);
        } else {
            assert(seen(marked2, w, pc, sp));
        }
    }
}

/// A step keeps explored what was explored.
proof fn lemma_enter_explored(
    prog: Seq<Instruction>,
    input: Seq<char>,
    marked: Seq<bool>,
    stack: Seq<(usize, usize)>,
    marked2: Seq<bool>,
    stack2: Seq<(usize, usize)>,
    pc: int,
    sp: int,
)
    requires
        enter_step(prog, input, marked, stack, marked2, stack2),
        0 <= pc < prog.len(),
        0 <= sp <= input.len(),
        explored(prog, input, marked, stack, pc, sp),
    ensures
        explored(prog, input, marked2, stack2, pc, sp),
{
    match prog[pc] {
        Instruction::Jump(t) => {
            lemma_enter_covered(prog, input, marked, stack, marked2, stack2, t as int, sp);
        },
        Instruction::Split(a, b) => {
            lemma_enter_covered(prog, input, marked, stack, marked2, stack2, a as int, sp);
            lemma_enter_covered(prog, input, marked, stack, marked2, stack2, b as int, sp);
        },
        Instruction::Char(c) => {
            if sp < input.len() && input[sp] == c {
                lemma_enter_covered(prog, input, marked, stack, marked2, stack2, pc + 1, sp + 1);
            }
        },
        Instruction::Dot => {
            if sp < input.len() {
                lemma_enter_covered(prog, input, marked, stack, marked2, stack2, pc + 1, sp + 1);
            }
        },
        Instruction::Match => {},
    }
}

/// The states that the search puts on the stack on leaving `(pc, sp)`, in
/// the order pushed: the one to try first comes last.
spec fn successors(prog: Seq<Instruction>, input: Seq<char>, pc: int, sp: int) -> Seq<(usize, usize)> {
    match prog[pc] {
        Instruction::Char(c) => if sp < input.len() && input[sp] == c {
            seq![((pc + 1) as usize, (sp + 1) as usize)]
        } else {
            seq![]
        },
        Instruction::Dot => if sp < input.len() {
            seq![((pc + 1) as usize, (sp + 1) as usize)]
        } else {
            seq![]
        },
        Instruction::Jump(t) => seq![(t, sp as usize)],
        Instruction::Split(a, b) => seq![(b, sp as usize), (a, sp as usize)],
        Instruction::Match => seq![],
    }
}

/// What the search keeps true while it runs from `(pc, sp)`.
#[verifier::opaque]
spec fn search_state(
    prog: Seq<Instruction>,
    input: Seq<char>,
    marked: Seq<bool>,
    stack: Seq<(usize, usize)>,
    pc: int,
    sp: int,
) -> bool {
    let n = prog.len() as int;
    let w = input.len() + 1int;
    &&& states_fit(n, input.len() as int)
    &&& marked.len() == n * w
    &&& forall|i: int| 0 <= i < stack.len() ==> stack[i].1 <= input.len()
    &&& well_formed(prog) && 0 <= pc < n ==> forall|i: int| 0 <= i < stack.len() ==> stack[i].0 < n
    &&& search_inv(prog, input, marked, stack)
    &&& covered(n, w, marked, stack, pc, sp)
    &&& forall|i: int|
        0 <= i < stack.len() ==> accepts(prog, input, stack[i].0 as int, stack[i].1 as int)
            ==> accepts(prog, input, pc, sp)
    &&& forall|i: int|
        0 <= i < stack.len() ==> reaches_invalid(
            prog,
            input,
            stack[i].0 as int,
            stack[i].1 as int,
        ) ==> reaches_invalid(prog, input, pc, sp)
}

/// A step keeps every entered state explored, given that `cur` is explored
/// where it was not entered before.
proof fn lemma_inv_step(
    prog: Seq<Instruction>,
    input: Seq<char>,
    marked: Seq<bool>,
    stack: Seq<(usize, usize)>,
    marked2: Seq<bool>,
    stack2: Seq<(usize, usize)>,
)
    requires
        enter_step(prog, input, marked, stack, marked2, stack2),
        search_inv(prog, input, marked, stack),
        !seen(marked, input.len() + 1int, stack.last().0 as int, stack.last().1 as int) ==> explored(
            prog,
            input,
            marked2,
            stack2,
            stack.last().0 as int,
            stack.last().1 as int,
        ),
    ensures
        search_inv(prog, input, marked2, stack2),
{
    reveal(search_inv);
    let n = prog.len() as int;
    let w = input.len() + 1int;
    let cur = stack.last();
    lemma_enter_seen(prog, input, marked, stack, marked2, stack2);
    assert forall|p: int, s: int|
        0 <= p < n && 0 <= s < w && #[trigger] seen(marked2, w, p, s) implies explored(
        prog,
        input,
        marked2,
        stack2,
        p,
        s,
    ) by {
        if seen(marked, w, p, s) {
            lemma_enter_explored(prog, input, marked, stack, marked2, stack2, p, s);
        }
    }
}

/// The state entered by a step, with what it moves to pushed, is explored.
proof fn lemma_cur_explored(
    prog: Seq<Instruction>,
    input: Seq<char>,
    marked: Seq<bool>,
    stack: Seq<(usize, usize)>,
    marked2: Seq<bool>,
    stack2: Seq<(usize, usize)>,
)
    requires
        enter_step(prog, input, marked, stack, marked2, stack2),
        stack2 == stack.drop_last() + successors(
            prog,
            input,
            stack.last().0 as int,
            stack.last().1 as int,
        ),
        !(prog[stack.last().0 as int] is Match),
    ensures
        explored(prog, input, marked2, stack2, stack.last().0 as int, stack.last().1 as int),
{
    let cur = stack.last();
    let (cp, cs) = (cur.0 as int, cur.1 as int);
    let stack1 = stack.drop_last();
    let succ = successors(prog, input, cp, cs);
    assert forall|j: int| 0 <= j < succ.len() implies stack2.contains(#[trigger] succ[j]) by {
        assert(stack2[stack1.len() + j] == succ[j]);
    }
    match prog[cp] {
        Instruction::Split(a, b) => {
            assert(succ[0] == (b, cs as usize));
            assert(succ[1] == (a, cs as usize));
        },
        Instruction::Jump(t) => {
            assert(succ[0] == (t, cs as usize));
        },
        _ => {
            if succ.len() > 0 {
                assert(succ[0] == ((cp + 1) as usize, (cs + 1) as usize));
            }
        },
    }
}

/// Leaving a state that was entered before, the search state holds on.
proof fn lemma_skip(
    prog: Seq<Instruction>,
    input: Seq<char>,
    marked: Seq<bool>,
    stack: Seq<(usize, usize)>,
    pc: int,
    sp: int,
)
    requires
        search_state(prog, input, marked, stack, pc, sp),
        0 <= pc <= usize::MAX,
        0 <= sp <= usize::MAX,
        stack.len() > 0,
        stack.last().0 < prog.len(),
        seen(marked, input.len() + 1int, stack.last().0 as int, stack.last().1 as int),
    ensures
        search_state(prog, input, marked, stack.drop_last(), pc, sp),
{
    reveal(search_state);
    let n = prog.len() as int;
    let w = input.len() + 1int;
    let cur = stack.last();
    let stack2 = stack.drop_last();
    lemma_index(n, w, cur.0 as int, cur.1 as int);
    lemma_fit_len(n, input.len() as int);
    assert(stack[stack.len() - 1].1 <= input.len());
    assert(marked.update(cur.0 * w + cur.1, true) =~= marked);
    assert(enter_step(prog, input, marked, stack, marked, stack2));
    lemma_enter_covered(prog, input, marked, stack, marked, stack2, pc, sp);
    lemma_inv_step(prog, input, marked, stack, marked, stack2);
    assert forall|i: int| 0 <= i < stack2.len() implies accepts(
        prog,
        input,
        stack2[i].0 as int,
        stack2[i].1 as int,
    ) ==> accepts(prog, input, pc, sp) by {
        assert(stack2[i] == stack[i]);
    }
    assert forall|i: int| 0 <= i < stack2.len() implies reaches_invalid(
        prog,
        input,
        stack2[i].0 as int,
        stack2[i].1 as int,
    ) ==> reaches_invalid(prog, input, pc, sp) by {
        assert(stack2[i] == stack[i]);
    }
    assert forall|i: int| 0 <= i < stack2.len() implies stack2[i].1 <= input.len() by {
        assert(stack2[i] == stack[i]);
    }
    if well_formed(prog) && 0 <= pc < n {
        assert forall|i: int| 0 <= i < stack2.len() implies stack2[i].0 < n by {
            assert(stack2[i] == stack[i]);
        }
    }
}

/// Entering a new state that is not accepting, and pushing the states it
/// moves to, the search state holds on.
proof fn lemma_advance(
    prog: Seq<Instruction>,
    input: Seq<char>,
    marked: Seq<bool>,
    stack: Seq<(usize, usize)>,
    pc: int,
    sp: int,
)
    requires
        search_state(prog, input, marked, stack, pc, sp),
        0 <= pc <= usize::MAX,
        0 <= sp <= usize::MAX,
        stack.len() > 0,
        stack.last().0 < prog.len(),
        !(prog[stack.last().0 as int] is Match),
    ensures
        ({
            let cur = stack.last();
            let marked2 = marked.update(cur.0 * (input.len() + 1) + cur.1, true);
            let stack2 = stack.drop_last() + successors(prog, input, cur.0 as int, cur.1 as int);
            search_state(prog, input, marked2, stack2, pc, sp)
        }),
{
    reveal(search_state);
    let n = prog.len() as int;
    let w = input.len() + 1int;
    let cur = stack.last();
    let (cp, cs) = (cur.0 as int, cur.1 as int);
    let marked2 = marked.update(cur.0 * (input.len() + 1) + cur.1, true);
    let stack1 = stack.drop_last();
    let succ = successors(prog, input, cp, cs);
    let stack2 = stack1 + succ;
    lemma_fit_len(n, input.len() as int);
    assert(stack[stack.len() - 1].1 <= input.len());
    lemma_index(n, w, cp, cs);
    assert(enter_step(prog, input, marked, stack, marked2, stack2)) by {
        assert forall|i: int| 0 <= i < stack.len() - 1 implies stack2[i] == stack[i] by {}
    }
    lemma_enter_covered(prog, input, marked, stack, marked2, stack2, pc, sp);
    lemma_cur_explored(prog, input, marked, stack, marked2, stack2);
    lemma_inv_step(prog, input, marked, stack, marked2, stack2);
    assert forall|i: int| 0 <= i < stack2.len() implies stack2[i].1 <= input.len() by {
        if i >= stack1.len() {
            assert(stack2[i] == succ[i - stack1.len()]);
        } else {
            assert(stack2[i] == stack[i]);
        }
    }
    if well_formed(prog) && 0 <= pc < n {
        assert forall|i: int| 0 <= i < stack2.len() implies stack2[i].0 < n by {
            if i >= stack1.len() {
                assert(stack2[i] == succ[i - stack1.len()]);
                assert(stack[stack.len() - 1].0 < n);
            } else {
                assert(stack2[i] == stack[i]);
            }
        }
    }
    assert forall|i: int| 0 <= i < stack2.len() implies accepts(
        prog,
        input,
        stack2[i].0 as int,
        stack2[i].1 as int,
    ) ==> accepts(prog, input, pc, sp) by {
        if i < stack1.len() {
            assert(stack2[i] == stack[i]);
        } else {
            assert(stack2[i] == succ[i - stack1.len()]);
            assert(stack[stack.len() - 1] == cur);
            if accepts(prog, input, stack2[i].0 as int, stack2[i].1 as int) {
                lemma_step_back(prog, input, cp, cs, stack2[i].0 as int, stack2[i].1 as int);
            }
        }
    }
    assert forall|i: int| 0 <= i < stack2.len() implies reaches_invalid(
        prog,
        input,
        stack2[i].0 as int,
        stack2[i].1 as int,
    ) ==> reaches_invalid(prog, input, pc, sp) by {
        if i < stack1.len() {
            assert(stack2[i] == stack[i]);
        } else {
            assert(stack2[i] == succ[i - stack1.len()]);
            assert(stack[stack.len() - 1] == cur);
            if reaches_invalid(prog, input, stack2[i].0 as int, stack2[i].1 as int) {
                lemma_step_back_invalid(prog, input, cp, cs, stack2[i].0 as int, stack2[i].1 as int);
            }
        }
    }
}

/// A table with no entry set is closed.
pub(crate) proof fn lemma_fresh_table(prog: Seq<Instruction>, input: Seq<char>, marked: Seq<bool>)
    requires
        marked.len() == prog.len() * (input.len() + 1),
        forall|i: int| 0 <= i < marked.len() ==> !marked[i],
    ensures
        closed_table(prog, input, marked),
{
    reveal(search_inv);
    let n = prog.len() as int;
    let w = input.len() + 1int;
    assert forall|p: int, s: int|
        0 <= p < n && 0 <= s < w && #[trigger] seen(marked, w, p, s) implies explored(
        prog,
        input,
        marked,
        seq![],
        p,
        s,
    ) by {
        lemma_index(n, w, p, s);
    }
}

/// At the start the search holds `(pc, sp)` alone, over a table that is
/// closed: each state entered before is explored with nothing waiting.
proof fn lemma_state_init(
    prog: Seq<Instruction>,
    input: Seq<char>,
    marked: Seq<bool>,
    stack: Seq<(usize, usize)>,
    pc: usize,
    sp: usize,
)
    requires
        states_fit(prog.len() as int, input.len() as int),
        marked.len() == prog.len() * (input.len() + 1),
        search_inv(prog, input, marked, seq![]),
        stack == seq![(pc, sp)],
        sp <= input.len(),
    ensures
        search_state(prog, input, marked, stack, pc as int, sp as int),
{
    reveal(search_state);
    reveal(search_inv);
    let n = prog.len() as int;
    let w = input.len() + 1int;
    assert(stack[0] == (pc, sp));
    assert(stack.contains((pc, sp)));
    assert forall|p: int, s: int|
        0 <= p < n && 0 <= s < w && #[trigger] seen(marked, w, p, s) implies explored(
        prog,
        input,
        marked,
        stack,
        p,
        s,
    ) by {
        assert(explored(prog, input, marked, seq![], p, s));
    }
}

/// What the search knows of the state on top of its stack.
proof fn lemma_state_top(
    prog: Seq<Instruction>,
    input: Seq<char>,
    marked: Seq<bool>,
    stack: Seq<(usize, usize)>,
    pc: int,
    sp: int,
)
    requires
        search_state(prog, input, marked, stack, pc, sp),
        stack.len() > 0,
    ensures
        states_fit(prog.len() as int, input.len() as int),
        marked.len() == prog.len() * (input.len() + 1),
        stack.last().1 <= input.len(),
        well_formed(prog) && 0 <= pc < prog.len() ==> stack.last().0 < prog.len(),
        accepts(prog, input, stack.last().0 as int, stack.last().1 as int) ==> accepts(
            prog,
            input,
            pc,
            sp,
        ),
        reaches_invalid(prog, input, stack.last().0 as int, stack.last().1 as int)
            ==> reaches_invalid(prog, input, pc, sp),
{
    reveal(search_state);
}

/// Once the stack is empty, `(pc, sp)` does not accept.
proof fn lemma_state_done(
    prog: Seq<Instruction>,
    input: Seq<char>,
    marked: Seq<bool>,
    stack: Seq<(usize, usize)>,
    pc: int,
    sp: int,
)
    requires
        search_state(prog, input, marked, stack, pc, sp),
        stack.len() == 0,
        0 <= pc <= usize::MAX,
        0 <= sp <= usize::MAX,
    ensures
        !accepts(prog, input, pc, sp),
        !reaches_invalid(prog, input, pc, sp),
        search_inv(prog, input, marked, seq![]),
{
    reveal(search_state);
    assert(stack =~= seq![]);
    assert(!stack.contains((pc as usize, sp as usize)));
    assert forall|fuel: nat| !accepts_within(prog, input, pc, sp, fuel) by {
        lemma_closed_rejects(prog, input, marked, pc, sp, fuel);
    }
    assert forall|fuel: nat| !reaches_invalid_within(prog, input, pc, sp, fuel) by {
        lemma_closed_rejects(prog, input, marked, pc, sp, fuel);
    }
}

// ---- the order of the search ----

/// `fuel` less `d`, or none.
spec fn fuel_at(fuel: nat, d: nat) -> nat {
    if fuel >= d {
        (fuel - d) as nat
    } else {
        0
    }
}

/// The outcome of running the states of `stack` from index `h` up, the top
/// first, each with `fuel` less its depth, the next one only where the one
/// before gave `Ok(false)`.
spec fn seg_res(
    prog: Seq<Instruction>,
    input: Seq<char>,
    stack: Seq<(usize, usize)>,
    depths: Seq<nat>,
    h: int,
    fuel: nat,
) -> Option<Result<bool, EvalError>>
    decreases stack.len(),
{
    if stack.len() == 0 || stack.len() <= h {
        Some(Ok(false))
    } else {
        then_run(
            run_within(
                prog,
                input,
                stack.last().0 as int,
                stack.last().1 as int,
                fuel_at(fuel, depths.last()),
            ),
            seg_res(prog, input, stack.drop_last(), depths.drop_last(), h, fuel),
        )
    }
}

proof fn lemma_then_run_assoc(
    a: Option<Result<bool, EvalError>>,
    b: Option<Result<bool, EvalError>>,
    c: Option<Result<bool, EvalError>>,
)
    ensures
        then_run(a, then_run(b, c)) == then_run(then_run(a, b), c),
        then_run(a, Some(Ok::<bool, EvalError>(false))) == a,
        then_run(Some(Ok::<bool, EvalError>(false)), c) == c,
{
}

/// The states from index `h` up run as those from `k` up, then those from
/// `h` below `k`.
proof fn lemma_seg_split(
    prog: Seq<Instruction>,
    input: Seq<char>,
    stack: Seq<(usize, usize)>,
    depths: Seq<nat>,
    h: int,
    k: int,
    fuel: nat,
)
    requires
        0 <= h <= k <= stack.len(),
        depths.len() == stack.len(),
    ensures
        seg_res(prog, input, stack, depths, h, fuel) == then_run(
            seg_res(prog, input, stack, depths, k, fuel),
            seg_res(prog, input, stack.subrange(0, k), depths.subrange(0, k), h, fuel),
        ),
    decreases stack.len(),
{
    if stack.len() == k {
        assert(stack.subrange(0, k) =~= stack);
        assert(depths.subrange(0, k) =~= depths);
        lemma_then_run_assoc(seg_res(prog, input, stack, depths, h, fuel), None, None);
    } else {
        lemma_seg_split(prog, input, stack.drop_last(), depths.drop_last(), h, k, fuel);
        assert(stack.drop_last().subrange(0, k) =~= stack.subrange(0, k));
        assert(depths.drop_last().subrange(0, k) =~= depths.subrange(0, k));
        let top = run_within(
            prog,
            input,
            stack.last().0 as int,
            stack.last().1 as int,
            fuel_at(fuel, depths.last()),
        );
        lemma_then_run_assoc(
            top,
            seg_res(prog, input, stack.drop_last(), depths.drop_last(), k, fuel),
            seg_res(prog, input, stack.subrange(0, k), depths.subrange(0, k), h, fuel),
        );
    }
}

/// A run that gives `Ok(true)` reaches `Match`; one that gives an error
/// reaches an address outside the program.
proof fn lemma_run_sound(prog: Seq<Instruction>, input: Seq<char>, pc: int, sp: int, fuel: nat)
    ensures
        run_within(prog, input, pc, sp, fuel) == Some(Ok::<bool, EvalError>(true)) ==> accepts_within(
            prog,
            input,
            pc,
            sp,
            fuel,
        ),
        (run_within(prog, input, pc, sp, fuel) is Some && run_within(prog, input, pc, sp, fuel)->Some_0
            is Err) ==> reaches_invalid_within(prog, input, pc, sp, fuel),
    decreases fuel,
{
    if fuel > 0 && 0 <= pc < prog.len() {
        let f = (fuel - 1) as nat;
        match prog[pc] {
            Instruction::Char(c) => lemma_run_sound(prog, input, pc + 1, sp + 1, f),
            Instruction::Dot => lemma_run_sound(prog, input, pc + 1, sp + 1, f),
            Instruction::Jump(t) => lemma_run_sound(prog, input, t as int, sp, f),
            Instruction::Split(a, b) => {
                lemma_run_sound(prog, input, a as int, sp, f);
                lemma_run_sound(prog, input, b as int, sp, f);
            },
            Instruction::Match => {},
        }
    }
}

/// A run from `(p, s)` that returns only after returning from `(p, s)` with
/// less fuel never returns.
proof fn lemma_no_return(
    prog: Seq<Instruction>,
    input: Seq<char>,
    p: int,
    s: int,
    e: nat,
    d: nat,
    g: nat,
)
    requires
        e < d,
        forall|f: nat|
            #[trigger] run_within(prog, input, p, s, fuel_at(f, e)) is Some ==> run_within(
                prog,
                input,
                p,
                s,
                fuel_at(f, d),
            ) is Some,
    ensures
        run_within(prog, input, p, s, g) is None,
    decreases g,
{
    if g > 0 {
        let f = g + e;
        assert(fuel_at(f, e) == g);
        assert(run_within(prog, input, p, s, fuel_at(f, e)) is Some ==> run_within(
            prog,
            input,
            p,
            s,
            fuel_at(f, d),
        ) is Some);
        lemma_no_return(prog, input, p, s, e, d, fuel_at(f, d));
    }
}

/// Every run from `(p, s)` that returns gives `Ok(false)`.
spec fn finished(prog: Seq<Instruction>, input: Seq<char>, p: int, s: int) -> bool {
    forall|f: nat|
        #[trigger] run_within(prog, input, p, s, f) is Some ==> run_within(prog, input, p, s, f)
            == Some(Ok::<bool, EvalError>(false))
}

/// `(p, s)` was entered at depth `e`, and what waits on the stack from index
/// `h` up is what is left of its run.
spec fn active(
    prog: Seq<Instruction>,
    input: Seq<char>,
    stack: Seq<(usize, usize)>,
    depths: Seq<nat>,
    p: int,
    s: int,
    e: nat,
    h: nat,
) -> bool {
    &&& h < stack.len()
    &&& forall|i: int| h <= i < stack.len() ==> depths[i] > e
    &&& forall|f: nat|
        #[trigger] run_within(prog, input, p, s, fuel_at(f, e)) is Some ==> run_within(
            prog,
            input,
            p,
            s,
            fuel_at(f, e),
        ) == seg_res(prog, input, stack, depths, h as int, f)
}

/// An entered state has finished, or is active where `info` says.
spec fn accounted(
    prog: Seq<Instruction>,
    input: Seq<char>,
    stack: Seq<(usize, usize)>,
    depths: Seq<nat>,
    info: Map<(int, int), (nat, nat)>,
    p: int,
    s: int,
) -> bool {
    finished(prog, input, p, s) || (info.contains_key((p, s)) && active(
        prog,
        input,
        stack,
        depths,
        p,
        s,
        info[(p, s)].0,
        info[(p, s)].1,
    ))
}

/// The stack holds what is left of the run from `(pc, sp)`, and every entered
/// state is accounted for.
#[verifier::opaque]
spec fn order_inv(
    prog: Seq<Instruction>,
    input: Seq<char>,
    marked: Seq<bool>,
    stack: Seq<(usize, usize)>,
    depths: Seq<nat>,
    info: Map<(int, int), (nat, nat)>,
    pc: int,
    sp: int,
) -> bool {
    let w = input.len() + 1int;
    &&& depths.len() == stack.len()
    &&& forall|f: nat|
        #[trigger] run_within(prog, input, pc, sp, f) is Some ==> run_within(prog, input, pc, sp, f)
            == seg_res(prog, input, stack, depths, 0, f)
    &&& forall|p: int, s: int|
        0 <= p < prog.len() && 0 <= s < w && #[trigger] seen(marked, w, p, s) ==> accounted(
            prog,
            input,
            stack,
            depths,
            info,
            p,
            s,
        )
}

/// A relation between a run and what waits from index `h` up holds on after
/// popping a top whose runs give `Ok(false)` wherever they return.
proof fn lemma_relation_pop(
    prog: Seq<Instruction>,
    input: Seq<char>,
    stack: Seq<(usize, usize)>,
    depths: Seq<nat>,
    h: int,
    f: nat,
    x: Option<Result<bool, EvalError>>,
)
    requires
        stack.len() > 0,
        depths.len() == stack.len(),
        0 <= h < stack.len(),
        x is Some ==> x == seg_res(prog, input, stack, depths, h, f),
        forall|g: nat|
            #[trigger] run_within(prog, input, stack.last().0 as int, stack.last().1 as int, g) is Some
                ==> run_within(prog, input, stack.last().0 as int, stack.last().1 as int, g) == Some(
                Ok::<bool, EvalError>(false),
            ),
    ensures
        x is Some ==> x == seg_res(prog, input, stack.drop_last(), depths.drop_last(), h, f),
{
    let g = fuel_at(f, depths.last());
    assert(run_within(prog, input, stack.last().0 as int, stack.last().1 as int, g) is Some
        ==> run_within(prog, input, stack.last().0 as int, stack.last().1 as int, g) == Some(
        Ok::<bool, EvalError>(false),
    ));
}

/// Popping a state that was entered before keeps the invariant.
proof fn lemma_order_skip(
    prog: Seq<Instruction>,
    input: Seq<char>,
    marked: Seq<bool>,
    stack: Seq<(usize, usize)>,
    depths: Seq<nat>,
    info: Map<(int, int), (nat, nat)>,
    pc: int,
    sp: int,
)
    requires
        order_inv(prog, input, marked, stack, depths, info, pc, sp),
        stack.len() > 0,
        stack.last().0 < prog.len(),
        stack.last().1 <= input.len(),
        seen(marked, input.len() + 1int, stack.last().0 as int, stack.last().1 as int),
    ensures
        order_inv(prog, input, marked, stack.drop_last(), depths.drop_last(), info, pc, sp),
{
    reveal(order_inv);
    let w = input.len() + 1int;
    let top = stack.last();
    let (tp, ts) = (top.0 as int, top.1 as int);
    let d = depths.last();
    let rest = stack.drop_last();
    let rdepths = depths.drop_last();
    assert(accounted(prog, input, stack, depths, info, tp, ts));
    // the state on top, if still active, is inside its own run, which
    // therefore never returns
    if !finished(prog, input, tp, ts) {
        let (e, h) = info[(tp, ts)];
        assert(depths[stack.len() - 1] > e);
        assert forall|f: nat|
            #[trigger] run_within(prog, input, tp, ts, fuel_at(f, e)) is Some implies run_within(
            prog,
            input,
            tp,
            ts,
            fuel_at(f, d),
        ) is Some by {
            assert(seg_res(prog, input, stack, depths, h as int, f) == then_run(
                run_within(prog, input, tp, ts, fuel_at(f, d)),
                seg_res(prog, input, rest, rdepths, h as int, f),
            ));
        }
        assert forall|g: nat| #[trigger] run_within(prog, input, tp, ts, g) is None by {
            lemma_no_return(prog, input, tp, ts, e, d, g);
        }
    }
    assert forall|f: nat| #[trigger] run_within(prog, input, pc, sp, f) is Some implies run_within(
        prog,
        input,
        pc,
        sp,
        f,
    ) == seg_res(prog, input, rest, rdepths, 0, f) by {
        lemma_relation_pop(prog, input, stack, depths, 0, f, run_within(prog, input, pc, sp, f));
    }
    assert forall|p: int, s: int|
        0 <= p < prog.len() && 0 <= s < w && #[trigger] seen(marked, w, p, s) implies accounted(
        prog,
        input,
        rest,
        rdepths,
        info,
        p,
        s,
    ) by {
        assert(accounted(prog, input, stack, depths, info, p, s));
        if !finished(prog, input, p, s) {
            let (e, h) = info[(p, s)];
            assert forall|f: nat|
                #[trigger] run_within(prog, input, p, s, fuel_at(f, e)) is Some implies run_within(
                prog,
                input,
                p,
                s,
                fuel_at(f, e),
            ) == seg_res(prog, input, rest, rdepths, h as int, f) by {
                lemma_relation_pop(
                    prog,
                    input,
                    stack,
                    depths,
                    h as int,
                    f,
                    run_within(prog, input, p, s, fuel_at(f, e)),
                );
            }
            if h >= rest.len() {
                assert forall|f: nat| #[trigger] run_within(prog, input, p, s, f) is Some implies run_within(
                    prog,
                    input,
                    p,
                    s,
                    f,
                ) == Some(Ok::<bool, EvalError>(false)) by {
                    assert(fuel_at(f + e, e) == f);
                    assert(run_within(prog, input, p, s, fuel_at(f + e, e)) is Some);
                }
            } else {
                assert forall|i: int| h <= i < rest.len() implies rdepths[i] > e by {
                    assert(rdepths[i] == depths[i]);
                }
            }
        }
    }
}

/// One state on top of what waits from its own index runs as it alone.
proof fn lemma_seg_one(
    prog: Seq<Instruction>,
    input: Seq<char>,
    rest: Seq<(usize, usize)>,
    rdepths: Seq<nat>,
    x: (usize, usize),
    dx: nat,
    f: nat,
)
    ensures
        seg_res(prog, input, rest.push(x), rdepths.push(dx), rest.len() as int, f) == run_within(
            prog,
            input,
            x.0 as int,
            x.1 as int,
            fuel_at(f, dx),
        ),
{
    let st = rest.push(x);
    let ds = rdepths.push(dx);
    assert(st.drop_last() =~= rest);
    assert(ds.drop_last() =~= rdepths);
    assert(st.last() == x);
    assert(ds.last() == dx);
    assert(seg_res(prog, input, rest, rdepths, rest.len() as int, f) == Some(Ok::<bool, EvalError>(false)));
    assert(seg_res(prog, input, st, ds, rest.len() as int, f) == then_run(
        run_within(prog, input, x.0 as int, x.1 as int, fuel_at(f, dx)),
        seg_res(prog, input, rest, rdepths, rest.len() as int, f),
    ));
    lemma_then_run_assoc(run_within(prog, input, x.0 as int, x.1 as int, fuel_at(f, dx)), None, None);
}

/// Two states on top of what waits, from the lower one's index: the top
/// first, then the other.
proof fn lemma_seg_two(
    prog: Seq<Instruction>,
    input: Seq<char>,
    rest: Seq<(usize, usize)>,
    rdepths: Seq<nat>,
    x: (usize, usize),
    y: (usize, usize),
    dx: nat,
    f: nat,
)
    ensures
        seg_res(prog, input, rest.push(y).push(x), rdepths.push(dx).push(dx), rest.len() as int, f)
            == then_run(
            run_within(prog, input, x.0 as int, x.1 as int, fuel_at(f, dx)),
            run_within(prog, input, y.0 as int, y.1 as int, fuel_at(f, dx)),
        ),
{
    assert(rest.push(y).push(x).drop_last() =~= rest.push(y));
    assert(rdepths.push(dx).push(dx).drop_last() =~= rdepths.push(dx));
    lemma_seg_one(prog, input, rest, rdepths, y, dx, f);
}

/// The depths of what a step pushes: one more than the state it leaves.
spec fn pushed_depths(depths: Seq<nat>, k: nat) -> Seq<nat> {
    depths.drop_last() + Seq::new(k, |i: int| depths.last() + 1)
}

/// What is pushed on leaving the top runs as the top itself, wherever the
/// top's run returns.
proof fn lemma_order_key(
    prog: Seq<Instruction>,
    input: Seq<char>,
    stack: Seq<(usize, usize)>,
    depths: Seq<nat>,
    f: nat,
)
    requires
        stack.len() > 0,
        depths.len() == stack.len(),
        stack.last().0 < prog.len(),
        !(prog[stack.last().0 as int] is Match),
        prog.len() <= usize::MAX,
        input.len() < usize::MAX,
        stack.last().1 <= input.len(),
    ensures
        ({
            let top = stack.last();
            let succ = successors(prog, input, top.0 as int, top.1 as int);
            let stack2 = stack.drop_last() + succ;
            let depths2 = pushed_depths(depths, succ.len());
            let g = fuel_at(f, depths.last());
            run_within(prog, input, top.0 as int, top.1 as int, g) is Some ==> run_within(
                prog,
                input,
                top.0 as int,
                top.1 as int,
                g,
            ) == seg_res(prog, input, stack2, depths2, stack.len() - 1, f)
        }),
{
    let top = stack.last();
    let (tp, ts) = (top.0 as int, top.1 as int);
    let succ = successors(prog, input, tp, ts);
    let rest = stack.drop_last();
    let stack2 = rest + succ;
    let d = depths.last();
    let depths2 = pushed_depths(depths, succ.len());
    let g = fuel_at(f, d);
    let rd = depths.drop_last();
    if g > 0 {
        let g1 = (g - 1) as nat;
        assert(fuel_at(f, d + 1) == g1);
        match prog[tp] {
            Instruction::Split(a, b) => {
                assert(stack2 =~= rest.push((b, ts as usize)).push((a, ts as usize)));
                assert(depths2 =~= rd.push(d + 1).push(d + 1));
                lemma_seg_two(prog, input, rest, rd, (a, ts as usize), (b, ts as usize), d + 1, f);
            },
            Instruction::Jump(t) => {
                assert(stack2 =~= rest.push((t, ts as usize)));
                assert(depths2 =~= rd.push(d + 1));
                lemma_seg_one(prog, input, rest, rd, (t, ts as usize), d + 1, f);
            },
            _ => {
                if succ.len() == 0 {
                    assert(stack2 =~= rest);
                } else {
                    let x = ((tp + 1) as usize, (ts + 1) as usize);
                    assert(stack2 =~= rest.push(x));
                    assert(depths2 =~= rd.push(d + 1));
                    lemma_seg_one(prog, input, rest, rd, x, d + 1, f);
                }
            },
        }
    }
}

/// A relation between a run and what waits from index `h` up, at or below
/// the top, holds on after a step.
proof fn lemma_relation_push(
    prog: Seq<Instruction>,
    input: Seq<char>,
    stack: Seq<(usize, usize)>,
    depths: Seq<nat>,
    h: int,
    f: nat,
    x: Option<Result<bool, EvalError>>,
)
    requires
        stack.len() > 0,
        depths.len() == stack.len(),
        stack.last().0 < prog.len(),
        !(prog[stack.last().0 as int] is Match),
        prog.len() <= usize::MAX,
        input.len() < usize::MAX,
        stack.last().1 <= input.len(),
        0 <= h < stack.len(),
        x is Some ==> x == seg_res(prog, input, stack, depths, h, f),
    ensures
        ({
            let top = stack.last();
            let succ = successors(prog, input, top.0 as int, top.1 as int);
            x is Some ==> x == seg_res(
                prog,
                input,
                stack.drop_last() + succ,
                pushed_depths(depths, succ.len()),
                h,
                f,
            )
        }),
{
    let top = stack.last();
    let (tp, ts) = (top.0 as int, top.1 as int);
    let succ = successors(prog, input, tp, ts);
    let rest = stack.drop_last();
    let stack2 = rest + succ;
    let depths2 = pushed_depths(depths, succ.len());
    let k = rest.len() as int;
    let g = fuel_at(f, depths.last());
    lemma_order_key(prog, input, stack, depths, f);
    lemma_seg_split(prog, input, stack, depths, h, k, f);
    lemma_seg_split(prog, input, stack2, depths2, h, k, f);
    assert(stack.subrange(0, k) =~= rest);
    assert(depths.subrange(0, k) =~= depths.drop_last());
    assert(stack2.subrange(0, k) =~= rest);
    assert(depths2.subrange(0, k) =~= depths.drop_last());
    let r = run_within(prog, input, tp, ts, g);
    assert(seg_res(prog, input, stack, depths, k, f) == then_run(
        r,
        seg_res(prog, input, rest, depths.drop_last(), k, f),
    ));
    lemma_then_run_assoc(r, None, None);
}

/// Entering a new state that is not accepting, and pushing what it moves to,
/// keeps the invariant.
proof fn lemma_order_advance(
    prog: Seq<Instruction>,
    input: Seq<char>,
    marked: Seq<bool>,
    stack: Seq<(usize, usize)>,
    depths: Seq<nat>,
    info: Map<(int, int), (nat, nat)>,
    pc: int,
    sp: int,
)
    requires
        order_inv(prog, input, marked, stack, depths, info, pc, sp),
        marked.len() == prog.len() * (input.len() + 1),
        input.len() < usize::MAX,
        prog.len() <= usize::MAX,
        stack.len() > 0,
        stack.last().0 < prog.len(),
        stack.last().1 <= input.len(),
        !seen(marked, input.len() + 1int, stack.last().0 as int, stack.last().1 as int),
        !(prog[stack.last().0 as int] is Match),
    ensures
        ({
            let top = stack.last();
            let succ = successors(prog, input, top.0 as int, top.1 as int);
            order_inv(
                prog,
                input,
                marked.update(top.0 * (input.len() + 1) + top.1, true),
                stack.drop_last() + succ,
                pushed_depths(depths, succ.len()),
                info.insert((top.0 as int, top.1 as int), (depths.last(), (stack.len() - 1) as nat)),
                pc,
                sp,
            )
        }),
{
    reveal(order_inv);
    let w = input.len() + 1int;
    let n = prog.len() as int;
    let top = stack.last();
    let (tp, ts) = (top.0 as int, top.1 as int);
    let succ = successors(prog, input, tp, ts);
    let rest = stack.drop_last();
    let stack2 = rest + succ;
    let d = depths.last();
    let depths2 = pushed_depths(depths, succ.len());
    let k = rest.len() as int;
    let marked2 = marked.update(top.0 * (input.len() + 1) + top.1, true);
    let info2 = info.insert((tp, ts), (d, k as nat));
    lemma_index(n, w, tp, ts);
    assert(enter_step(prog, input, marked, stack, marked2, stack2)) by {
        assert forall|i: int| 0 <= i < stack.len() - 1 implies stack2[i] == stack[i] by {}
    }
    lemma_enter_seen(prog, input, marked, stack, marked2, stack2);
    assert(depths2.len() == stack2.len());
    assert forall|i: int| k <= i < stack2.len() implies depths2[i] == d + 1 by {}
    assert forall|i: int| 0 <= i < k implies depths2[i] == depths[i] by {}
    assert forall|f: nat| #[trigger] run_within(prog, input, pc, sp, f) is Some implies run_within(
        prog,
        input,
        pc,
        sp,
        f,
    ) == seg_res(prog, input, stack2, depths2, 0, f) by {
        lemma_relation_push(prog, input, stack, depths, 0, f, run_within(prog, input, pc, sp, f));
    }
    assert forall|p: int, s: int|
        0 <= p < n && 0 <= s < w && #[trigger] seen(marked2, w, p, s) implies accounted(
        prog,
        input,
        stack2,
        depths2,
        info2,
        p,
        s,
    ) by {
        if p == tp && s == ts {
            assert(info2[(p, s)] == (d, k as nat));
            assert forall|f: nat|
                #[trigger] run_within(prog, input, p, s, fuel_at(f, d)) is Some implies run_within(
                prog,
                input,
                p,
                s,
                fuel_at(f, d),
            ) == seg_res(prog, input, stack2, depths2, k, f) by {
                lemma_order_key(prog, input, stack, depths, f);
            }
            if succ.len() == 0 {
                assert forall|f: nat| #[trigger] run_within(prog, input, p, s, f) is Some implies run_within(
                    prog,
                    input,
                    p,
                    s,
                    f,
                ) == Some(Ok::<bool, EvalError>(false)) by {
                    assert(fuel_at(f + d, d) == f);
                    assert(run_within(prog, input, p, s, fuel_at(f + d, d)) is Some);
                }
            }
        } else {
            assert(seen(marked, w, p, s));
            assert(accounted(prog, input, stack, depths, info, p, s));
            if !finished(prog, input, p, s) {
                let (e, h) = info[(p, s)];
                assert(info2[(p, s)] == info[(p, s)]);
                assert(depths[stack.len() - 1] > e);
                assert forall|f: nat|
                    #[trigger] run_within(prog, input, p, s, fuel_at(f, e)) is Some implies run_within(
                    prog,
                    input,
                    p,
                    s,
                    fuel_at(f, e),
                ) == seg_res(prog, input, stack2, depths2, h as int, f) by {
                    lemma_relation_push(
                        prog,
                        input,
                        stack,
                        depths,
                        h as int,
                        f,
                        run_within(prog, input, p, s, fuel_at(f, e)),
                    );
                }
                if h >= stack2.len() {
                    assert forall|f: nat| #[trigger] run_within(prog, input, p, s, f) is Some implies run_within(
                        prog,
                        input,
                        p,
                        s,
                        f,
                    ) == Some(Ok::<bool, EvalError>(false)) by {
                        assert(fuel_at(f + e, e) == f);
                        assert(run_within(prog, input, p, s, fuel_at(f + e, e)) is Some);
                    }
                }
            }
        }
    }
}

/// The search starts with `(pc, sp)` alone, at depth 0, over a closed table.
proof fn lemma_order_init(
    prog: Seq<Instruction>,
    input: Seq<char>,
    marked: Seq<bool>,
    pc: usize,
    sp: usize,
)
    requires
        closed_table(prog, input, marked),
        sp <= input.len(),
    ensures
        order_inv(
            prog,
            input,
            marked,
            seq![(pc, sp)],
            seq![0nat],
            Map::empty(),
            pc as int,
            sp as int,
        ),
{
    reveal(order_inv);
    let w = input.len() + 1int;
    let stack = seq![(pc, sp)];
    let depths = seq![0nat];
    assert(stack.drop_last() =~= seq![]);
    assert(depths.drop_last() =~= seq![]);
    assert(search_inv(prog, input, marked, seq![]));
    assert forall|f: nat| #[trigger] run_within(prog, input, pc as int, sp as int, f) is Some implies run_within(
        prog,
        input,
        pc as int,
        sp as int,
        f,
    ) == seg_res(prog, input, stack, depths, 0, f) by {
        assert(fuel_at(f, 0) == f);
        assert(stack =~= Seq::<(usize, usize)>::empty().push((pc, sp)));
        assert(depths =~= Seq::<nat>::empty().push(0nat));
        lemma_seg_one(prog, input, Seq::empty(), Seq::empty(), (pc, sp), 0, f);
    }
    assert forall|p: int, s: int|
        0 <= p < prog.len() && 0 <= s < w && #[trigger] seen(marked, w, p, s) implies accounted(
        prog,
        input,
        stack,
        depths,
        Map::empty(),
        p,
        s,
    ) by {
        assert forall|f: nat| #[trigger] run_within(prog, input, p, s, f) is Some implies run_within(
            prog,
            input,
            p,
            s,
            f,
        ) == Some(Ok::<bool, EvalError>(false)) by {
            lemma_closed_rejects(prog, input, marked, p, s, f);
            lemma_run_sound(prog, input, p, s, f);
            assert(!accepts_within(prog, input, p, s, f));
            assert(!reaches_invalid_within(prog, input, p, s, f));
            assert(run_within(prog, input, p, s, f) != Some(Ok::<bool, EvalError>(true)));
            let v = run_within(prog, input, p, s, f)->Some_0;
            assert(v is Ok);
            assert(v->Ok_0 == false);
            assert(v == Ok::<bool, EvalError>(false));
        }
    }
}

/// Where the top of the stack gives `r` wherever its run returns (and `r` is
/// not `Ok(false)`), so does the run from `(pc, sp)`.
proof fn lemma_order_top(
    prog: Seq<Instruction>,
    input: Seq<char>,
    marked: Seq<bool>,
    stack: Seq<(usize, usize)>,
    depths: Seq<nat>,
    info: Map<(int, int), (nat, nat)>,
    pc: int,
    sp: int,
    r: Result<bool, EvalError>,
)
    requires
        order_inv(prog, input, marked, stack, depths, info, pc, sp),
        stack.len() > 0,
        r != Ok::<bool, EvalError>(false),
        forall|g: nat|
            #[trigger] run_within(prog, input, stack.last().0 as int, stack.last().1 as int, g) is Some
                ==> run_within(prog, input, stack.last().0 as int, stack.last().1 as int, g) == Some(r),
    ensures
        forall|f: nat| #[trigger]
            run_within(prog, input, pc, sp, f) is Some ==> run_within(prog, input, pc, sp, f) == Some(r),
{
    reveal(order_inv);
    assert forall|f: nat| #[trigger]
        run_within(prog, input, pc, sp, f) is Some implies run_within(prog, input, pc, sp, f) == Some(r) by {
        let g = fuel_at(f, depths.last());
        assert(run_within(prog, input, stack.last().0 as int, stack.last().1 as int, g) is Some
            ==> run_within(prog, input, stack.last().0 as int, stack.last().1 as int, g) == Some(r));
    }
}

/// Where nothing waits, every run from `(pc, sp)` that returns gives
/// `Ok(false)`.
proof fn lemma_order_done(
    prog: Seq<Instruction>,
    input: Seq<char>,
    marked: Seq<bool>,
    stack: Seq<(usize, usize)>,
    depths: Seq<nat>,
    info: Map<(int, int), (nat, nat)>,
    pc: int,
    sp: int,
)
    requires
        order_inv(prog, input, marked, stack, depths, info, pc, sp),
        stack.len() == 0,
    ensures
        forall|f: nat| #[trigger]
            run_within(prog, input, pc, sp, f) is Some ==> run_within(prog, input, pc, sp, f) == Some(
                Ok::<bool, EvalError>(false),
            ),
{
    reveal(order_inv);
}

/// A run from cursor `sp + j` on `input` is the run from `j` on what follows
/// `sp`.
proof fn lemma_runs_on_suffix(
    prog: Seq<Instruction>,
    input: Seq<char>,
    pc: int,
    sp: int,
    j: int,
    fuel: nat,
)
    requires
        0 <= sp <= input.len(),
        0 <= j,
    ensures
        run_within(prog, input, pc, sp + j, fuel) == run_within(
            prog,
            input.subrange(sp, input.len() as int),
            pc,
            j,
            fuel,
        ),
        accepts_within(prog, input, pc, sp + j, fuel) == accepts_within(
            prog,
            input.subrange(sp, input.len() as int),
            pc,
            j,
            fuel,
        ),
        reaches_invalid_within(prog, input, pc, sp + j, fuel) == reaches_invalid_within(
            prog,
            input.subrange(sp, input.len() as int),
            pc,
            j,
            fuel,
        ),
    decreases fuel,
{
    let rest = input.subrange(sp, input.len() as int);
    if fuel > 0 && 0 <= pc < prog.len() {
        let f = (fuel - 1) as nat;
        if j < rest.len() {
            assert(rest[j] == input[sp + j]);
        }
        match prog[pc] {
            Instruction::Char(_) => lemma_runs_on_suffix(prog, input, pc + 1, sp, j + 1, f),
            Instruction::Dot => lemma_runs_on_suffix(prog, input, pc + 1, sp, j + 1, f),
            Instruction::Jump(t) => lemma_runs_on_suffix(prog, input, t as int, sp, j, f),
            Instruction::Split(a, b) => {
                lemma_runs_on_suffix(prog, input, a as int, sp, j, f);
                lemma_runs_on_suffix(prog, input, b as int, sp, j, f);
            },
            Instruction::Match => {},
        }
    }
}

/// What a run from cursor `sp` does depends only on the text from `sp` on:
/// it is the run from the start of that suffix.
pub proof fn lemma_suffix_only(prog: Seq<Instruction>, input: Seq<char>, pc: int, sp: int)
    requires
        0 <= sp <= input.len(),
    ensures
        forall|fuel: nat|
            #[trigger] run_within(prog, input, pc, sp, fuel) == run_within(
                prog,
                input.subrange(sp, input.len() as int),
                pc,
                0,
                fuel,
            ),
        accepts(prog, input, pc, sp) == accepts(prog, input.subrange(sp, input.len() as int), pc, 0),
        reaches_invalid(prog, input, pc, sp) == reaches_invalid(
            prog,
            input.subrange(sp, input.len() as int),
            pc,
            0,
        ),
{
    let rest = input.subrange(sp, input.len() as int);
    assert forall|fuel: nat|
        #[trigger] run_within(prog, input, pc, sp, fuel) == run_within(prog, rest, pc, 0, fuel) by {
        lemma_runs_on_suffix(prog, input, pc, sp, 0, fuel);
    }
    if accepts(prog, input, pc, sp) {
        let f = choose|f: nat| accepts_within(prog, input, pc, sp, f);
        lemma_runs_on_suffix(prog, input, pc, sp, 0, f);
    }
    if accepts(prog, rest, pc, 0) {
        let f = choose|f: nat| accepts_within(prog, rest, pc, 0, f);
        lemma_runs_on_suffix(prog, input, pc, sp, 0, f);
    }
    if reaches_invalid(prog, input, pc, sp) {
        let f = choose|f: nat| reaches_invalid_within(prog, input, pc, sp, f);
        lemma_runs_on_suffix(prog, input, pc, sp, 0, f);
    }
    if reaches_invalid(prog, rest, pc, 0) {
        let f = choose|f: nat| reaches_invalid_within(prog, rest, pc, 0, f);
        lemma_runs_on_suffix(prog, input, pc, sp, 0, f);
    }
}

/// What a search of `prog` on `input` from `(pc, sp)` may give: an address
/// outside the program is reported as `InvalidPC`, and only where some run
/// reaches one; otherwise whether some run reaches `Match`. Wherever the backtracking run
/// returns, this is what it returns.
pub open spec fn search_result(
    prog: Seq<Instruction>,
    input: Seq<char>,
    pc: int,
    sp: int,
    r: Result<bool, EvalError>,
) -> bool {
    &&& pc >= prog.len() ==> r == Err::<bool, EvalError>(EvalError::InvalidPC)
    &&& r is Ok ==> r->Ok_0 == accepts(prog, input, pc, sp)
    &&& r == Ok::<bool, EvalError>(false) ==> !reaches_invalid(prog, input, pc, sp)
    &&& r is Err ==> r->Err_0 == EvalError::InvalidPC && reaches_invalid(prog, input, pc, sp)
    &&& well_formed(prog) && pc < prog.len() ==> r is Ok
    &&& forall|fuel: nat|
        #[trigger] run_within(prog, input, pc, sp, fuel) is Some ==> r == run_within(
            prog,
            input,
            pc,
            sp,
            fuel,
        )->Some_0
}

/// A table of states, none entered, with its row width, or `None` where the
/// states of a program of `n_insts` instructions on `n_chars` characters cannot
/// be numbered in `usize`.
pub(crate) fn state_table(n_insts: usize, n_chars: usize) -> (r: Option<(Vec<bool>, usize)>)
    ensures
        r is None <==> !states_fit(n_insts as int, n_chars as int),
        r is Some ==> ({
            let (t, w) = r->Some_0;
            &&& w == n_chars + 1
            &&& t@.len() == n_insts * (n_chars + 1)
            &&& forall|i: int| 0 <= i < t@.len() ==> !t@[i]
        }),
{
    let width = match n_chars.checked_add(1) {
        Some(w) => w,
        None => return None,
    };
    let total = match width.checked_mul(n_insts) {
        Some(t) => t,
        None => return None,
    };
    assert(width * n_insts == n_insts * width) by (nonlinear_arith);
    let mut marked: Vec<bool> = Vec::new();
    let mut k: usize = 0;
    while k < total
        invariant
            k <= total,
            marked@.len() == k,
            forall|i: int| 0 <= i < k ==> !marked@[i],
        decreases total - k,
    {
        marked.push(false);
        k = k + 1;
    }
    Some((marked, width))
}

/// A table of states is closed for `prog` on `input`: it has a place for each
/// state, and each state entered is explored with nothing waiting, so none
/// of them reaches `Match` or an address outside the program.
pub open spec fn closed_table(prog: Seq<Instruction>, input: Seq<char>, marked: Seq<bool>) -> bool {
    &&& marked.len() == prog.len() * (input.len() + 1)
    &&& closed_states(prog, input, marked)
}

/// Each entered state is explored with nothing waiting.
pub closed spec fn closed_states(prog: Seq<Instruction>, input: Seq<char>, marked: Seq<bool>) -> bool {
    search_inv(prog, input, marked, seq![])
}

/// Searches from `(pc, sp)` depth first, the first address of a `Split`
/// before its second, over `marked`: a state entered in an earlier search
/// that found neither `Match` nor an outside address is not entered again.
pub(crate) fn search(
    inst: &[Instruction],
    line: &[char],
    pc: usize,
    sp: usize,
    marked: &mut Vec<bool>,
    width: usize,
) -> (r: Result<bool, EvalError>)
    requires
        sp <= line@.len(),
        states_fit(inst@.len() as int, line@.len() as int),
        width == line@.len() + 1,
        closed_table(inst@, line@, old(marked)@),
    ensures
        search_result(inst@, line@, pc as int, sp as int, r),
        final(marked)@.len() == old(marked)@.len(),
        r == Ok::<bool, EvalError>(false) ==> closed_table(inst@, line@, final(marked)@),
{
    let ghost prog = inst@;
    let ghost input = line@;
    let ghost n = inst@.len() as int;
    if pc >= inst.len() {
        proof {
            assert(reaches_invalid_within(prog, input, pc as int, sp as int, 1));
            assert forall|f: nat| #[trigger] run_within(prog, input, pc as int, sp as int, f) is Some implies run_within(
                prog,
                input,
                pc as int,
                sp as int,
                f,
            ) == Some(Err::<bool, EvalError>(EvalError::InvalidPC)) by {}
        }
        return Err(EvalError::InvalidPC);
    }
    let ghost w = width as int;
    // the depth of each waiting state below the start, and for each state
    // entered its depth and the stack index from which its run waits
    let ghost mut depths: Seq<nat> = seq![0nat];
    let ghost mut info: Map<(int, int), (nat, nat)> = Map::empty();
    let mut stack: Vec<(usize, usize)> = Vec::new();
    stack.push((pc, sp));
    proof {
        assert(stack@ =~= seq![(pc, sp)]);
        lemma_state_init(prog, input, marked@, stack@, pc, sp);
        lemma_order_init(prog, input, marked@, pc, sp);
        lemma_count_le(marked@);
    }
    loop
        invariant
            prog == inst@,
            input == line@,
            n == inst@.len(),
            w == width,
            width == line@.len() + 1,
            states_fit(n, line@.len() as int),
            pc < n,
            marked@.len() == n * w,
            marked@.len() == old(marked)@.len(),
            count_true(marked@) <= marked@.len(),
            search_state(prog, input, marked@, stack@, pc as int, sp as int),
            order_inv(prog, input, marked@, stack@, depths, info, pc as int, sp as int),
        decreases marked@.len() - count_true(marked@), stack@.len(),
    {
        let ghost marked0 = marked@;
        let ghost stack0 = stack@;
        let top = stack.pop();
        match top {
            None => {
                proof {
                    lemma_state_done(prog, input, marked0, stack0, pc as int, sp as int);
                    lemma_order_done(prog, input, marked0, stack0, depths, info, pc as int, sp as int);
                }
                return Ok(false);
            },
            Some((cur_pc, cur_sp)) => {
                assert(stack0.last() == (cur_pc, cur_sp));
                proof {
                    lemma_state_top(prog, input, marked0, stack0, pc as int, sp as int);
                }
                if cur_pc >= inst.len() {
                    proof {
                        assert(reaches_invalid_within(prog, input, cur_pc as int, cur_sp as int, 1));
                        assert forall|g: nat| #[trigger] run_within(
                            prog,
                            input,
                            cur_pc as int,
                            cur_sp as int,
                            g,
                        ) is Some implies run_within(prog, input, cur_pc as int, cur_sp as int, g)
                            == Some(Err::<bool, EvalError>(EvalError::InvalidPC)) by {}
                        lemma_order_top(
                            prog,
                            input,
                            marked0,
                            stack0,
                            depths,
                            info,
                            pc as int,
                            sp as int,
                            Err(EvalError::InvalidPC),
                        );
                    }
                    return Err(EvalError::InvalidPC);
                }
                proof {
                    lemma_index(n, w, cur_pc as int, cur_sp as int);
                    assert(n * w == (input.len() + 1) * n) by (nonlinear_arith)
                        requires
                            w == input.len() + 1,
                    ;
                }
                let idx = cur_pc * width + cur_sp;
                if marked[idx] {
                    proof {
                        lemma_skip(prog, input, marked0, stack0, pc as int, sp as int);
                        lemma_order_skip(prog, input, marked0, stack0, depths, info, pc as int, sp as int);
                        depths = depths.drop_last();
                    }
                    continue;
                }
                if let Instruction::Match = inst[cur_pc] {
                    proof {
                        assert(accepts_within(prog, input, cur_pc as int, cur_sp as int, 1));
                        assert forall|g: nat| #[trigger] run_within(
                            prog,
                            input,
                            cur_pc as int,
                            cur_sp as int,
                            g,
                        ) is Some implies run_within(prog, input, cur_pc as int, cur_sp as int, g)
                            == Some(Ok::<bool, EvalError>(true)) by {}
                        lemma_order_top(
                            prog,
                            input,
                            marked0,
                            stack0,
                            depths,
                            info,
                            pc as int,
                            sp as int,
                            Ok(true),
                        );
                    }
                    return Ok(true);
                }
                proof {
                    lemma_advance(prog, input, marked0, stack0, pc as int, sp as int);
                    lemma_fit_len(n, input.len() as int);
                    lemma_order_advance(prog, input, marked0, stack0, depths, info, pc as int, sp as int);
                    info = info.insert(
                        (cur_pc as int, cur_sp as int),
                        (depths.last(), (stack0.len() - 1) as nat),
                    );
                    depths = pushed_depths(
                        depths,
                        successors(prog, input, cur_pc as int, cur_sp as int).len(),
                    );
                    lemma_count_set(marked0, idx as int);
                }
                marked.set(idx, true);
                proof {
                    lemma_count_le(marked@);
                }
                match inst[cur_pc] {
                    Instruction::Char(c) => {
                        if cur_sp < line.len() && line[cur_sp] == c {
                            stack.push((cur_pc + 1, cur_sp + 1));
                        }
                    },
                    Instruction::Dot => {
                        if cur_sp < line.len() {
                            stack.push((cur_pc + 1, cur_sp + 1));
                        }
                    },
                    Instruction::Match => {},
                    Instruction::Jump(t) => {
                        stack.push((t, cur_sp));
                    },
                    Instruction::Split(a, b) => {
                        // the first address is tried first: it goes on top
                        stack.push((b, cur_sp));
                        stack.push((a, cur_sp));
                    },
                }
                assert(stack@ =~= stack0.drop_last() + successors(
                    prog,
                    input,
                    cur_pc as int,
                    cur_sp as int,
                ));
            },
        }
    }
}

/// Runs `inst` on `line` from program counter `pc` and cursor `sp`.
pub fn eval_depth(inst: &[Instruction], line: &[char], pc: usize, sp: usize) -> (r: Result<bool, EvalError>)
    requires
        sp <= line@.len(),
    ensures
        !states_fit(inst@.len() as int, line@.len() as int) ==> r == Err::<bool, EvalError>(
            EvalError::SPOverFlow,
        ),
        states_fit(inst@.len() as int, line@.len() as int) ==> search_result(
            inst@,
            line@,
            pc as int,
            sp as int,
            r,
        ),
{
    match state_table(inst.len(), line.len()) {
        None => Err(EvalError::SPOverFlow),
        Some((mut marked, width)) => {
            proof {
                lemma_fresh_table(inst@, line@, marked@);
            }
            search(inst, line, pc, sp, &mut marked, width)
        },
    }
}

/// Runs `inst` on `line` from its first instruction and the start of the text.
/// Both search orders are served by the depth-first search.
pub fn eval(inst: &[Instruction], line: &[char], is_depth: bool) -> (r: Result<bool, EvalError>)
    ensures
        !states_fit(inst@.len() as int, line@.len() as int) ==> r == Err::<bool, EvalError>(
            EvalError::SPOverFlow,
        ),
        states_fit(inst@.len() as int, line@.len() as int) ==> search_result(inst@, line@, 0, 0, r),
{
    eval_depth(inst, line, 0, 0)
}

} // verus!
