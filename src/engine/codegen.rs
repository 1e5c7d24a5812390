//! Syntax tree to program.
//!
//! Each construct is emitted at the current address. A forward branch is
//! first emitted with a placeholder target, then overwritten once the code it
//! skips has been emitted.
use super::evaluator::well_formed;
use super::parser::{Re, AST};
use super::Instruction;
use crate::helper::safe_add;
use vstd::prelude::*;

verus! {

broadcast use vstd::std_specs::vec::axiom_vec_index_decreases, vstd::seq::group_seq_axioms;

#[derive(Debug)]
pub enum CodeGenError {
    /// An address does not fit in `usize`.
    PCOverFlow,
    /// A placeholder of `e*` was not where it was emitted. This generator
    /// overwrites each placeholder at its own address and never reports it.
    FailStar,
    /// As `FailStar`, for `e1|e2`.
    FailOr,
    /// As `FailStar`, for `e?`.
    FailQuestion,
}

/// The number of instructions emitted for `re`.
pub open spec fn size(re: Re) -> nat
    decreases re, 0int,
{
    match re {
        Re::Char(_) => 1,
        Re::Dot => 1,
        Re::Plus(e) => size(*e) + 1,
        Re::Star(e) => size(*e) + 2,
        Re::Question(e) => size(*e) + 1,
        Re::Or(e1, e2) => size(*e1) + size(*e2) + 2,
        Re::Concat(s) => size_seq(s, s.len() as int),
    }
}

/// The number of instructions emitted for the first `n` items of `s`.
pub open spec fn size_seq(s: Seq<Re>, n: int) -> nat
    decreases s, n,
{
    if n <= 0 || n > s.len() {
        0
    } else {
        size_seq(s, n - 1) + size(s[n - 1])
    }
}

/// The instructions emitted for `re` when its first instruction stands at
/// address `base`.
pub open spec fn code(re: Re, base: int) -> Seq<Instruction>
    decreases re, 0int,
{
    match re {
        Re::Char(c) => seq![Instruction::Char(c)],
        Re::Dot => seq![Instruction::Dot],
        // L1: e; split L1, L2; L2:
        Re::Plus(e) => code(*e, base).push(
            Instruction::Split(base as usize, (base + size(*e) + 1) as usize),
        ),
        // L1: split L2, L3; L2: e; jump L1; L3:
        Re::Star(e) => seq![Instruction::Split((base + 1) as usize, (base + size(*e) + 2) as usize)]
            + code(*e, base + 1).push(Instruction::Jump(base as usize)),
        // split L1, L2; L1: e; L2:
        Re::Question(e) => seq![Instruction::Split((base + 1) as usize, (base + size(*e) + 1) as usize)]
            + code(*e, base + 1),
        // split L1, L2; L1: e1; jump L3; L2: e2; L3:
        Re::Or(e1, e2) => seq![Instruction::Split((base + 1) as usize, (base + size(*e1) + 2) as usize)]
            + code(*e1, base + 1).push(Instruction::Jump((base + size(*e1) + size(*e2) + 2) as usize))
            + code(*e2, base + size(*e1) + 2),
        Re::Concat(s) => code_seq(s, s.len() as int, base),
    }
}

/// The instructions emitted for the first `n` items of `s`, from `base` on.
pub open spec fn code_seq(s: Seq<Re>, n: int, base: int) -> Seq<Instruction>
    decreases s, n,
{
    if n <= 0 || n > s.len() {
        seq![]
    } else {
        code_seq(s, n - 1, base) + code(s[n - 1], base + size_seq(s, n - 1))
    }
}

/// The program for `re`: its code from address 0, then `Match`.
pub open spec fn program(re: Re) -> Seq<Instruction> {
    code(re, 0).push(Instruction::Match)
}

/// The code for `re` has `size(re)` instructions.
pub proof fn lemma_code_len(re: Re, base: int)
    ensures
        code(re, base).len() == size(re),
    decreases re, 0int,
{
    match re {
        Re::Plus(e) => lemma_code_len(*e, base),
        Re::Star(e) => lemma_code_len(*e, base + 1),
        Re::Question(e) => lemma_code_len(*e, base + 1),
        Re::Or(e1, e2) => {
            lemma_code_len(*e1, base + 1);
            lemma_code_len(*e2, base + size(*e1) + 2);
        },
        Re::Concat(s) => lemma_code_seq_len(s, s.len() as int, base),
        _ => {},
    }
}

/// The code for the first `n` items of `s` has `size_seq(s, n)` instructions.
pub proof fn lemma_code_seq_len(s: Seq<Re>, n: int, base: int)
    ensures
        code_seq(s, n, base).len() == size_seq(s, n),
    decreases s, n,
{
    if 0 < n <= s.len() {
        lemma_code_seq_len(s, n - 1, base);
        lemma_code_len(s[n - 1], base + size_seq(s, n - 1));
    }
}

/// Taking more items of a sequence never emits fewer instructions.
proof fn lemma_size_seq_mono(s: Seq<Re>, m: int, n: int)
    requires
        0 <= m <= n <= s.len(),
    ensures
        size_seq(s, m) <= size_seq(s, n),
    decreases n - m,
{
    if m < n {
        lemma_size_seq_mono(s, m, n - 1);
    }
}

/// `ins` is not `Match`, and each address it names lies in `lo..=hi`.
pub open spec fn inner_instruction(ins: Instruction, lo: int, hi: int) -> bool {
    match ins {
        Instruction::Jump(t) => lo <= t <= hi,
        Instruction::Split(a, b) => lo <= a <= hi && lo <= b <= hi,
        Instruction::Match => false,
        _ => true,
    }
}

/// The code for `re` holds no `Match` and names only addresses from its own
/// first one to the one just after it.
pub proof fn lemma_code_targets(re: Re, base: int)
    requires
        0 <= base,
        base + size(re) <= usize::MAX,
    ensures
        forall|i: int|
            0 <= i < code(re, base).len() ==> inner_instruction(
                #[trigger] code(re, base)[i],
                base,
                base + size(re),
            ),
    decreases re, 0int,
{
    lemma_code_len(re, base);
    match re {
        Re::Plus(e) => {
            lemma_code_len(*e, base);
            lemma_code_targets(*e, base);
            assert forall|i: int| 0 <= i < code(re, base).len() implies inner_instruction(
                #[trigger] code(re, base)[i],
                base,
                base + size(re),
            ) by {
                if i < size(*e) {
                    assert(code(re, base)[i] == code(*e, base)[i]);
                    assert(inner_instruction(code(*e, base)[i], base, base + size(*e)));
                }
            }
        },
        Re::Star(e) => {
            lemma_code_len(*e, base + 1);
            lemma_code_targets(*e, base + 1);
            assert forall|i: int| 0 <= i < code(re, base).len() implies inner_instruction(
                #[trigger] code(re, base)[i],
                base,
                base + size(re),
            ) by {
                if 1 <= i <= size(*e) {
                    assert(code(re, base)[i] == code(*e, base + 1)[i - 1]);
                    assert(inner_instruction(code(*e, base + 1)[i - 1], base + 1, base + 1 + size(*e)));
                }
            }
        },
        Re::Question(e) => {
            lemma_code_len(*e, base + 1);
            lemma_code_targets(*e, base + 1);
            assert forall|i: int| 0 <= i < code(re, base).len() implies inner_instruction(
                #[trigger] code(re, base)[i],
                base,
                base + size(re),
            ) by {
                if 1 <= i {
                    assert(code(re, base)[i] == code(*e, base + 1)[i - 1]);
                    assert(inner_instruction(code(*e, base + 1)[i - 1], base + 1, base + 1 + size(*e)));
                }
            }
        },
        Re::Or(e1, e2) => {
            let b2 = base + size(*e1) + 2;
            lemma_code_len(*e1, base + 1);
            lemma_code_len(*e2, b2);
            lemma_code_targets(*e1, base + 1);
            lemma_code_targets(*e2, b2);
            assert forall|i: int| 0 <= i < code(re, base).len() implies inner_instruction(
                #[trigger] code(re, base)[i],
                base,
                base + size(re),
            ) by {
                if 1 <= i <= size(*e1) {
                    assert(code(re, base)[i] == code(*e1, base + 1)[i - 1]);
                    assert(inner_instruction(code(*e1, base + 1)[i - 1], base + 1, base + 1 + size(*e1)));
                } else if i >= size(*e1) + 2 {
                    assert(code(re, base)[i] == code(*e2, b2)[i - b2 + base]);
                    assert(inner_instruction(code(*e2, b2)[i - b2 + base], b2, b2 + size(*e2)));
                }
            }
        },
        Re::Concat(s) => {
            lemma_code_seq_targets(s, s.len() as int, base);
            assert(code(re, base) == code_seq(s, s.len() as int, base));
        },
        Re::Char(c) => {
            assert(code(re, base) == seq![Instruction::Char(c)]);
        },
        Re::Dot => {
            assert(code(re, base) == seq![Instruction::Dot]);
        },
    }
}

/// The code for the first `n` items of `s` holds no `Match` and names only
/// addresses from its own first one to the one just after it.
pub proof fn lemma_code_seq_targets(s: Seq<Re>, n: int, base: int)
    requires
        0 <= base,
        base + size_seq(s, n) <= usize::MAX,
    ensures
        forall|i: int|
            0 <= i < code_seq(s, n, base).len() ==> inner_instruction(
                #[trigger] code_seq(s, n, base)[i],
                base,
                base + size_seq(s, n),
            ),
    decreases s, n,
{
    if 0 < n <= s.len() {
        let b2 = base + size_seq(s, n - 1);
        lemma_code_seq_targets(s, n - 1, base);
        lemma_code_targets(s[n - 1], b2);
        lemma_code_seq_len(s, n - 1, base);
        let c1 = code_seq(s, n - 1, base);
        let c2 = code(s[n - 1], b2);
        assert forall|i: int| 0 <= i < code_seq(s, n, base).len() implies inner_instruction(
            #[trigger] code_seq(s, n, base)[i],
            base,
            base + size_seq(s, n),
        ) by {
            if i < c1.len() {
                assert(code_seq(s, n, base)[i] == c1[i]);
            } else {
                assert(code_seq(s, n, base)[i] == c2[i - c1.len()]);
            }
        }
    }
}

/// Every program that compiles ends in a `Match`, and holds no other.
pub proof fn lemma_program_single_match(re: Re)
    requires
        size(re) + 1 <= usize::MAX,
    ensures
        program(re).last() == Instruction::Match,
        forall|i: int| 0 <= i < program(re).len() - 1 ==> #[trigger] program(re)[i] != Instruction::Match,
{
    lemma_code_targets(re, 0);
    assert forall|i: int| 0 <= i < program(re).len() - 1 implies #[trigger] program(re)[i] != Instruction::Match by {
        assert(program(re)[i] == code(re, 0)[i]);
    }
}

/// A program that compiles moves only to addresses inside it.
pub proof fn lemma_program_well_formed(re: Re)
    requires
        size(re) + 1 <= usize::MAX,
    ensures
        well_formed(program(re)),
        program(re).len() == size(re) + 1,
{
    lemma_code_targets(re, 0);
    lemma_code_len(re, 0);
    let p = program(re);
    assert forall|i: int| 0 <= i < p.len() implies match #[trigger] p[i] {
        Instruction::Char(_) => i + 1 < p.len(),
        Instruction::Dot => i + 1 < p.len(),
        Instruction::Jump(t) => t < p.len(),
        Instruction::Split(a, b) => a < p.len() && b < p.len(),
        Instruction::Match => true,
    } by {
        if i < size(re) {
            assert(p[i] == code(re, 0)[i]);
        }
    }
}

/// Compiling the same tree twice gives the same program.
pub proof fn lemma_compile_deterministic(a: &AST, b: &AST)
    requires
        a@ == b@,
    ensures
        program(a@) == program(b@),
{
}

/// `ins` with each address it names moved by `d`.
pub open spec fn shift(ins: Instruction, d: int) -> Instruction {
    match ins {
        Instruction::Jump(t) => Instruction::Jump((t + d) as usize),
        Instruction::Split(a, b) => Instruction::Split((a + d) as usize, (b + d) as usize),
        _ => ins,
    }
}

/// Each instruction of `c` with the addresses it names moved by `d`.
pub open spec fn shift_all(c: Seq<Instruction>, d: int) -> Seq<Instruction> {
    c.map_values(|ins: Instruction| shift(ins, d))
}

/// The code for `re` at one address is its code at another, moved.
pub proof fn lemma_code_shift(re: Re, b: int, b2: int)
    requires
        0 <= b,
        0 <= b2,
        b + size(re) <= usize::MAX,
        b2 + size(re) <= usize::MAX,
    ensures
        code(re, b2) == shift_all(code(re, b), b2 - b),
    decreases re, 0int,
{
    let d = b2 - b;
    lemma_code_len(re, b);
    lemma_code_len(re, b2);
    match re {
        Re::Plus(e) => {
            lemma_code_shift(*e, b, b2);
            lemma_code_len(*e, b);
        },
        Re::Star(e) => {
            lemma_code_shift(*e, b + 1, b2 + 1);
            lemma_code_len(*e, b + 1);
        },
        Re::Question(e) => {
            lemma_code_shift(*e, b + 1, b2 + 1);
            lemma_code_len(*e, b + 1);
        },
        Re::Or(e1, e2) => {
            lemma_code_shift(*e1, b + 1, b2 + 1);
            lemma_code_shift(*e2, b + size(*e1) + 2, b2 + size(*e1) + 2);
            lemma_code_len(*e1, b + 1);
            lemma_code_len(*e2, b + size(*e1) + 2);
        },
        Re::Concat(s) => {
            lemma_code_seq_shift(s, s.len() as int, b, b2);
        },
        _ => {},
    }
    assert(code(re, b2) =~= shift_all(code(re, b), d));
}

/// The code for the first `n` items of `s` at one address is their code at
/// another, moved.
pub proof fn lemma_code_seq_shift(s: Seq<Re>, n: int, b: int, b2: int)
    requires
        0 <= b,
        0 <= b2,
        b + size_seq(s, n) <= usize::MAX,
        b2 + size_seq(s, n) <= usize::MAX,
    ensures
        code_seq(s, n, b2) == shift_all(code_seq(s, n, b), b2 - b),
    decreases s, n,
{
    if 0 < n <= s.len() {
        let m = size_seq(s, n - 1);
        lemma_code_seq_shift(s, n - 1, b, b2);
        lemma_code_shift(s[n - 1], b + m, b2 + m);
        lemma_code_seq_len(s, n - 1, b);
        lemma_code_len(s[n - 1], b + m);
        assert(code_seq(s, n, b2) =~= shift_all(code_seq(s, n, b), b2 - b));
    } else {
        assert(code_seq(s, n, b2) =~= shift_all(code_seq(s, n, b), b2 - b));
    }
}

struct Generator {
    /// The address of the next instruction.
    pc: usize,
    insts: Vec<Instruction>,
}

impl Generator {
    /// `r` is the outcome of emitting `re` into `old`, which left `self`.
    spec fn generated(self, old: Generator, re: Re, r: Result<(), CodeGenError>) -> bool {
        &&& r is Ok <==> old.pc + size(re) <= usize::MAX
        &&& r is Ok ==> self.insts@ == old.insts@ + code(re, old.pc as int) && self.pc
            == self.insts.len()
        &&& r is Err ==> r->Err_0 == CodeGenError::PCOverFlow
    }

    fn inc_pc(&mut self) -> (r: Result<(), CodeGenError>)
        ensures
            final(self).insts == old(self).insts,
            old(self).pc + 1 <= usize::MAX ==> r is Ok && final(self).pc == old(self).pc + 1,
            old(self).pc + 1 > usize::MAX ==> r is Err && r->Err_0 == CodeGenError::PCOverFlow,
    {
        let overflow = || -> (e: CodeGenError)
            ensures
                e == CodeGenError::PCOverFlow,
            { CodeGenError::PCOverFlow };
        safe_add(&mut self.pc, &1, overflow)
    }

    fn gen_seq(&mut self, exprs: &Vec<AST>) -> (r: Result<(), CodeGenError>)
        requires
            old(self).pc == old(self).insts.len(),
        ensures
            final(self).generated(*old(self), AST::Concat(*exprs)@, r),
        decreases AST::Concat(*exprs), 0int,
    {
        let ghost s = AST::Concat(*exprs)@->Concat_0;
        let ghost start = *self;
        let mut i: usize = 0;
        while i < exprs.len()
            invariant
                s == AST::Concat(*exprs)@->Concat_0,
                start == *old(self),
                s.len() == exprs.len(),
                i <= exprs.len(),
                self.pc == self.insts.len(),
                self.pc == start.pc + size_seq(s, i as int),
                self.insts@ == start.insts@ + code_seq(s, i as int, start.pc as int),
            decreases exprs.len() - i,
        {
            let r = self.gen_expr(&exprs[i]);
            proof {
                lemma_size_seq_mono(s, i + 1, s.len() as int);
                lemma_code_len(s[i as int], start.pc + size_seq(s, i as int));
                assert(s[i as int] == exprs[i as int]@);
                assert(size_seq(s, i + 1) == size_seq(s, i as int) + size(s[i as int]));
                assert(size(AST::Concat(*exprs)@) == size_seq(s, s.len() as int));
            }
            if r.is_err() {
                return r;
            }
            assert(self.insts@ == start.insts@ + code_seq(s, i + 1, start.pc as int));
            i = i + 1;
        }
        Ok(())
    }

    fn gen_char(&mut self, c: char) -> (r: Result<(), CodeGenError>)
        requires
            old(self).pc == old(self).insts.len(),
        ensures
            final(self).generated(*old(self), Re::Char(c), r),
    {
        self.insts.push(Instruction::Char(c));
        self.inc_pc()?;
        assert(self.insts@ =~= old(self).insts@ + seq![Instruction::Char(c)]);
        Ok(())
    }

    fn gen_dot(&mut self) -> (r: Result<(), CodeGenError>)
        requires
            old(self).pc == old(self).insts.len(),
        ensures
            final(self).generated(*old(self), Re::Dot, r),
    {
        self.insts.push(Instruction::Dot);
        self.inc_pc()?;
        assert(self.insts@ =~= old(self).insts@ + seq![Instruction::Dot]);
        Ok(())
    }

    fn gen_question(&mut self, e: &AST) -> (r: Result<(), CodeGenError>)
        requires
            old(self).pc == old(self).insts.len(),
        ensures
            final(self).generated(*old(self), AST::Question(Box::new(*e))@, r),
        decreases AST::Question(Box::new(*e)), 0int,
    {
        let ghost start = *self;
        // split L1, L2
        let split_addr = self.pc;
        self.inc_pc()?;
        self.insts.push(Instruction::Split(self.pc, 0));
        // L1: e
        self.gen_expr(e)?;
        // L2
        self.insts.set(split_addr, Instruction::Split(split_addr + 1, self.pc));
        proof {
            lemma_code_len(e@, start.pc + 1);
            assert(self.insts@ =~= start.insts@ + code(AST::Question(Box::new(*e))@, start.pc as int));
        }
        Ok(())
    }

    fn gen_star(&mut self, e: &AST) -> (r: Result<(), CodeGenError>)
        requires
            old(self).pc == old(self).insts.len(),
        ensures
            final(self).generated(*old(self), AST::Star(Box::new(*e))@, r),
        decreases AST::Star(Box::new(*e)), 0int,
    {
        let ghost start = *self;
        proof {
            lemma_code_len(e@, start.pc + 1);
        }
        // L1: split L2, L3
        let split_addr = self.pc;
        self.inc_pc()?;
        self.insts.push(Instruction::Split(self.pc, 0));
        // L2: e
        self.gen_expr(e)?;
        // jump L1
        self.insts.push(Instruction::Jump(split_addr));
        self.inc_pc()?;
        // L3
        self.insts.set(split_addr, Instruction::Split(split_addr + 1, self.pc));
        proof {
            lemma_code_len(e@, start.pc + 1);
            assert(self.insts@ =~= start.insts@ + code(AST::Star(Box::new(*e))@, start.pc as int));
        }
        Ok(())
    }

    fn gen_plus(&mut self, e: &AST) -> (r: Result<(), CodeGenError>)
        requires
            old(self).pc == old(self).insts.len(),
        ensures
            final(self).generated(*old(self), AST::Plus(Box::new(*e))@, r),
        decreases AST::Plus(Box::new(*e)), 0int,
    {
        let ghost start = *self;
        proof {
            lemma_code_len(e@, start.pc as int);
        }
        // L1: e
        let l1 = self.pc;
        self.gen_expr(e)?;
        // split L1, L2
        self.inc_pc()?;
        self.insts.push(Instruction::Split(l1, self.pc));
        // L2
        proof {
            lemma_code_len(e@, start.pc as int);
            assert(self.insts@ =~= start.insts@ + code(AST::Plus(Box::new(*e))@, start.pc as int));
        }
        Ok(())
    }

    fn gen_or(&mut self, e1: &AST, e2: &AST) -> (r: Result<(), CodeGenError>)
        requires
            old(self).pc == old(self).insts.len(),
        ensures
            final(self).generated(*old(self), AST::Or(Box::new(*e1), Box::new(*e2))@, r),
        decreases AST::Or(Box::new(*e1), Box::new(*e2)), 0int,
    {
        let ghost start = *self;
        proof {
            lemma_code_len(e1@, start.pc + 1);
            lemma_code_len(e2@, start.pc + size(e1@) + 2);
        }
        // split L1, L2
        let split_addr = self.pc;
        self.inc_pc()?;
        self.insts.push(Instruction::Split(self.pc, 0));
        // L1: e1
        self.gen_expr(e1)?;
        // jump L3
        let jmp_addr = self.pc;
        self.insts.push(Instruction::Jump(0));
        self.inc_pc()?;
        // L2: e2
        self.insts.set(split_addr, Instruction::Split(split_addr + 1, self.pc));
        self.gen_expr(e2)?;
        // L3
        self.insts.set(jmp_addr, Instruction::Jump(self.pc));
        proof {
            lemma_code_len(e1@, start.pc + 1);
            lemma_code_len(e2@, start.pc + size(e1@) + 2);
            assert(self.insts@ =~= start.insts@ + code(
                AST::Or(Box::new(*e1), Box::new(*e2))@,
                start.pc as int,
            ));
        }
        Ok(())
    }

    fn gen_expr(&mut self, ast: &AST) -> (r: Result<(), CodeGenError>)
        requires
            old(self).pc == old(self).insts.len(),
        ensures
            final(self).generated(*old(self), ast@, r),
        decreases ast, 1int,
    {
        match ast {
            AST::Char(c) => self.gen_char(*c),
            AST::Dot => self.gen_dot(),
            AST::Or(e1, e2) => self.gen_or(e1, e2),
            AST::Plus(e) => self.gen_plus(e),
            AST::Star(e) => self.gen_star(e),
            AST::Question(e) => self.gen_question(e),
            AST::Concat(v) => self.gen_seq(v),
        }
    }

    fn gen_code(&mut self, ast: &AST) -> (r: Result<(), CodeGenError>)
        requires
            old(self).pc == 0,
            old(self).insts.len() == 0,
        ensures
            r is Ok <==> size(ast@) + 1 <= usize::MAX,
            r is Ok ==> final(self).insts@ == program(ast@),
            r is Err ==> r->Err_0 == CodeGenError::PCOverFlow,
    {
        self.gen_expr(ast)?;
        proof {
            lemma_code_len(ast@, old(self).pc as int);
        }
        self.inc_pc()?;
        // the program ends in its only accepting instruction
        self.insts.push(Instruction::Match);
        assert(self.insts@ =~= program(ast@));
        Ok(())
    }
}

/// Compiles a syntax tree to a program for the matching machine.
pub fn get_code(ast: &AST) -> (r: Result<Vec<Instruction>, CodeGenError>)
    ensures
        r is Ok <==> size(ast@) + 1 <= usize::MAX,
        r is Ok ==> r->Ok_0@ == program(ast@),
        r is Err ==> r->Err_0 == CodeGenError::PCOverFlow,
{
    let mut generator = Generator { pc: 0, insts: Vec::new() };
    generator.gen_code(ast)?;
    Ok(generator.insts)
}

} // verus!
