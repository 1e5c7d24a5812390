//! Programs whose compiled forms accept from the same states.
use super::codegen::{
    code, code_seq, inner_instruction, lemma_code_len, lemma_code_shift, lemma_code_targets,
    program, shift, shift_all, size, size_seq,
};
use super::evaluator::{accepts, accepts_within, lemma_step_back};
use super::parser::Re;
use super::Instruction;
use vstd::prelude::*;

verus! {

/// `prog` holds the code of `re` from address `b` on.
pub open spec fn holds_code(prog: Seq<Instruction>, re: Re, b: int) -> bool {
    &&& 0 <= b
    &&& b + size(re) <= prog.len()
    &&& b + size(re) <= usize::MAX
    &&& forall|x: int| 0 <= x < size(re) ==> #[trigger] prog[b + x] == code(re, b)[x]
}

/// Where two programs hold the code of `re`, a state inside the first copy
/// accepts in the second program from the same offset, provided that every
/// state of the first copy, and its exit, does so with one step less.
proof fn lemma_region_step(
    p: Seq<Instruction>,
    q: Seq<Instruction>,
    re: Re,
    b: int,
    b2: int,
    s: Seq<char>,
    x: int,
    i: int,
    f: nat,
)
    requires
        holds_code(p, re, b),
        holds_code(q, re, b2),
        0 <= x < size(re),
        accepts_within(p, s, b + x, i, f + 1),
        forall|y: int, j: int|
            0 <= y <= size(re) && #[trigger] accepts_within(p, s, b + y, j, f) ==> accepts(
                q,
                s,
                b2 + y,
                j,
            ),
    ensures
        accepts(q, s, b2 + x, i),
{
    lemma_code_targets(re, b);
    lemma_code_shift(re, b, b2);
    lemma_code_len(re, b);
    let ins = code(re, b)[x];
    assert(p[b + x] == ins);
    assert(q[b2 + x] == code(re, b2)[x]);
    assert(code(re, b2)[x] == shift(ins, b2 - b));
    assert(inner_instruction(ins, b, b + size(re)));
    match ins {
        Instruction::Char(c) => {
            assert(accepts_within(p, s, b + (x + 1), i + 1, f));
            lemma_step_back(q, s, b2 + x, i, b2 + (x + 1), i + 1);
        },
        Instruction::Dot => {
            assert(accepts_within(p, s, b + (x + 1), i + 1, f));
            lemma_step_back(q, s, b2 + x, i, b2 + (x + 1), i + 1);
        },
        Instruction::Jump(t) => {
            assert(accepts_within(p, s, b + (t - b), i, f));
            lemma_step_back(q, s, b2 + x, i, b2 + (t - b), i);
        },
        Instruction::Split(t1, t2) => {
            if accepts_within(p, s, t1 as int, i, f) {
                assert(accepts_within(p, s, b + (t1 - b), i, f));
                lemma_step_back(q, s, b2 + x, i, b2 + (t1 - b), i);
            } else {
                assert(accepts_within(p, s, b + (t2 - b), i, f));
                lemma_step_back(q, s, b2 + x, i, b2 + (t2 - b), i);
            }
        },
        Instruction::Match => {},
    }
}

/// The program for `e+`.
pub open spec fn plus_program(e: Re) -> Seq<Instruction> {
    program(Re::Plus(Box::new(e)))
}

/// The program for one copy of `e` followed by `e*`.
pub open spec fn copy_star_program(e: Re) -> Seq<Instruction> {
    program(Re::Concat(seq![e, Re::Star(Box::new(e))]))
}

proof fn lemma_plus_shape(e: Re)
    requires
        2 * size(e) + 3 <= usize::MAX,
    ensures
        ({
            let p = plus_program(e);
            let n = size(e) as int;
            &&& p.len() == n + 2
            &&& holds_code(p, e, 0)
            &&& p[n] == Instruction::Split(0, (n + 1) as usize)
            &&& p[n + 1] == Instruction::Match
        }),
{
    let n = size(e) as int;
    lemma_code_len(e, 0);
    let p = plus_program(e);
    assert(code(Re::Plus(Box::new(e)), 0) == code(e, 0).push(
        Instruction::Split(0, (n + 1) as usize),
    ));
    assert forall|x: int| 0 <= x < size(e) implies #[trigger] p[0 + x] == code(e, 0)[x] by {
        assert(p[x] == code(e, 0)[x]);
    }
}

proof fn lemma_copy_star_shape(e: Re)
    requires
        2 * size(e) + 3 <= usize::MAX,
    ensures
        ({
            let q = copy_star_program(e);
            let n = size(e) as int;
            &&& q.len() == 2 * n + 3
            &&& holds_code(q, e, 0)
            &&& q[n] == Instruction::Split((n + 1) as usize, (2 * n + 2) as usize)
            &&& holds_code(q, e, n + 1)
            &&& q[2 * n + 1] == Instruction::Jump(n as usize)
            &&& q[2 * n + 2] == Instruction::Match
        }),
{
    let n = size(e) as int;
    let star = Re::Star(Box::new(e));
    let items = seq![e, star];
    lemma_code_len(e, 0);
    lemma_code_len(e, n + 1);
    assert(items[0] == e && items[1] == star && items.len() == 2);
    assert(size_seq(items, 0) == 0);
    assert(size_seq(items, 1) == size_seq(items, 0) + size(items[0]));
    assert(size_seq(items, 2) == size_seq(items, 1) + size(items[1]));
    assert(code_seq(items, 0, 0) == Seq::<Instruction>::empty());
    assert(code_seq(items, 1, 0) == code_seq(items, 0, 0) + code(items[0], 0int + size_seq(items, 0)));
    assert(code_seq(items, 2, 0) == code_seq(items, 1, 0) + code(items[1], 0int + size_seq(items, 1)));
    let star_code = seq![Instruction::Split((n + 1) as usize, (2 * n + 2) as usize)] + code(e, n + 1).push(
        Instruction::Jump(n as usize),
    );
    assert(code(star, n) == star_code);
    let body = code(e, 0) + star_code;
    assert(code(Re::Concat(items), 0) == body);
    let q = copy_star_program(e);
    assert(q == body.push(Instruction::Match));
    assert forall|x: int| 0 <= x < size(e) implies #[trigger] q[0 + x] == code(e, 0)[x] by {
        assert(q[x] == body[x]);
    }
    assert forall|x: int| 0 <= x < size(e) implies #[trigger] q[(n + 1) + x] == code(e, n + 1)[x] by {
        assert(q[n + 1 + x] == body[n + 1 + x]);
        assert(body[n + 1 + x] == star_code[1 + x]);
    }
    assert(q[n] == body[n]);
    assert(q[2 * n + 1] == star_code[n + 1]);
}

/// Every state of `e+` that accepts within `f` steps has a counterpart in the
/// copy-then-star program: the same address, and the address in the second copy.
proof fn lemma_plus_to_copy_star(e: Re, s: Seq<char>, f: nat)
    requires
        2 * size(e) + 3 <= usize::MAX,
    ensures
        forall|y: int, j: int|
            0 <= y <= size(e) && #[trigger] accepts_within(plus_program(e), s, y, j, f) ==> accepts(
                copy_star_program(e),
                s,
                y,
                j,
            ) && accepts(copy_star_program(e), s, size(e) + 1 + y, j),
    decreases f,
{
    let p = plus_program(e);
    let q = copy_star_program(e);
    let n = size(e) as int;
    lemma_plus_shape(e);
    lemma_copy_star_shape(e);
    if f > 0 {
        let g = (f - 1) as nat;
        lemma_plus_to_copy_star(e, s, g);
        assert forall|y: int, j: int|
            0 <= y <= size(e) && #[trigger] accepts_within(p, s, y, j, f) implies accepts(
            q,
            s,
            y,
            j,
        ) && accepts(q, s, n + 1 + y, j) by {
            if y < n {
                assert forall|y2: int, j2: int|
                    0 <= y2 <= size(e) && #[trigger] accepts_within(p, s, 0 + y2, j2, g) implies accepts(
                    q,
                    s,
                    0 + y2,
                    j2,
                ) by {
                    assert(accepts_within(p, s, y2, j2, g));
                }
                assert forall|y2: int, j2: int|
                    0 <= y2 <= size(e) && #[trigger] accepts_within(p, s, 0 + y2, j2, g) implies accepts(
                    q,
                    s,
                    (n + 1) + y2,
                    j2,
                ) by {
                    assert(accepts_within(p, s, y2, j2, g));
                }
                assert(accepts_within(p, s, 0 + y, j, g + 1));
                lemma_region_step(p, q, e, 0, 0, s, y, j, g);
                lemma_region_step(p, q, e, 0, n + 1, s, y, j, g);
            } else {
                // the exit of e+: split back to its start, or on to Match
                if accepts_within(p, s, 0, j, g) {
                    assert(accepts(q, s, n + 1, j));
                } else {
                    assert(accepts_within(p, s, n + 1, j, g));
                    assert(accepts_within(q, s, 2 * n + 2, j, 1));
                }
                lemma_step_back(q, s, n, j, if accepts_within(p, s, 0, j, g) {
                    n + 1
                } else {
                    2 * n + 2
                }, j);
                lemma_step_back(q, s, 2 * n + 1, j, n, j);
            }
        }
    }
}

/// Every state of the copy-then-star program that accepts within `f` steps
/// has a counterpart in `e+`: the address in either copy of `e`, or the exit
/// for the split between the copies and for the jump back.
proof fn lemma_copy_star_to_plus(e: Re, s: Seq<char>, f: nat)
    requires
        2 * size(e) + 3 <= usize::MAX,
    ensures
        forall|y: int, j: int|
            0 <= y <= 2 * size(e) + 2 && #[trigger] accepts_within(copy_star_program(e), s, y, j, f)
                ==> accepts(
                plus_program(e),
                s,
                if y <= size(e) {
                    y
                } else if y <= 2 * size(e) + 1 {
                    y - size(e) - 1
                } else {
                    size(e) + 1int
                },
                j,
            ),
    decreases f,
{
    let p = plus_program(e);
    let q = copy_star_program(e);
    let n = size(e) as int;
    lemma_plus_shape(e);
    lemma_copy_star_shape(e);
    if f > 0 {
        let g = (f - 1) as nat;
        lemma_copy_star_to_plus(e, s, g);
        assert forall|y: int, j: int|
            0 <= y <= 2 * size(e) + 2 && #[trigger] accepts_within(q, s, y, j, f) implies accepts(
            p,
            s,
            if y <= size(e) {
                y
            } else if y <= 2 * size(e) + 1 {
                y - size(e) - 1
            } else {
                size(e) + 1int
            },
            j,
        ) by {
            if y < n {
                assert forall|y2: int, j2: int|
                    0 <= y2 <= size(e) && #[trigger] accepts_within(q, s, 0 + y2, j2, g) implies accepts(
                    p,
                    s,
                    0 + y2,
                    j2,
                ) by {
                    assert(accepts_within(q, s, y2, j2, g));
                }
                assert(accepts_within(q, s, 0 + y, j, g + 1));
                lemma_region_step(q, p, e, 0, 0, s, y, j, g);
            } else if y == n {
                // the split between the copies: on to the second, or to Match
                if accepts_within(q, s, n + 1, j, g) {
                    assert(accepts(p, s, 0, j));
                    lemma_step_back(p, s, n, j, 0, j);
                } else {
                    assert(accepts_within(q, s, 2 * n + 2, j, g));
                    assert(accepts_within(p, s, n + 1, j, 1));
                    lemma_step_back(p, s, n, j, n + 1, j);
                }
            } else if y <= 2 * n {
                let x = y - n - 1;
                assert forall|y2: int, j2: int|
                    0 <= y2 <= size(e) && #[trigger] accepts_within(q, s, (n + 1) + y2, j2, g) implies accepts(
                    p,
                    s,
                    0 + y2,
                    j2,
                ) by {
                    assert(accepts_within(q, s, n + 1 + y2, j2, g));
                }
                assert(accepts_within(q, s, (n + 1) + x, j, g + 1));
                lemma_region_step(q, p, e, n + 1, 0, s, x, j, g);
            } else if y == 2 * n + 1 {
                // the jump back to the split
                assert(accepts_within(q, s, n, j, g));
            } else {
                assert(accepts_within(p, s, n + 1, j, 1));
            }
        }
    }
}

/// For every expression `e` and text: the program for `e+` accepts from a
/// start offset exactly where the program for one copy of `e` followed by
/// `e*` does, so the two find a match in the same texts.
pub proof fn lemma_plus_as_copy_star(e: Re, text: Seq<char>)
    requires
        2 * size(e) + 3 <= usize::MAX,
    ensures
        forall|i: int|
            accepts(plus_program(e), text, 0, i) == #[trigger] accepts(copy_star_program(e), text, 0, i),
        (exists|i: int| 0 <= i <= text.len() && accepts(plus_program(e), text, 0, i)) <==> (exists|
            i: int,
        |
            0 <= i <= text.len() && accepts(copy_star_program(e), text, 0, i)),
{
    let p = plus_program(e);
    let q = copy_star_program(e);
    assert forall|i: int| accepts(p, text, 0, i) == #[trigger] accepts(q, text, 0, i) by {
        if accepts(p, text, 0, i) {
            let f = choose|f: nat| accepts_within(p, text, 0, i, f);
            lemma_plus_to_copy_star(e, text, f);
        }
        if accepts(q, text, 0, i) {
            let f = choose|f: nat| accepts_within(q, text, 0, i, f);
            lemma_copy_star_to_plus(e, text, f);
        }
    }
    if exists|i: int| 0 <= i <= text.len() && accepts(p, text, 0, i) {
        let i = choose|i: int| 0 <= i <= text.len() && accepts(p, text, 0, i);
        assert(accepts(q, text, 0, i));
    }
    if exists|i: int| 0 <= i <= text.len() && accepts(q, text, 0, i) {
        let i = choose|i: int| 0 <= i <= text.len() && accepts(q, text, 0, i);
        assert(accepts(p, text, 0, i));
    }
}

} // verus!
