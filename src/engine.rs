//! The engine: pattern text is parsed, compiled to a program, and the program
//! is run at each start offset of the text.
use vstd::prelude::*;
use vstd::string::StrSliceExecFns;

pub mod codegen;
pub mod equivalence;
pub mod evaluator;
pub mod parser;

use codegen::{code, code_seq, get_code, program, size, size_seq, CodeGenError};
use evaluator::{accepts, accepts_within, search, state_table, states_fit, EvalError};
use parser::{
    chars_of, closed_branches, group_plus, group_then_star, grouped, lemma_group_parse, parse,
    parse_spec, scan, scan_step,
    ParseError, Re, Scan,
};

verus! {

/// One instruction of the matching machine. Addresses index the program.
#[derive(Debug, Clone, Copy, PartialEq, Eq, Structural)]
pub enum Instruction {
    /// Consume one character equal to the operand.
    Char(char),
    /// Consume any one character.
    Dot,
    /// Accept.
    Match,
    /// Continue at the address.
    Jump(usize),
    /// Try the first address; if that fails, the second.
    Split(usize, usize),
}

/// An error of one of the engine's stages.
#[derive(Debug)]
pub enum EngineError {
    Parse(ParseError),
    CodeGen(CodeGenError),
    Eval(EvalError),
}

/// The least start offset in `text` from which `prog` accepts, if any.
pub open spec fn first_start(prog: Seq<Instruction>, text: Seq<char>) -> Option<int> {
    if exists|i: int| 0 <= i <= text.len() && accepts(prog, text, 0, i) {
        Some(
            choose|i: int|
                0 <= i <= text.len() && accepts(prog, text, 0, i) && forall|j: int|
                    0 <= j < i ==> !accepts(prog, text, 0, j),
        )
    } else {
        None
    }
}

/// What matching `expr` against `text` gives: the error of the stage that
/// fails, or whether some start offset matches and the text from the first
/// such offset on.
pub open spec fn matching_spec(expr: Seq<char>, text: Seq<char>) -> Result<
    (bool, Option<Seq<char>>),
    EngineError,
> {
    match parse_spec(expr) {
        Err(e) => Err(EngineError::Parse(e)),
        Ok(re) => if size(re) + 1 > usize::MAX {
            Err(EngineError::CodeGen(CodeGenError::PCOverFlow))
        } else if !states_fit(program(re).len() as int, text.len() as int) {
            Err(EngineError::Eval(EvalError::SPOverFlow))
        } else {
            match first_start(program(re), text) {
                Some(i) => Ok((true, Some(text.subrange(i, text.len() as int)))),
                None => Ok((false, None)),
            }
        },
    }
}

/// The model of a matching result.
pub open spec fn matched(r: Result<(bool, Option<String>), EngineError>) -> Result<
    (bool, Option<Seq<char>>),
    EngineError,
> {
    match r {
        Ok((b, Some(s))) => Ok((b, Some(s@))),
        Ok((b, None)) => Ok((b, None)),
        Err(e) => Err(e),
    }
}

/// Matches `expr` against `line`, trying each start offset in turn from the
/// first to the one past the last character.
///
/// Gives `Ok((true, Some(rest)))`, where `rest` is the text from the first
/// offset that matches, `Ok((false, None))` where none does, and the error of
/// the parser, the code generator or the evaluator otherwise. `is_depth` asks
/// for a depth-first search, the one search this engine has, which serves
/// either value.
pub fn do_matching(expr: &str, line: &str, is_depth: bool) -> (r: Result<
    (bool, Option<String>),
    EngineError,
>)
    ensures
        matched(r) == matching_spec(expr@, line@),
{
    let ast = match parse(expr) {
        Ok(a) => a,
        Err(e) => return Err(EngineError::Parse(e)),
    };
    let code = match get_code(&ast) {
        Ok(c) => c,
        Err(e) => return Err(EngineError::CodeGen(e)),
    };
    let ghost prog = program(ast@);
    let ghost text = line@;
    proof {
        codegen::lemma_program_well_formed(ast@);
    }
    let chars = chars_of(line);
    // one table serves every offset: a state that neither matched nor left
    // the program at one offset does neither at the next
    let (mut marked, width) = match state_table(code.len(), chars.len()) {
        Some(t) => t,
        None => return Err(EngineError::Eval(EvalError::SPOverFlow)),
    };
    proof {
        evaluator::lemma_fresh_table(prog, text, marked@);
    }
    let mut i: usize = 0;
    loop
        invariant
            code@ == prog,
            prog == program(ast@),
            parse_spec(expr@) == Ok::<parser::Re, ParseError>(ast@),
            size(ast@) + 1 <= usize::MAX,
            evaluator::well_formed(prog),
            prog.len() > 0,
            chars@ == text,
            text == line@,
            i <= chars.len(),
            states_fit(prog.len() as int, text.len() as int),
            width == text.len() + 1,
            evaluator::closed_table(prog, text, marked@),
            forall|j: int| 0 <= j < i ==> !accepts(prog, text, 0, j),
        decreases chars.len() - i,
    {
        match search(code.as_slice(), chars.as_slice(), 0, i, &mut marked, width) {
            Err(e) => {
                return Err(EngineError::Eval(e));
            },
            Ok(true) => {
                proof {
                    let f = first_start(prog, text);
                    assert(f is Some);
                    let k = f->Some_0;
                    assert(k == i as int);
                }
                return Ok((true, Some(line.substring_char(i, chars.len()).to_owned())));
            },
            Ok(false) => {},
        }
        if i == chars.len() {
            return Ok((false, None));
        }
        i = i + 1;
    }
}

/// A character escaped with `\` matches itself: for each of `\ ( ) | + * ?`,
/// the pattern `\c` finds `c` in the text `c`, at its start.
pub proof fn lemma_escaped_reserved_matches(c: char)
    requires
        c == '\\' || c == '(' || c == ')' || c == '|' || c == '+' || c == '*' || c == '?',
    ensures
        matching_spec(seq!['\\', c], seq![c]) == Ok::<(bool, Option<Seq<char>>), EngineError>(
            (true, Some(seq![c])),
        ),
{
    let p = seq!['\\', c];
    let text = seq![c];
    let st1 = Scan { seq: seq![], seq_or: seq![], stack: seq![], escape: true };
    let st2 = Scan { seq: seq![Re::Char(c)], seq_or: seq![], stack: seq![], escape: false };
    let st0 = Scan { seq: seq![], seq_or: seq![], stack: seq![], escape: false };
    assert(p[0] == '\\' && p[1] == c);
    assert(scan(p, 0) == Ok::<Scan, ParseError>(st0));
    assert(scan_step(st0, 0, '\\') == Ok::<Scan, ParseError>(st1));
    assert(scan(p, 1) == Ok::<Scan, ParseError>(st1));
    assert(scan(p, 2) == Ok::<Scan, ParseError>(st2));
    let items = seq![Re::Char(c)];
    let re = Re::Concat(items);
    assert(items[0] == Re::Char(c) && items.len() == 1);
    assert(size_seq(items, 0) == 0);
    assert(size(Re::Char(c)) == 1);
    assert(size_seq(items, 1) == size_seq(items, 0) + size(items[0]));
    assert(code(Re::Char(c), 0) == seq![Instruction::Char(c)]);
    assert(code_seq(items, 1, 0) == code_seq(items, 0, 0) + code(items[0], 0int + size_seq(items, 0)));
    assert(code_seq(items, 1, 0) =~= seq![Instruction::Char(c)]);
    assert(closed_branches(st2) == seq![re]);
    assert(parse_spec(p) == Ok::<Re, ParseError>(re));
    assert(size(re) == 1);
    assert(code(re, 0) =~= seq![Instruction::Char(c)]);
    let prog = program(re);
    assert(prog =~= seq![Instruction::Char(c), Instruction::Match]);
    assert(accepts_within(prog, text, 1, 1, 1));
    assert(accepts_within(prog, text, 0, 0, 2));
    assert(accepts(prog, text, 0, 0));
    assert(states_fit(2, 1));
    let k = first_start(prog, text)->Some_0;
    assert(k == 0) by {
        if k > 0 {
            assert(!accepts(prog, text, 0, 0));
        }
    }
    assert(text.subrange(0, 1) =~= text);
}

/// Parentheses around a whole pattern change nothing of what matching it
/// gives, for any text: this holds of each pattern whose scan ends with no
/// error, and inside a group or outside an escape.
pub proof fn lemma_group_transparent(e: Seq<char>, text: Seq<char>)
    requires
        scan(e, e.len()) is Ok,
        scan(e, e.len())->Ok_0.stack.len() > 0 || !scan(e, e.len())->Ok_0.escape,
    ensures
        matching_spec(grouped(e), text) == matching_spec(e, text),
{
    lemma_group_parse(e);
    if let Ok(x) = parse_spec(e) {
        let items = seq![x];
        assert(items[0] == x && items.len() == 1);
        assert(size_seq(items, 0) == 0);
        assert(size_seq(items, 1) == size_seq(items, 0) + size(items[0]));
        assert(size(Re::Concat(items)) == size(x));
        assert(code_seq(items, 0, 0) == Seq::<Instruction>::empty());
        assert(code_seq(items, 1, 0) == code_seq(items, 0, 0) + code(items[0], 0int + size_seq(items, 0)));
        assert(code(Re::Concat(items), 0) =~= code(x, 0));
        assert(program(Re::Concat(items)) == program(x));
    }
}

/// Parentheses around a whole pattern change nothing of what matching it
/// gives, for any text, wherever both the pattern and the pattern in
/// parentheses parse.
pub proof fn lemma_group_transparent_parsed(e: Seq<char>, text: Seq<char>)
    requires
        parse_spec(e) is Ok,
        parse_spec(grouped(e)) is Ok,
    ensures
        matching_spec(grouped(e), text) == matching_spec(e, text),
{
    parser::lemma_group_condition(e);
    lemma_group_transparent(e, text);
}

/// `(e)+` finds a match in a text exactly where `(e)(e)*` does, for each
/// pattern `e` such that `e` and `(e)` parse and both matchings run.
pub proof fn lemma_plus_text_as_copy_star(e: Seq<char>, text: Seq<char>)
    requires
        parse_spec(e) is Ok,
        parse_spec(grouped(e)) is Ok,
        matching_spec(group_plus(e), text) is Ok,
        matching_spec(group_then_star(e), text) is Ok,
    ensures
        matching_spec(group_plus(e), text)->Ok_0.0 == matching_spec(group_then_star(e), text)->Ok_0.0,
{
    parser::lemma_parse_group_repeats(e);
    let x = parse_spec(e)->Ok_0;
    let plus = Re::Plus(Box::new(x));
    let items = seq![plus];
    assert(items[0] == plus && items.len() == 1);
    assert(size_seq(items, 0) == 0);
    assert(size_seq(items, 1) == size_seq(items, 0) + size(items[0]));
    assert(code_seq(items, 0, 0) == Seq::<Instruction>::empty());
    assert(code_seq(items, 1, 0) == code_seq(items, 0, 0) + code(items[0], 0int + size_seq(items, 0)));
    assert(code(Re::Concat(items), 0) =~= code(plus, 0));
    assert(program(Re::Concat(items)) == equivalence::plus_program(x));
    let both = seq![x, Re::Star(Box::new(x))];
    assert(both[0] == x && both[1] == Re::Star(Box::new(x)) && both.len() == 2);
    assert(size_seq(both, 0) == 0);
    assert(size_seq(both, 1) == size_seq(both, 0) + size(both[0]));
    assert(size_seq(both, 2) == size_seq(both, 1) + size(both[1]));
    assert(2 * size(x) + 3 <= usize::MAX);
    equivalence::lemma_plus_as_copy_star(x, text);
    let p1 = program(Re::Concat(items));
    let p2 = program(Re::Concat(both));
    assert(p2 == equivalence::copy_star_program(x));
    assert(first_start(p1, text) is Some <==> first_start(p2, text) is Some);
    assert(matching_spec(group_plus(e), text)->Ok_0.0 == first_start(p1, text) is Some);
    assert(matching_spec(group_then_star(e), text)->Ok_0.0 == first_start(p2, text) is Some);
}

} // verus!