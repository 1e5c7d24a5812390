//! Pattern text to syntax tree.
use vstd::prelude::*;

verus! {

broadcast use vstd::std_specs::vec::axiom_vec_index_decreases, vstd::string::axiom_spec_iter;

/// The syntax tree of a pattern.
#[derive(Debug)]
pub enum AST {
    Char(char),
    /// `e+`
    Plus(Box<AST>),
    /// `e*`
    Star(Box<AST>),
    /// `e?`
    Question(Box<AST>),
    /// `e1|e2`
    Or(Box<AST>, Box<AST>),
    /// `.`
    Dot,
    /// A sequence, matched left to right.
    Concat(Vec<AST>),
}

/// The mathematical value of a syntax tree.
pub enum Re {
    Char(char),
    Plus(Box<Re>),
    Star(Box<Re>),
    Question(Box<Re>),
    Or(Box<Re>, Box<Re>),
    Dot,
    Concat(Seq<Re>),
}

impl AST {
    pub open spec fn view(&self) -> Re
        decreases self,
    {
        match self {
            AST::Char(c) => Re::Char(*c),
            AST::Plus(e) => Re::Plus(Box::new(e.view())),
            AST::Star(e) => Re::Star(Box::new(e.view())),
            AST::Question(e) => Re::Question(Box::new(e.view())),
            AST::Or(e1, e2) => Re::Or(Box::new(e1.view()), Box::new(e2.view())),
            AST::Dot => Re::Dot,
            AST::Concat(v) => Re::Concat(
                Seq::new(v.len() as nat, |i: int| if 0 <= i < v.len() { v[i].view() } else { Re::Dot }),
            ),
        }
    }
}

#[derive(Debug)]
pub enum ParseError {
    /// A `\` followed by a character that needs no escape: its position and the character.
    InvalidEscape(usize, char),
    /// A `)` with no open group: its position.
    InvalidRightParen(usize),
    /// A `+`, `*`, `?` or `|` with nothing before it: its position.
    NoPrev(usize),
    /// A group that is never closed.
    NoRightParen,
    /// A pattern with nothing to match.
    Empty,
}

/// The models of a sequence of trees.
pub open spec fn views(v: Seq<AST>) -> Seq<Re> {
    v.map_values(|a: AST| a@)
}

/// The model of a parse result.
pub open spec fn parsed(r: Result<AST, ParseError>) -> Result<Re, ParseError> {
    match r {
        Ok(a) => Ok(a@),
        Err(e) => Err(e),
    }
}

/// The characters that have a meaning of their own, and may be escaped.
pub open spec fn is_reserved(c: char) -> bool {
    c == '\\' || c == '(' || c == ')' || c == '|' || c == '+' || c == '*' || c == '?' || c == '.'
}

/// The state of the scan: the sequence being built, the finished branches of
/// the current group, the enclosing groups' (sequence, branches), and whether
/// the last character was an unconsumed `\`.
pub struct Scan {
    pub seq: Seq<Re>,
    pub seq_or: Seq<Re>,
    pub stack: Seq<(Seq<Re>, Seq<Re>)>,
    pub escape: bool,
}

/// Branches `b1 .. bn` as one tree: `b1` if alone, else `b1|(b2|(...|bn))`.
pub open spec fn fold_branches(branches: Seq<Re>) -> Option<Re>
    decreases branches.len(),
{
    if branches.len() == 0 {
        None
    } else if branches.len() == 1 {
        Some(branches[0])
    } else {
        Some(Re::Or(Box::new(branches[0]), Box::new(fold_branches(branches.drop_first())->Some_0)))
    }
}

/// The branches of a group once its last sequence is closed.
pub open spec fn closed_branches(st: Scan) -> Seq<Re> {
    if st.seq.len() > 0 {
        st.seq_or.push(Re::Concat(st.seq))
    } else {
        st.seq_or
    }
}

/// `e+`, `e*` or `e?`, for the operator `c`.
pub open spec fn repeat(c: char, e: Re) -> Re {
    if c == '+' {
        Re::Plus(Box::new(e))
    } else if c == '*' {
        Re::Star(Box::new(e))
    } else {
        Re::Question(Box::new(e))
    }
}

/// The scan after reading `c` at position `i`.
pub open spec fn scan_step(st: Scan, i: int, c: char) -> Result<Scan, ParseError> {
    if st.escape {
        if is_reserved(c) {
            Ok(Scan { seq: st.seq.push(Re::Char(c)), escape: false, ..st })
        } else {
            Err(ParseError::InvalidEscape(i as usize, c))
        }
    } else if c == '+' || c == '*' || c == '?' {
        if st.seq.len() == 0 {
            Err(ParseError::NoPrev(i as usize))
        } else {
            Ok(Scan { seq: st.seq.drop_last().push(repeat(c, st.seq.last())), ..st })
        }
    } else if c == '(' {
        Ok(Scan { seq: seq![], seq_or: seq![], stack: st.stack.push((st.seq, st.seq_or)), escape: false })
    } else if c == ')' {
        if st.stack.len() == 0 {
            Err(ParseError::InvalidRightParen(i as usize))
        } else {
            let prev = st.stack.last().0;
            let seq = match fold_branches(closed_branches(st)) {
                Some(a) => prev.push(a),
                None => prev,
            };
            Ok(Scan { seq, seq_or: st.stack.last().1, stack: st.stack.drop_last(), escape: false })
        }
    } else if c == '|' {
        if st.seq.len() == 0 {
            Err(ParseError::NoPrev(i as usize))
        } else {
            Ok(Scan { seq: seq![], seq_or: st.seq_or.push(Re::Concat(st.seq)), ..st })
        }
    } else if c == '\\' {
        Ok(Scan { escape: true, ..st })
    } else if c == '.' {
        Ok(Scan { seq: st.seq.push(Re::Dot), ..st })
    } else {
        Ok(Scan { seq: st.seq.push(Re::Char(c)), ..st })
    }
}

/// The scan after the first `k` characters of `s`, or the first error.
pub open spec fn scan(s: Seq<char>, k: nat) -> Result<Scan, ParseError>
    decreases k,
{
    if k == 0 {
        Ok(Scan { seq: seq![], seq_or: seq![], stack: seq![], escape: false })
    } else {
        match scan(s, (k - 1) as nat) {
            Ok(st) => if k <= s.len() {
                scan_step(st, k - 1, s[k - 1])
            } else {
                Ok(st)
            },
            Err(e) => Err(e),
        }
    }
}

/// The tree of a finished scan.
pub open spec fn finish(st: Scan) -> Result<Re, ParseError> {
    if st.stack.len() > 0 {
        Err(ParseError::NoRightParen)
    } else {
        match fold_branches(closed_branches(st)) {
            Some(a) => Ok(a),
            None => Err(ParseError::Empty),
        }
    }
}

/// The tree of pattern `s`, or the error it is rejected with.
pub open spec fn parse_spec(s: Seq<char>) -> Result<Re, ParseError> {
    match scan(s, s.len()) {
        Ok(st) => finish(st),
        Err(e) => Err(e),
    }
}

/// The characters of `s`, in order.
pub(crate) fn chars_of(s: &str) -> (r: Vec<char>)
    ensures
        r@ == s@,
{
    let mut v: Vec<char> = Vec::new();
    for c in it: s.chars()
        invariant
            v@ == it.seq().take(it.index() as int),
            it.seq() == s@,
    {
        v.push(c);
    }
    v
}

fn parse_escape(pos: usize, c: char) -> (r: Result<AST, ParseError>)
    ensures
        is_reserved(c) ==> r is Ok && r->Ok_0@ == Re::Char(c),
        !is_reserved(c) ==> r == Err::<AST, ParseError>(ParseError::InvalidEscape(pos, c)),
{
    match c {
        '\\' | '(' | ')' | '|' | '+' | '*' | '?' | '.' => Ok(AST::Char(c)),
        _ => Err(ParseError::InvalidEscape(pos, c)),
    }
}

enum PSQ {
    Plus,
    Star,
    Question,
}

impl PSQ {
    spec fn op(self) -> char {
        match self {
            PSQ::Plus => '+',
            PSQ::Star => '*',
            PSQ::Question => '?',
        }
    }
}

/// Wraps the last tree of `seq` in the repetition `ast_type`.
fn parse_plus_star_question(seq: &mut Vec<AST>, ast_type: PSQ, pos: usize) -> (r: Result<(), ParseError>)
    ensures
        old(seq).len() == 0 ==> r == Err::<(), ParseError>(ParseError::NoPrev(pos)) && final(seq)@
            == old(seq)@,
        old(seq).len() > 0 ==> r is Ok && views(final(seq)@) == views(old(seq)@).drop_last().push(
            repeat(ast_type.op(), views(old(seq)@).last()),
        ),
{
    if let Some(prev) = seq.pop() {
        let ast = match ast_type {
            PSQ::Plus => AST::Plus(Box::new(prev)),
            PSQ::Star => AST::Star(Box::new(prev)),
            PSQ::Question => AST::Question(Box::new(prev)),
        };
        seq.push(ast);
        assert(views(seq@) =~= views(old(seq)@).drop_last().push(
            repeat(ast_type.op(), views(old(seq)@).last()),
        ));
        Ok(())
    } else {
        Err(ParseError::NoPrev(pos))
    }
}

/// Folds the branches of a group into one tree.
fn fold_or(mut seq_or: Vec<AST>) -> (r: Option<AST>)
    ensures
        r is Some <==> fold_branches(views(seq_or@)) is Some,
        r is Some ==> r->Some_0@ == fold_branches(views(seq_or@))->Some_0,
{
    let ghost all = views(seq_or@);
    if seq_or.len() > 1 {
        let mut ast = seq_or.pop().unwrap();
        assert(all.subrange(all.len() - 1, all.len() as int) =~= seq![ast@]);
        while seq_or.len() > 0
            invariant
                0 < seq_or.len() + 1 <= all.len(),
                views(seq_or@) == all.subrange(0, seq_or.len() as int),
                fold_branches(all.subrange(seq_or.len() as int, all.len() as int)) == Some(ast@),
            decreases seq_or.len(),
        {
            let ghost k = seq_or.len() as int;
            let ghost before = seq_or@;
            assert(all[k - 1] == views(before)[k - 1]);
            let s = seq_or.pop().unwrap();
            assert(s == before[k - 1]);
            assert(all.subrange(k - 1, all.len() as int).drop_first() =~= all.subrange(k, all.len() as int));
            assert(views(seq_or@) =~= all.subrange(0, seq_or.len() as int));
            assert(all[k - 1] == s@);
            ast = AST::Or(Box::new(s), Box::new(ast));
        }
        assert(all.subrange(0, all.len() as int) =~= all);
        Some(ast)
    } else {
        seq_or.pop()
    }
}

/// The models of the saved (sequence, branches) pairs.
pub open spec fn frames(s: Seq<(Vec<AST>, Vec<AST>)>) -> Seq<(Seq<Re>, Seq<Re>)> {
    s.map_values(|p: (Vec<AST>, Vec<AST>)| (views(p.0@), views(p.1@)))
}

proof fn lemma_concat_view(v: Vec<AST>)
    ensures
        AST::Concat(v)@ == Re::Concat(views(v@)),
{
    assert(AST::Concat(v)@->Concat_0 =~= views(v@));
}

/// Once the scan has failed, it stays failed with the same error.
proof fn lemma_scan_err(s: Seq<char>, k: nat, m: nat)
    requires
        k <= m,
        scan(s, k) is Err,
    ensures
        scan(s, m) == scan(s, k),
    decreases m - k,
{
    if k < m {
        lemma_scan_err(s, k, (m - 1) as nat);
    }
}

proof fn lemma_char_view(c: char)
    ensures
        AST::Char(c)@ == Re::Char(c),
{
}

fn push_tree(seq: &mut Vec<AST>, a: AST)
    ensures
        views(final(seq)@) == views(old(seq)@).push(a@),
{
    seq.push(a);
    assert(views(seq@) =~= views(old(seq)@).push(a@));
}

/// Whether the scan is just after a `\`.
enum ParseState {
    Char,
    Escape,
}

/// Reads `c`, at position `i`, outside an escape. Returns whether it opens
/// one.
fn scan_char(
    seq: &mut Vec<AST>,
    seq_or: &mut Vec<AST>,
    stack: &mut Vec<(Vec<AST>, Vec<AST>)>,
    i: usize,
    c: char,
) -> (r: Result<bool, ParseError>)
    ensures
        ({
            let st = Scan {
                seq: views(old(seq)@),
                seq_or: views(old(seq_or)@),
                stack: frames(old(stack)@),
                escape: false,
            };
            match r {
                Ok(escape) => scan_step(st, i as int, c) == Ok::<Scan, ParseError>(
                    Scan {
                        seq: views(final(seq)@),
                        seq_or: views(final(seq_or)@),
                        stack: frames(final(stack)@),
                        escape,
                    },
                ),
                Err(e) => scan_step(st, i as int, c) == Err::<Scan, ParseError>(e),
            }
        }),
{
    let ghost st = Scan {
        seq: views(seq@),
        seq_or: views(seq_or@),
        stack: frames(stack@),
        escape: false,
    };
    if c == '+' {
        parse_plus_star_question(seq, PSQ::Plus, i)?;
    } else if c == '*' {
        parse_plus_star_question(seq, PSQ::Star, i)?;
    } else if c == '?' {
        parse_plus_star_question(seq, PSQ::Question, i)?;
    } else if c == '(' {
        // save the current context and open an empty one
        let mut prev: Vec<AST> = Vec::new();
        let mut prev_or: Vec<AST> = Vec::new();
        std::mem::swap(seq, &mut prev);
        std::mem::swap(seq_or, &mut prev_or);
        stack.push((prev, prev_or));
        assert(views(seq@) =~= seq![]);
        assert(views(seq_or@) =~= seq![]);
        assert(frames(stack@) =~= st.stack.push((st.seq, st.seq_or)));
    } else if c == ')' {
        // close the group and go back to the enclosing context
        if let Some((mut prev, mut prev_or)) = stack.pop() {
            let ghost frame = (views(prev@), views(prev_or@));
            assert(frame == st.stack.last());
            assert(frames(stack@) =~= st.stack.drop_last());
            let mut cur: Vec<AST> = Vec::new();
            let mut cur_or: Vec<AST> = Vec::new();
            std::mem::swap(seq, &mut cur);
            std::mem::swap(seq_or, &mut cur_or);
            if !cur.is_empty() {
                proof {
                    lemma_concat_view(cur);
                }
                cur_or.push(AST::Concat(cur));
            }
            assert(views(cur_or@) =~= closed_branches(st));
            if let Some(ast) = fold_or(cur_or) {
                prev.push(ast);
            }
            assert(views(prev@) =~= match fold_branches(closed_branches(st)) {
                Some(a) => frame.0.push(a),
                None => frame.0,
            });
            std::mem::swap(seq, &mut prev);
            std::mem::swap(seq_or, &mut prev_or);
        } else {
            return Err(ParseError::InvalidRightParen(i));
        }
    } else if c == '|' {
        if seq.is_empty() {
            return Err(ParseError::NoPrev(i));
        }
        let mut prev: Vec<AST> = Vec::new();
        std::mem::swap(seq, &mut prev);
        proof {
            lemma_concat_view(prev);
        }
        seq_or.push(AST::Concat(prev));
        assert(views(seq@) =~= seq![]);
        assert(views(seq_or@) =~= st.seq_or.push(Re::Concat(st.seq)));
    } else if c == '\\' {
        return Ok(true);
    } else if c == '.' {
        push_tree(seq, AST::Dot);
    } else {
        proof {
            lemma_char_view(c);
        }
        push_tree(seq, AST::Char(c));
    }
    Ok(false)
}

/// Parses pattern text into its syntax tree.
pub fn parse(expr: &str) -> (r: Result<AST, ParseError>)
    ensures
        parsed(r) == parse_spec(expr@),
{
    let chars = chars_of(expr);
    let ghost text = expr@;
    let mut seq: Vec<AST> = Vec::new();
    let mut seq_or: Vec<AST> = Vec::new();
    let mut stack: Vec<(Vec<AST>, Vec<AST>)> = Vec::new();
    let mut state = ParseState::Char;
    let mut i: usize = 0;
    proof {
        assert(views(seq@) =~= seq![]);
        assert(views(seq_or@) =~= seq![]);
        assert(frames(stack@) =~= seq![]);
    }
    while i < chars.len()
        invariant
            chars@ == text,
            text == expr@,
            i <= chars.len(),
            scan(text, i as nat) == Ok::<Scan, ParseError>(
                Scan {
                    seq: views(seq@),
                    seq_or: views(seq_or@),
                    stack: frames(stack@),
                    escape: state is Escape,
                },
            ),
        decreases chars.len() - i,
    {
        let ghost st = Scan {
            seq: views(seq@),
            seq_or: views(seq_or@),
            stack: frames(stack@),
            escape: state is Escape,
        };
        let c = chars[i];
        assert(scan(text, (i + 1) as nat) == scan_step(st, i as int, c));
        let step = match state {
            ParseState::Char => match scan_char(&mut seq, &mut seq_or, &mut stack, i, c) {
                Ok(escape) => {
                    if escape {
                        state = ParseState::Escape;
                    }
                    Ok(())
                },
                Err(e) => Err(e),
            },
            ParseState::Escape => match parse_escape(i, c) {
                Ok(ast) => {
                    assert(is_reserved(c));
                    push_tree(&mut seq, ast);
                    state = ParseState::Char;
                    Ok(())
                },
                Err(e) => Err(e),
            },
        };
        match step {
            Ok(()) => {},
            Err(e) => {
                proof {
                    lemma_scan_err(text, (i + 1) as nat, text.len());
                }
                return Err(e);
            },
        }
        i = i + 1;
    }
    assert(i == text.len());
    // every group must have been closed
    if !stack.is_empty() {
        return Err(ParseError::NoRightParen);
    }
    let ghost st = Scan {
        seq: views(seq@),
        seq_or: views(seq_or@),
        stack: frames(stack@),
        escape: state is Escape,
    };
    if !seq.is_empty() {
        proof {
            lemma_concat_view(seq);
        }
        seq_or.push(AST::Concat(seq));
    }
    assert(views(seq_or@) =~= closed_branches(st));
    if let Some(ast) = fold_or(seq_or) {
        Ok(ast)
    } else {
        Err(ParseError::Empty)
    }
}

/// The scan state with one more group open beneath all it holds.
pub open spec fn lift(st: Scan) -> Scan {
    Scan { stack: seq![(Seq::<Re>::empty(), Seq::<Re>::empty())] + st.stack, ..st }
}

/// Pattern `e` in parentheses.
pub open spec fn grouped(e: Seq<char>) -> Seq<char> {
    seq!['('] + e + seq![')']
}

/// A step that succeeds reads the same with a group open beneath.
proof fn lemma_step_lift(st: Scan, i: int, c: char)
    requires
        scan_step(st, i, c) is Ok,
    ensures
        scan_step(lift(st), i + 1, c) == Ok::<Scan, ParseError>(lift(scan_step(st, i, c)->Ok_0)),
{
    let bottom = seq![(Seq::<Re>::empty(), Seq::<Re>::empty())];
    if !st.escape && c == '(' {
        assert((bottom + st.stack).push((st.seq, st.seq_or)) =~= bottom + st.stack.push(
            (st.seq, st.seq_or),
        ));
    } else if !st.escape && c == ')' {
        assert((bottom + st.stack).last() == st.stack.last());
        assert((bottom + st.stack).drop_last() =~= bottom + st.stack.drop_last());
        assert(closed_branches(lift(st)) == closed_branches(st));
    }
}

/// Only the first `k` characters decide the scan after `k` of them.
proof fn lemma_scan_prefix(s: Seq<char>, t: Seq<char>, k: nat)
    requires
        k <= s.len(),
        k <= t.len(),
        s.subrange(0, k as int) == t.subrange(0, k as int),
    ensures
        scan(s, k) == scan(t, k),
    decreases k,
{
    if k > 0 {
        assert(s.subrange(0, k - 1) =~= s.subrange(0, k as int).subrange(0, k - 1));
        assert(t.subrange(0, k - 1) =~= t.subrange(0, k as int).subrange(0, k - 1));
        assert(s[k - 1] == s.subrange(0, k as int)[k - 1]);
        assert(t[k - 1] == t.subrange(0, k as int)[k - 1]);
        lemma_scan_prefix(s, t, (k - 1) as nat);
    }
}

/// Reading `(` first opens a group beneath the scan of the rest.
proof fn lemma_scan_lift(e: Seq<char>, k: nat)
    requires
        k <= e.len(),
        scan(e, k) is Ok,
    ensures
        scan(seq!['('] + e, k + 1) == Ok::<Scan, ParseError>(lift(scan(e, k)->Ok_0)),
    decreases k,
{
    let g = seq!['('] + e;
    let init = Scan { seq: seq![], seq_or: seq![], stack: seq![], escape: false };
    assert(g[0] == '(');
    assert(scan(g, 0) == Ok::<Scan, ParseError>(init));
    if k == 0 {
        assert(lift(init).stack =~= seq![(Seq::<Re>::empty(), Seq::<Re>::empty())]);
        assert(init.stack.push((init.seq, init.seq_or)) =~= lift(init).stack);
    } else {
        let k1 = (k - 1) as nat;
        assert(scan(e, k1) is Ok);
        lemma_scan_lift(e, k1);
        assert(g[k as int] == e[k - 1]);
        lemma_step_lift(scan(e, k1)->Ok_0, k - 1, e[k - 1]);
    }
}

/// Putting a pattern in parentheses changes nothing of what it parses to,
/// for a pattern whose scan ends with no error, and inside a group or
/// outside an escape.
pub proof fn lemma_group_parse(e: Seq<char>)
    requires
        scan(e, e.len()) is Ok,
        scan(e, e.len())->Ok_0.stack.len() > 0 || !scan(e, e.len())->Ok_0.escape,
    ensures
        parse_spec(grouped(e)) == match parse_spec(e) {
            Ok(x) => Ok(Re::Concat(seq![x])),
            Err(err) => Err::<Re, ParseError>(err),
        },
{
    let g = seq!['('] + e;
    let h = grouped(e);
    let st = scan(e, e.len())->Ok_0;
    lemma_scan_lift(e, e.len());
    assert(h.subrange(0, g.len() as int) =~= g.subrange(0, g.len() as int));
    lemma_scan_prefix(h, g, g.len());
    assert(h[g.len() as int] == ')');
    assert(h.len() == g.len() + 1);
    let lifted = lift(st);
    let after = scan_step(lifted, g.len() as int, ')');
    assert(scan(h, h.len()) == after);
    if st.escape {
        assert(after == Ok::<Scan, ParseError>(
            Scan { seq: lifted.seq.push(Re::Char(')')), escape: false, ..lifted },
        ));
        assert(after->Ok_0.stack.len() > 0);
    } else {
        assert(closed_branches(lifted) == closed_branches(st));
        assert(lifted.stack.last() == if st.stack.len() > 0 {
            st.stack.last()
        } else {
            (Seq::<Re>::empty(), Seq::<Re>::empty())
        });
        if st.stack.len() == 0 {
            assert(lifted.stack.drop_last() =~= seq![]);
        } else {
            assert(lifted.stack.drop_last() =~= seq![(Seq::<Re>::empty(), Seq::<Re>::empty())]
                + st.stack.drop_last());
            assert(after->Ok_0.stack.len() > 0);
        }
        if st.stack.len() == 0 {
            let fin = after->Ok_0;
            match fold_branches(closed_branches(st)) {
                Some(x) => {
                    assert(fin.seq =~= seq![x]);
                    assert(fin.seq_or =~= seq![]);
                    assert(closed_branches(fin) =~= seq![Re::Concat(seq![x])]);
                },
                None => {
                    assert(fin.seq =~= seq![]);
                    assert(fin.seq_or =~= seq![]);
                    assert(closed_branches(fin) =~= seq![]);
                },
            }
        }
    }
}

/// Where both a pattern and the pattern in parentheses parse, the scan of
/// the pattern ends with no error, and inside a group or outside an escape.
pub proof fn lemma_group_condition(e: Seq<char>)
    requires
        parse_spec(e) is Ok,
        parse_spec(grouped(e)) is Ok,
    ensures
        scan(e, e.len()) is Ok,
        scan(e, e.len())->Ok_0.stack.len() > 0 || !scan(e, e.len())->Ok_0.escape,
{
    let st = scan(e, e.len())->Ok_0;
    if st.escape && st.stack.len() == 0 {
        let g = seq!['('] + e;
        let h = grouped(e);
        lemma_scan_lift(e, e.len());
        assert(h.subrange(0, g.len() as int) =~= g.subrange(0, g.len() as int));
        lemma_scan_prefix(h, g, g.len());
        assert(h[g.len() as int] == ')');
        assert(h.len() == g.len() + 1);
        let lifted = lift(st);
        let after = scan_step(lifted, g.len() as int, ')');
        assert(scan(h, h.len()) == after);
        assert(after->Ok_0.stack.len() > 0);
        assert(parse_spec(h) == Err::<Re, ParseError>(ParseError::NoRightParen));
    }
}

/// The scan state with the groups `bottom` open beneath all it holds.
pub open spec fn lift_on(st: Scan, bottom: Seq<(Seq<Re>, Seq<Re>)>) -> Scan {
    Scan { stack: bottom + st.stack, ..st }
}

/// A step that succeeds reads the same, at any position, with groups open
/// beneath.
proof fn lemma_step_lift_on(st: Scan, bottom: Seq<(Seq<Re>, Seq<Re>)>, i: int, j: int, c: char)
    requires
        scan_step(st, i, c) is Ok,
    ensures
        scan_step(lift_on(st, bottom), j, c) == Ok::<Scan, ParseError>(
            lift_on(scan_step(st, i, c)->Ok_0, bottom),
        ),
{
    if !st.escape && c == '(' {
        assert((bottom + st.stack).push((st.seq, st.seq_or)) =~= bottom + st.stack.push(
            (st.seq, st.seq_or),
        ));
    } else if !st.escape && c == ')' {
        assert((bottom + st.stack).last() == st.stack.last());
        assert((bottom + st.stack).drop_last() =~= bottom + st.stack.drop_last());
        assert(closed_branches(lift_on(st, bottom)) == closed_branches(st));
    }
}

/// Where `t` holds `e` from `off` on, and the scan of `t` reaches `off` with
/// an empty sequence and no branches over the groups `bottom`, it goes on as
/// the scan of `e` with those groups beneath.
proof fn lemma_scan_within(t: Seq<char>, off: nat, e: Seq<char>, bottom: Seq<(Seq<Re>, Seq<Re>)>, k: nat)
    requires
        off + e.len() <= t.len(),
        t.subrange(off as int, (off + e.len()) as int) == e,
        scan(t, off) == Ok::<Scan, ParseError>(
            Scan { seq: seq![], seq_or: seq![], stack: bottom, escape: false },
        ),
        k <= e.len(),
        scan(e, k) is Ok,
    ensures
        scan(t, off + k) == Ok::<Scan, ParseError>(lift_on(scan(e, k)->Ok_0, bottom)),
    decreases k,
{
    if k == 0 {
        let init = Scan { seq: seq![], seq_or: seq![], stack: seq![], escape: false };
        assert(lift_on(init, bottom).stack =~= bottom);
    } else {
        let k1 = (k - 1) as nat;
        assert(scan(e, k1) is Ok);
        lemma_scan_within(t, off, e, bottom, k1);
        assert(t[(off + k1) as int] == t.subrange(off as int, (off + e.len()) as int)[k1 as int]);
        lemma_step_lift_on(scan(e, k1)->Ok_0, bottom, k1 as int, (off + k1) as int, e[k1 as int]);
    }
}

/// The scan after one more character.
proof fn lemma_scan_next(t: Seq<char>, k: nat)
    requires
        k < t.len(),
        scan(t, k) is Ok,
    ensures
        scan(t, k + 1) == scan_step(scan(t, k)->Ok_0, k as int, t[k as int]),
{
}

/// Pattern `(e)+`.
pub open spec fn group_plus(e: Seq<char>) -> Seq<char> {
    grouped(e) + seq!['+']
}

/// Pattern `(e)(e)*`.
pub open spec fn group_then_star(e: Seq<char>) -> Seq<char> {
    grouped(e) + grouped(e) + seq!['*']
}

/// Where `e` and `(e)` parse to `x` and more, `(e)+` parses to the sequence
/// of `x+`, and `(e)(e)*` to the sequence of `x` and `x*`.
pub proof fn lemma_parse_group_repeats(e: Seq<char>)
    requires
        parse_spec(e) is Ok,
        parse_spec(grouped(e)) is Ok,
    ensures
        ({
            let x = parse_spec(e)->Ok_0;
            &&& parse_spec(group_plus(e)) == Ok::<Re, ParseError>(
                Re::Concat(seq![Re::Plus(Box::new(x))]),
            )
            &&& parse_spec(group_then_star(e)) == Ok::<Re, ParseError>(
                Re::Concat(seq![x, Re::Star(Box::new(x))]),
            )
        }),
{
    lemma_group_condition(e);
    let x = parse_spec(e)->Ok_0;
    let st = scan(e, e.len())->Ok_0;
    assert(fold_branches(closed_branches(st)) == Some(x));
    let n = e.len() as int;
    let empty = Seq::<Re>::empty();
    let init = Scan { seq: seq![], seq_or: seq![], stack: seq![], escape: false };
    let open0 = Scan { seq: seq![], seq_or: seq![], stack: seq![(empty, empty)], escape: false };
    let one = Scan { seq: seq![x], seq_or: seq![], stack: seq![], escape: false };
    // (e)+
    let t1 = group_plus(e);
    assert(t1[0] == '(');
    assert(scan(t1, 0) == Ok::<Scan, ParseError>(init));
    lemma_scan_next(t1, 0);
    assert(init.stack.push((init.seq, init.seq_or)) =~= open0.stack);
    assert(t1.subrange(1, 1 + n) =~= e);
    lemma_scan_within(t1, (1) as nat, e, open0.stack, n as nat);
    let l1 = lift_on(st, open0.stack);
    assert(l1.stack =~= seq![(empty, empty)]);
    assert(t1[n + 1] == ')');
    lemma_scan_next(t1, (n + 1) as nat);
    assert(closed_branches(l1) == closed_branches(st));
    assert(l1.stack.drop_last() =~= seq![]);
    assert(scan(t1, (n + 2) as nat) == Ok::<Scan, ParseError>(one));
    assert(t1[n + 2] == '+');
    lemma_scan_next(t1, (n + 2) as nat);
    let plus_one = Scan { seq: seq![Re::Plus(Box::new(x))], seq_or: seq![], stack: seq![], escape: false };
    assert(one.seq.drop_last().push(repeat('+', one.seq.last())) =~= plus_one.seq);
    assert(scan(t1, (n + 3) as nat) == Ok::<Scan, ParseError>(plus_one));
    assert(t1.len() == n + 3);
    assert(closed_branches(plus_one) =~= seq![Re::Concat(seq![Re::Plus(Box::new(x))])]);
    // (e)(e)*
    let t2 = group_then_star(e);
    assert(t2.subrange(0, n + 2) =~= grouped(e));
    assert(t2[0] == '(');
    assert(scan(t2, 0) == Ok::<Scan, ParseError>(init));
    lemma_scan_next(t2, 0);
    assert(t2.subrange(1, 1 + n) =~= e);
    lemma_scan_within(t2, (1) as nat, e, open0.stack, n as nat);
    assert(t2[n + 1] == ')');
    lemma_scan_next(t2, (n + 1) as nat);
    assert(scan(t2, (n + 2) as nat) == Ok::<Scan, ParseError>(one));
    assert(t2[n + 2] == '(');
    lemma_scan_next(t2, (n + 2) as nat);
    let open1 = Scan { seq: seq![], seq_or: seq![], stack: seq![(seq![x], empty)], escape: false };
    assert(one.stack.push((one.seq, one.seq_or)) =~= open1.stack);
    assert(scan(t2, (n + 3) as nat) == Ok::<Scan, ParseError>(open1));
    assert(t2.subrange(n + 3, n + 3 + n) =~= e);
    lemma_scan_within(t2, (n + 3) as nat, e, open1.stack, n as nat);
    let l2 = lift_on(st, open1.stack);
    assert(l2.stack =~= seq![(seq![x], empty)]);
    assert(t2[2 * n + 3] == ')');
    lemma_scan_next(t2, (2 * n + 3) as nat);
    assert(closed_branches(l2) == closed_branches(st));
    assert(l2.stack.drop_last() =~= seq![]);
    let two = Scan { seq: seq![x, x], seq_or: seq![], stack: seq![], escape: false };
    assert(seq![x].push(x) =~= two.seq);
    assert(scan(t2, (2 * n + 4) as nat) == Ok::<Scan, ParseError>(two));
    assert(t2[2 * n + 4] == '*');
    lemma_scan_next(t2, (2 * n + 4) as nat);
    let starred = Scan {
        seq: seq![x, Re::Star(Box::new(x))],
        seq_or: seq![],
        stack: seq![],
        escape: false,
    };
    assert(two.seq.drop_last().push(repeat('*', two.seq.last())) =~= starred.seq);
    assert(scan(t2, (2 * n + 5) as nat) == Ok::<Scan, ParseError>(starred));
    assert(t2.len() == 2 * n + 5);
    assert(closed_branches(starred) =~= seq![Re::Concat(seq![x, Re::Star(Box::new(x))])]);
}

} // verus!