//! The line-by-line parser that builds the instruction tree, with its table
//! of named positions and its stack of open loops.
use vstd::prelude::*;
use crate::instruct::{
    Action, Instruct, InstructView, action_views, effects_of, lemma_list_view, list_view,
};
use crate::text::{
    chars_of, code_part, i32_of, is_space, lemma_comment_at, lemma_comment_none,
    lemma_words_of_spaces, line_words, no_marker_between, parse_i32, parse_usize, tokens, usize_of,
};

verus! {

pub const INSTRUCT_POS: &'static str = "pos";
pub const INSTRUCT_MOVE: &'static str = "move";
pub const INSTRUCT_MOUSE: &'static str = "mouse";
pub const INSTRUCT_SLEEP: &'static str = "sleep";
pub const INSTRUCT_LOOP_START: &'static str = "loop-start";
pub const INSTRUCT_LOOP_END: &'static str = "loop-end";

/// Why a line was refused.
#[derive(Debug, Clone, Copy, PartialEq, Eq, Structural)]
pub enum ErrorKind {
    /// The first word names no instruction.
    UnknownInstruct,
    /// An instruction of fixed shape got the wrong number of arguments.
    WrongArgCount,
    /// A numeric argument is not an integer literal in range.
    NotAnInteger,
    /// `move` names a position that no `pos` defined.
    UndefinedVariable,
    /// `move` got neither a name nor two coordinates.
    BadMoveArgs,
    /// `loop-end` with no open loop.
    UnmatchedLoopEnd,
    /// The script ended with a loop still open.
    MissingLoopEnd,
}

/// The two classes of parse errors.
#[derive(Debug, Clone, Copy, PartialEq, Eq, Structural)]
pub enum ErrorCategory {
    /// Malformed structure.
    Syntax,
    /// Well-formed, but an argument is unusable.
    Value,
}

pub open spec fn category_of(k: ErrorKind) -> ErrorCategory {
    match k {
        ErrorKind::NotAnInteger | ErrorKind::UndefinedVariable | ErrorKind::BadMoveArgs => {
            ErrorCategory::Value
        },
        _ => ErrorCategory::Syntax,
    }
}

impl ErrorKind {
    pub fn category(&self) -> (r: ErrorCategory)
        ensures
            r == category_of(*self),
    {
        match self {
            ErrorKind::NotAnInteger | ErrorKind::UndefinedVariable | ErrorKind::BadMoveArgs => {
                ErrorCategory::Value
            },
            _ => ErrorCategory::Syntax,
        }
    }
}

/// A refused script: the 1-based line at fault and the reason.
#[derive(Debug, Clone, Copy, PartialEq, Eq, Structural)]
pub struct ParseError {
    pub line: usize,
    pub kind: ErrorKind,
}

impl ErrorCategory {
    pub open spec fn spec_name(self) -> Seq<char> {
        match self {
            ErrorCategory::Syntax => "SyntaxError"@,
            ErrorCategory::Value => "ValueError"@,
        }
    }

    pub fn name(&self) -> (r: &'static str)
        ensures
            r@ == self.spec_name(),
    {
        match self {
            ErrorCategory::Syntax => "SyntaxError",
            ErrorCategory::Value => "ValueError",
        }
    }
}

/// What each kind of error says about the line.
pub open spec fn detail_of(k: ErrorKind) -> Seq<char> {
    match k {
        ErrorKind::UnknownInstruct => "unknown instruct"@,
        ErrorKind::WrongArgCount => "wrong number of arguments"@,
        ErrorKind::NotAnInteger => "argument must be int"@,
        ErrorKind::UndefinedVariable => "variable not defined"@,
        ErrorKind::BadMoveArgs => "[move] takes a position name or x y"@,
        ErrorKind::UnmatchedLoopEnd => "missing [loop-start]"@,
        ErrorKind::MissingLoopEnd => "missing [loop-end]"@,
    }
}

impl ErrorKind {
    pub fn detail(&self) -> (r: &'static str)
        ensures
            r@ == detail_of(*self),
    {
        match self {
            ErrorKind::UnknownInstruct => "unknown instruct",
            ErrorKind::WrongArgCount => "wrong number of arguments",
            ErrorKind::NotAnInteger => "argument must be int",
            ErrorKind::UndefinedVariable => "variable not defined",
            ErrorKind::BadMoveArgs => "[move] takes a position name or x y",
            ErrorKind::UnmatchedLoopEnd => "missing [loop-start]",
            ErrorKind::MissingLoopEnd => "missing [loop-end]",
        }
    }
}

/// The decimal digits of `n`, most significant first.
pub open spec fn decimal(n: nat) -> Seq<char>
    decreases n,
{
    let d = seq!['0', '1', '2', '3', '4', '5', '6', '7', '8', '9'];
    if n < 10 {
        seq![d[n as int]]
    } else {
        decimal(n / 10).push(d[(n % 10) as int])
    }
}

/// The text of an error: its line, its category and what went wrong.
pub open spec fn message_of(e: ParseError) -> Seq<char> {
    "line "@ + decimal(e.line as nat) + " - "@ + category_of(e.kind).spec_name() + ": "@
        + detail_of(e.kind)
}

fn digit_char(d: usize) -> (r: char)
    requires
        d < 10,
    ensures
        r == seq!['0', '1', '2', '3', '4', '5', '6', '7', '8', '9'][d as int],
{
    match d {
        0 => '0',
        1 => '1',
        2 => '2',
        3 => '3',
        4 => '4',
        5 => '5',
        6 => '6',
        7 => '7',
        8 => '8',
        _ => '9',
    }
}

fn push_decimal(s: &mut String, n: usize)
    ensures
        final(s)@ == old(s)@ + decimal(n as nat),
    decreases n,
{
    if n >= 10 {
        push_decimal(s, n / 10);
    }
    push_char(s, digit_char(n % 10));
    assert(final(s)@ =~= old(s)@ + decimal(n as nat));
}

fn push_str(s: &mut String, t: &str)
    ensures
        final(s)@ == old(s)@ + t@,
{
    let v = chars_of(t);
    let mut i: usize = 0;
    while i < v.len()
        invariant
            i <= v.len(),
            v@ == t@,
            s@ == old(s)@ + v@.take(i as int),
        decreases v.len() - i,
    {
        push_char(s, v[i]);
        assert(v@.take(i + 1) =~= v@.take(i as int).push(v@[i as int]));
        i = i + 1;
    }
    assert(v@.take(i as int) =~= v@);
}

impl ParseError {
    /// A readable account of the error, such as
    /// `line 3 - SyntaxError: unknown instruct`.
    pub fn message(&self) -> (r: String)
        ensures
            r@ == message_of(*self),
    {
        let mut s = String::new();
        push_str(&mut s, "line ");
        push_decimal(&mut s, self.line);
        push_str(&mut s, " - ");
        push_str(&mut s, self.kind.category().name());
        push_str(&mut s, ": ");
        push_str(&mut s, self.kind.detail());
        s
    }
}

/// Named positions: later entries win over earlier ones with the same name.
pub open spec fn table(s: Seq<(Vec<char>, i32, i32)>) -> Map<Seq<char>, (i32, i32)>
    decreases s.len(),
{
    if s.len() == 0 {
        Map::empty()
    } else {
        table(s.drop_last()).insert(s.last().0@, (s.last().1, s.last().2))
    }
}

/// Everything the parser knows between two lines.
pub struct ParseState {
    pub vars: Map<Seq<char>, (i32, i32)>,
    pub program: Seq<InstructView>,
    pub frames: Seq<InstructView>,
}

/// Every entry of a loop-frame stack is a loop under construction.
pub open spec fn is_frames(s: Seq<Instruct>) -> bool {
    forall|k: int| 0 <= k < s.len() ==> #[trigger] s[k] is Loop
}

pub open spec fn add_to(frame: InstructView, i: InstructView) -> InstructView {
    match frame {
        InstructView::Loop(n, body) => InstructView::Loop(n, body.push(i)),
        _ => frame,
    }
}

/// A finished instruction goes into the innermost open loop, or, when no
/// loop is open, at the end of the program.
pub open spec fn emit(st: ParseState, i: InstructView) -> ParseState {
    if st.frames.len() == 0 {
        ParseState { program: st.program.push(i), ..st }
    } else {
        ParseState { frames: st.frames.drop_last().push(add_to(st.frames.last(), i)), ..st }
    }
}

/// The effect of one line, given its words, on the parser's state.
pub open spec fn step(st: ParseState, w: Seq<Seq<char>>) -> Result<ParseState, ErrorKind> {
    if w.len() == 0 {
        Ok(st)
    } else {
        let op = w[0];
        let args = w.drop_first();
        if op == INSTRUCT_POS@ {
            if args.len() != 3 {
                Err(ErrorKind::WrongArgCount)
            } else if i32_of(args[1]) is None || i32_of(args[2]) is None {
                Err(ErrorKind::NotAnInteger)
            } else {
                Ok(
                    ParseState {
                        vars: st.vars.insert(args[0], (i32_of(args[1])->0, i32_of(args[2])->0)),
                        ..st
                    },
                )
            }
        } else if op == INSTRUCT_MOVE@ {
            if args.len() == 1 {
                if st.vars.contains_key(args[0]) {
                    Ok(emit(st, InstructView::Move(st.vars[args[0]].0, st.vars[args[0]].1)))
                } else {
                    Err(ErrorKind::UndefinedVariable)
                }
            } else if args.len() == 2 {
                if i32_of(args[0]) is None || i32_of(args[1]) is None {
                    Err(ErrorKind::NotAnInteger)
                } else {
                    Ok(emit(st, InstructView::Move(i32_of(args[0])->0, i32_of(args[1])->0)))
                }
            } else {
                Err(ErrorKind::BadMoveArgs)
            }
        } else if op == INSTRUCT_MOUSE@ {
            if args.len() == 1 {
                Ok(emit(st, InstructView::Mouse(args[0], 1)))
            } else if args.len() == 2 {
                match usize_of(args[1]) {
                    Some(c) => Ok(emit(st, InstructView::Mouse(args[0], c))),
                    None => Err(ErrorKind::NotAnInteger),
                }
            } else {
                Err(ErrorKind::WrongArgCount)
            }
        } else if op == INSTRUCT_SLEEP@ {
            if args.len() != 1 {
                Err(ErrorKind::WrongArgCount)
            } else {
                match usize_of(args[0]) {
                    Some(d) => Ok(emit(st, InstructView::Sleep(d))),
                    None => Err(ErrorKind::NotAnInteger),
                }
            }
        } else if op == INSTRUCT_LOOP_START@ {
            if args.len() != 1 {
                Err(ErrorKind::WrongArgCount)
            } else {
                match usize_of(args[0]) {
                    Some(n) => Ok(
                        ParseState {
                            frames: st.frames.push(InstructView::Loop(n, Seq::empty())),
                            ..st
                        },
                    ),
                    None => Err(ErrorKind::NotAnInteger),
                }
            }
        } else if op == INSTRUCT_LOOP_END@ {
            if args.len() != 0 {
                Err(ErrorKind::WrongArgCount)
            } else if st.frames.len() == 0 {
                Err(ErrorKind::UnmatchedLoopEnd)
            } else {
                Ok(
                    emit(
                        ParseState { frames: st.frames.drop_last(), ..st },
                        st.frames.last(),
                    ),
                )
            }
        } else {
            Err(ErrorKind::UnknownInstruct)
        }
    }
}

/// Runs the lines of a script, numbered from `first`, through `step`; the
/// first line refused ends the run with its number.
pub open spec fn run(st: ParseState, lines: Seq<Seq<char>>, first: int) -> Result<
    ParseState,
    ParseError,
>
    decreases lines.len(),
{
    if lines.len() == 0 {
        Ok(st)
    } else {
        match step(st, line_words(lines[0])) {
            Err(k) => Err(ParseError { line: first as usize, kind: k }),
            Ok(next) => run(next, lines.drop_first(), first + 1),
        }
    }
}

/// The outcome of parsing a whole script from `st`: every line in order, and
/// no loop left open at the end.
pub open spec fn script_result(st: ParseState, lines: Seq<Seq<char>>) -> Result<
    ParseState,
    ParseError,
> {
    match run(st, lines, 1) {
        Err(e) => Err(e),
        Ok(fin) => if fin.frames.len() > 0 {
            Err(ParseError { line: lines.len() as usize, kind: ErrorKind::MissingLoopEnd })
        } else {
            Ok(fin)
        },
    }
}

pub open spec fn line_texts(lines: Seq<String>) -> Seq<Seq<char>> {
    lines.map_values(|l: String| l@)
}

/// The first `k` characters of `s` are whitespace, and the line ends or a
/// comment starts there.
pub open spec fn blank_until(s: Seq<char>, k: int) -> bool {
    0 <= k <= s.len() && (forall|j: int| 0 <= j < k ==> is_space(#[trigger] s[j])) && (k
        == s.len() || (k + 1 < s.len() && s[k] == '*' && s[k + 1] == '*'))
}

/// A line that holds only whitespace, or only whitespace followed by a
/// comment.
pub open spec fn is_blank_or_comment(s: Seq<char>) -> bool {
    exists|k: int| #[trigger] blank_until(s, k)
}

/// A blank line, or one that is only a comment, yields no words and leaves
/// the parser's state as it was.
pub proof fn lemma_blank_or_comment_line(st: ParseState, s: Seq<char>)
    requires
        is_blank_or_comment(s),
    ensures
        line_words(s) == Seq::<Seq<char>>::empty(),
        step(st, line_words(s)) == Ok::<ParseState, ErrorKind>(st),
{
    let k = choose|k: int| #[trigger] blank_until(s, k);
    if k == s.len() {
        assert(no_marker_between(s, 0, s.len() as int)) by {
            assert forall|j: int| 0 <= j < s.len() && j + 1 < s.len() implies !(s[j] == '*' && #[trigger] s[j + 1] == '*') by {
                assert(is_space(s[j]));
            }
        }
        lemma_comment_none(s, 0);
        assert(code_part(s) =~= s);
    } else {
        assert(no_marker_between(s, 0, k)) by {
            assert forall|j: int| 0 <= j < k && j + 1 < s.len() implies !(s[j] == '*' && #[trigger] s[j + 1] == '*') by {
                assert(is_space(s[j]));
            }
        }
        lemma_comment_at(s, 0, k);
    }
    lemma_words_of_spaces(code_part(s));
}

/// A trailing comment changes nothing: `c` followed by `**` and any text
/// parses as `c` alone, provided that `c` holds no comment marker and does
/// not end in `*` (else the marker would start one character earlier).
pub proof fn lemma_trailing_comment(st: ParseState, c: Seq<char>, note: Seq<char>)
    requires
        no_marker_between(c, 0, c.len() as int),
        c.len() == 0 || c.last() != '*',
    ensures
        line_words(c + seq!['*', '*'] + note) == line_words(c),
        step(st, line_words(c + seq!['*', '*'] + note)) == step(st, line_words(c)),
{
    let s = c + seq!['*', '*'] + note;
    let k = c.len() as int;
    assert(no_marker_between(s, 0, k)) by {
        assert forall|j: int| 0 <= j < k && j + 1 < s.len() implies !(s[j] == '*' && #[trigger] s[j + 1] == '*') by {
            if j + 1 < k {
                assert(s[j] == c[j] && s[j + 1] == c[j + 1]);
            } else {
                assert(s[j] == c.last());
            }
        }
    }
    lemma_comment_at(s, 0, k);
    lemma_comment_none(c, 0);
    assert(code_part(s) =~= code_part(c));
}

proof fn lemma_list_view_push(s: Seq<Instruct>, x: Instruct)
    ensures
        list_view(s.push(x)) == list_view(s).push(x@),
{
    assert(s.push(x).drop_last() =~= s);
}

proof fn lemma_list_view_pop(s: Seq<Instruct>)
    requires
        s.len() > 0,
    ensures
        list_view(s) == list_view(s.drop_last()).push(s.last()@),
{
}

fn same_chars(a: &Vec<char>, b: &Vec<char>) -> (r: bool)
    ensures
        r == (a@ == b@),
{
    if a.len() != b.len() {
        return false;
    }
    let mut i: usize = 0;
    while i < a.len()
        invariant
            i <= a.len() == b.len(),
            forall|j: int| 0 <= j < i ==> a@[j] == b@[j],
        decreases a.len() - i,
    {
        if a[i] != b[i] {
            return false;
        }
        i = i + 1;
    }
    assert(a@ =~= b@);
    true
}

fn is_word(w: &Vec<char>, lit: &str) -> (r: bool)
    ensures
        r == (w@ == lit@),
{
    let l = chars_of(lit);
    same_chars(w, &l)
}

fn copy_chars(v: &Vec<char>) -> (r: Vec<char>)
    ensures
        r@ == v@,
{
    let mut r: Vec<char> = Vec::new();
    let mut i: usize = 0;
    while i < v.len()
        invariant
            i <= v.len(),
            r@ == v@.take(i as int),
        decreases v.len() - i,
    {
        r.push(v[i]);
        i = i + 1;
    }
    assert(v@.take(i as int) =~= v@);
    r
}

/// Relies on `String::push`: appends one character at the end.
#[verifier::external_body]
fn push_char(s: &mut String, c: char)
    ensures
        final(s)@ == old(s)@.push(c),
{
    s.push(c)
}

fn string_of(v: &Vec<char>) -> (r: String)
    ensures
        r@ == v@,
{
    let mut s = String::new();
    let mut i: usize = 0;
    while i < v.len()
        invariant
            i <= v.len(),
            s@ == v@.take(i as int),
        decreases v.len() - i,
    {
        push_char(&mut s, v[i]);
        i = i + 1;
    }
    assert(v@.take(i as int) =~= v@);
    s
}

/// Parses a script into a tree of instructions.
///
/// Every instruction that stands between a `loop-start` and its matching
/// `loop-end` becomes part of that loop's body, so a loop repeats the
/// actions written inside it; `pos` only defines a name, for the whole
/// script, and adds no instruction.
pub struct Interpreter {
    variables: Vec<(Vec<char>, i32, i32)>,
    pub instructs: Vec<Instruct>,
}

impl Interpreter {
    /// The named positions defined so far.
    pub closed spec fn vars(&self) -> Map<Seq<char>, (i32, i32)> {
        table(self.variables@)
    }

    /// The top-level instructions parsed so far.
    pub closed spec fn program(&self) -> Seq<InstructView> {
        list_view(self.instructs@)
    }

    /// The parser's state, with `frames` as its stack of open loops.
    pub open spec fn state(&self, frames: Seq<Instruct>) -> ParseState {
        ParseState { vars: self.vars(), program: self.program(), frames: list_view(frames) }
    }

    pub fn new() -> (r: Self)
        ensures
            r.vars() == Map::<Seq<char>, (i32, i32)>::empty(),
            r.program() == Seq::<InstructView>::empty(),
    {
        Interpreter { variables: Vec::new(), instructs: Vec::new() }
    }

    /// The position named `name`, searching from the latest definition.
    fn lookup(&self, name: &Vec<char>) -> (r: Option<(i32, i32)>)
        ensures
            r is Some <==> self.vars().contains_key(name@),
            r is Some ==> r->0 == self.vars()[name@],
    {
        let ghost s = self.variables@;
        let mut i: usize = self.variables.len();
        assert(s.take(i as int) =~= s);
        while i > 0
            invariant
                i <= s.len(),
                s == self.variables@,
                table(s).contains_key(name@) == table(s.take(i as int)).contains_key(name@),
                table(s).contains_key(name@) ==> table(s)[name@] == table(s.take(
                    i as int,
                ))[name@],
            decreases i,
        {
            assert(s.take(i as int).drop_last() =~= s.take(i - 1));
            let e = &self.variables[i - 1];
            if same_chars(&e.0, name) {
                return Some((e.1, e.2));
            }
            i = i - 1;
        }
        None
    }

    /// Puts a finished instruction into the innermost open loop, or at the end
    /// of the program when no loop is open.
    fn place(&mut self, loop_stack: &mut Vec<Instruct>, ins: Instruct)
        requires
            is_frames(old(loop_stack)@),
        ensures
            is_frames(final(loop_stack)@),
            final(self).state(final(loop_stack)@) == emit(old(self).state(old(loop_stack)@), ins@),
            final(self).variables == old(self).variables,
    {
        proof {
            lemma_list_view_push(self.instructs@, ins);
        }
        if loop_stack.len() == 0 {
            self.instructs.push(ins);
        } else {
            let ghost before = loop_stack@;
            proof {
                lemma_list_view_pop(before);
                assert(before[before.len() - 1] is Loop);
            }
            match loop_stack.pop() {
                Some(Instruct::Loop(n, mut body)) => {
                    proof {
                        lemma_list_view_push(body@, ins);
                    }
                    body.push(ins);
                    let frame = Instruct::Loop(n, body);
                    proof {
                        lemma_list_view_push(loop_stack@, frame);
                    }
                    loop_stack.push(frame);
                    assert(list_view(loop_stack@) == list_view(before).drop_last().push(
                        add_to(list_view(before).last(), ins@),
                    ));
                    assert(is_frames(loop_stack@));
                },
                _ => {},
            }
        }
    }

    /// Parses one line of a script; `line_number` is its 1-based position and
    /// `loop_stack` the loops opened and not yet closed.
    pub fn parse_line(&mut self, line: &str, line_number: usize, loop_stack: &mut Vec<Instruct>) -> (r:
        Result<(), ParseError>)
        requires
            is_frames(old(loop_stack)@),
        ensures
            is_frames(final(loop_stack)@),
            match step(old(self).state(old(loop_stack)@), line_words(line@)) {
                Ok(st) => r is Ok && final(self).state(final(loop_stack)@) == st,
                Err(k) => r == Err::<(), ParseError>(ParseError { line: line_number, kind: k })
                    && *final(self) == *old(self) && *final(loop_stack) == *old(loop_stack),
            },
    {
        let w = tokens(line);
        let ghost ws = line_words(line@);
        assert(ws.len() == w.len());
        if w.len() == 0 {
            return Ok(());
        }
        assert(ws[0] == w@[0]@);
        assert(forall|j: int| 0 <= j < w.len() - 1 ==> ws.drop_first()[j] == #[trigger] w@[j + 1]@);
        let nargs = w.len() - 1;
        let err = |k: ErrorKind| -> (e: Result<(), ParseError>)
            ensures
                e == Err::<(), ParseError>(ParseError { line: line_number, kind: k }),
            { Err(ParseError { line: line_number, kind: k }) };
        if is_word(&w[0], INSTRUCT_POS) {
            if nargs != 3 {
                return err(ErrorKind::WrongArgCount);
            }
            match (parse_i32(&w[2]), parse_i32(&w[3])) {
                (Some(x), Some(y)) => {
                    let name = copy_chars(&w[1]);
                    let ghost s = self.variables@;
                    self.variables.push((name, x, y));
                    assert(self.variables@.drop_last() =~= s);
                },
                _ => {
                    return err(ErrorKind::NotAnInteger);
                },
            }
        } else if is_word(&w[0], INSTRUCT_MOVE) {
            if nargs == 1 {
                match self.lookup(&w[1]) {
                    Some((x, y)) => self.place(loop_stack, Instruct::Move(x, y)),
                    None => {
                        return err(ErrorKind::UndefinedVariable);
                    },
                }
            } else if nargs == 2 {
                match (parse_i32(&w[1]), parse_i32(&w[2])) {
                    (Some(x), Some(y)) => self.place(loop_stack, Instruct::Move(x, y)),
                    _ => {
                        return err(ErrorKind::NotAnInteger);
                    },
                }
            } else {
                return err(ErrorKind::BadMoveArgs);
            }
        } else if is_word(&w[0], INSTRUCT_MOUSE) {
            if nargs == 1 {
                let button = string_of(&w[1]);
                self.place(loop_stack, Instruct::Mouse(button, 1));
            } else if nargs == 2 {
                match parse_usize(&w[2]) {
                    Some(c) => {
                        let button = string_of(&w[1]);
                        self.place(loop_stack, Instruct::Mouse(button, c));
                    },
                    None => {
                        return err(ErrorKind::NotAnInteger);
                    },
                }
            } else {
                return err(ErrorKind::WrongArgCount);
            }
        } else if is_word(&w[0], INSTRUCT_SLEEP) {
            if nargs != 1 {
                return err(ErrorKind::WrongArgCount);
            }
            match parse_usize(&w[1]) {
                Some(d) => self.place(loop_stack, Instruct::Sleep(d)),
                None => {
                    return err(ErrorKind::NotAnInteger);
                },
            }
        } else if is_word(&w[0], INSTRUCT_LOOP_START) {
            if nargs != 1 {
                return err(ErrorKind::WrongArgCount);
            }
            match parse_usize(&w[1]) {
                Some(n) => {
                    let frame = Instruct::Loop(n, Vec::new());
                    proof {
                        assert(frame@ == InstructView::Loop(n, Seq::empty()));
                        lemma_list_view_push(loop_stack@, frame);
                        assert(list_view(Seq::<Instruct>::empty()) == Seq::<InstructView>::empty());
                    }
                    loop_stack.push(frame);
                },
                None => {
                    return err(ErrorKind::NotAnInteger);
                },
            }
        } else if is_word(&w[0], INSTRUCT_LOOP_END) {
            if nargs != 0 {
                return err(ErrorKind::WrongArgCount);
            }
            if loop_stack.len() == 0 {
                return err(ErrorKind::UnmatchedLoopEnd);
            }
            let ghost before = loop_stack@;
            proof {
                lemma_list_view_pop(before);
                assert(list_view(before).drop_last() =~= list_view(before.drop_last()));
            }
            match loop_stack.pop() {
                Some(frame) => {
                    assert(frame@ == list_view(before).last());
                    self.place(loop_stack, frame);
                },
                None => {},
            }
        } else {
            return err(ErrorKind::UnknownInstruct);
        }
        Ok(())
    }

    /// Parses a whole script, line by line, starting with no loop open.
    /// The first line refused stops the parse; a loop still open after the
    /// last line is refused too.
    pub fn parse_lines(&mut self, lines: &Vec<String>) -> (r: Result<(), ParseError>)
        ensures
            match script_result(old(self).state(Seq::empty()), line_texts(lines@)) {
                Ok(fin) => r is Ok && final(self).state(Seq::empty()) == fin,
                Err(e) => r == Err::<(), ParseError>(e),
            },
    {
        let mut loop_stack: Vec<Instruct> = Vec::new();
        let ghost texts = line_texts(lines@);
        let ghost init = self.state(Seq::empty());
        assert(texts.skip(0) =~= texts);
        let mut i: usize = 0;
        while i < lines.len()
            invariant
                i <= lines.len(),
                texts == line_texts(lines@),
                init == old(self).state(Seq::empty()),
                is_frames(loop_stack@),
                run(init, texts, 1) == run(self.state(loop_stack@), texts.skip(i as int), i + 1),
            decreases lines.len() - i,
        {
            assert(texts.skip(i as int)[0] == lines@[i as int]@);
            assert(texts.skip(i as int).drop_first() =~= texts.skip(i + 1));
            let ghost st = self.state(loop_stack@);
            match self.parse_line(lines[i].as_str(), i + 1, &mut loop_stack) {
                Ok(()) => {},
                Err(e) => {
                    assert(step(st, line_words(texts.skip(i as int)[0])) is Err);
                    assert(run(st, texts.skip(i as int), i + 1) == Err::<ParseState, ParseError>(e));
                    return Err(e);
                },
            }
            i = i + 1;
        }
        proof {
            lemma_list_view(loop_stack@);
        }
        if loop_stack.len() > 0 {
            return Err(ParseError { line: lines.len(), kind: ErrorKind::MissingLoopEnd });
        }
        assert(loop_stack@ =~= Seq::<Instruct>::empty());
        Ok(())
    }

    /// Executes the program: the effects of its instructions, in order.
    pub fn execute(&self) -> (r: Vec<Action>)
        ensures
            action_views(r@) == effects_of(self.program()),
    {
        let mut sink: Vec<Action> = Vec::new();
        let ghost p = list_view(self.instructs@);
        proof {
            lemma_list_view(self.instructs@);
        }
        let mut j: usize = 0;
        while j < self.instructs.len()
            invariant
                j <= self.instructs.len(),
                p == list_view(self.instructs@),
                p.len() == self.instructs.len(),
                forall|m: int| 0 <= m < p.len() ==> #[trigger] p[m] == self.instructs@[m]@,
                action_views(sink@) == effects_of(p.take(j as int)),
            decreases self.instructs.len() - j,
        {
            self.instructs[j].execute(&mut sink);
            assert(p.take(j + 1).drop_last() =~= p.take(j as int));
            j = j + 1;
        }
        assert(p.take(j as int) =~= p);
        sink
    }
}

} // verus!
