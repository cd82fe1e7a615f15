use vstd::prelude::*;
use crate::context::Context;
use crate::state::Stack;
use crate::word::{Word, WordSpec, run_words, words_view};

verus! {

/// Why running a word failed.
#[derive(Clone, Copy, Debug, PartialEq, Eq, Structural)]
pub enum EvaluationError {
    /// A word needed more values than the stack held.
    StackUnderflow,
    /// Division by zero.
    DivideByZero,
    /// A result does not fit in 32 bits.
    Overflow,
    /// A reference names no entry of the dictionary.
    UndefinedWord,
    /// Compound words were nested deeper than the evaluator allows.
    RecursionLimit,
}

/// How deep references to compound words may nest while running.
pub const MAX_DEPTH: usize = 1024;

/// The result of running words from a given stack: the stack afterwards, the
/// values printed on the way, in order, and the failure that stopped the
/// run, if one did. A failure keeps what the words before it did.
pub struct Run {
    pub stack: Seq<i32>,
    pub printed: Seq<i32>,
    pub error: Option<EvaluationError>,
}

pub open spec fn done(s: Seq<i32>) -> Run {
    Run { stack: s, printed: Seq::empty(), error: None }
}

pub open spec fn fail(s: Seq<i32>, e: EvaluationError) -> Run {
    Run { stack: s, printed: Seq::empty(), error: Some(e) }
}

/// `r`, with the values `p` printed before it.
pub open spec fn after_printing(p: Seq<i32>, r: Run) -> Run {
    Run { stack: r.stack, printed: p + r.printed, error: r.error }
}

/// Runs `second` from where `first` left the stack, unless `first` failed.
pub open spec fn then_run(first: Run, second: Run) -> Run {
    if first.error is Some {
        first
    } else {
        after_printing(first.printed, second)
    }
}

pub open spec fn fits(v: int) -> bool {
    i32::MIN <= v <= i32::MAX
}

pub open spec fn abs(v: int) -> int {
    if v < 0 {
        -v
    } else {
        v
    }
}

pub open spec fn sign(v: int) -> int {
    if v < 0 {
        -1
    } else if v == 0 {
        0
    } else {
        1
    }
}

/// Division that rounds toward zero.
pub open spec fn trunc_div(b: int, a: int) -> int {
    if (b < 0) == (a < 0) {
        abs(b) / abs(a)
    } else {
        -(abs(b) / abs(a))
    }
}

pub open spec fn checked(v: int) -> Result<i32, EvaluationError> {
    if fits(v) {
        Ok(v as i32)
    } else {
        Err(EvaluationError::Overflow)
    }
}

pub open spec fn is_binary(w: WordSpec) -> bool {
    w is Add || w is Sub || w is Mul || w is Div || w is Cmp
}

/// The value that a binary word computes from the top `a` and the second `b`.
pub open spec fn binary_value(w: WordSpec, a: i32, b: i32) -> Result<i32, EvaluationError> {
    match w {
        WordSpec::Add => checked(b + a),
        WordSpec::Sub => checked(b - a),
        WordSpec::Mul => checked(b * a),
        WordSpec::Div => if a == 0 {
            Err(EvaluationError::DivideByZero)
        } else {
            checked(trunc_div(b as int, a as int))
        },
        _ => Ok(sign(b - a) as i32),
    }
}

pub open spec fn size(w: WordSpec) -> nat
    decreases w,
{
    match w {
        WordSpec::Cond { then } => 1 + size(*then),
        WordSpec::Loop { body } => 1 + size(*body),
        _ => 1,
    }
}

pub open spec fn list_size(ws: Seq<WordSpec>) -> nat
    decreases ws.len(),
{
    if ws.len() == 0 {
        0
    } else {
        size(ws[0]) + list_size(ws.drop_first())
    }
}

/// Runs one word on stack `s`; `depth` bounds how deeply references to
/// compound words may still nest.
pub open spec fn step(w: WordSpec, s: Seq<i32>, d: Map<Seq<char>, Seq<WordSpec>>, depth: nat) -> Run
    decreases depth, 2 * size(w), 0int,
{
    let n = s.len();
    match w {
        WordSpec::Abs => if n < 1 {
            fail(s, EvaluationError::StackUnderflow)
        } else {
            match checked(abs(s.last() as int)) {
                Ok(v) => done(s.drop_last().push(v)),
                Err(e) => fail(s, e),
            }
        },
        WordSpec::Dup => if n < 1 {
            fail(s, EvaluationError::StackUnderflow)
        } else {
            done(s.push(s.last()))
        },
        WordSpec::Drop => if n < 1 {
            fail(s, EvaluationError::StackUnderflow)
        } else {
            done(s.drop_last())
        },
        WordSpec::Print => if n < 1 {
            fail(s, EvaluationError::StackUnderflow)
        } else {
            Run { stack: s, printed: seq![s.last()], error: None }
        },
        WordSpec::Cond { then } => if n < 1 {
            fail(s, EvaluationError::StackUnderflow)
        } else if s.last() != 0 {
            step(*then, s.drop_last(), d, depth)
        } else {
            done(s.drop_last())
        },
        WordSpec::Loop { body } => if n < 1 {
            fail(s, EvaluationError::StackUnderflow)
        } else {
            run_loop(*body, 0, s.last() as int, s.drop_last(), d, depth)
        },
        WordSpec::Ref { to } => if !d.contains_key(to) {
            fail(s, EvaluationError::UndefinedWord)
        } else if depth == 0 {
            fail(s, EvaluationError::RecursionLimit)
        } else {
            run_list(d[to], s, d, (depth - 1) as nat)
        },
        WordSpec::Const { value } => done(s.push(value)),
        _ => if n < 2 {
            fail(s, EvaluationError::StackUnderflow)
        } else {
            match binary_value(w, s[n - 1], s[n - 2]) {
                Ok(v) => done(s.drop_last().drop_last().push(v)),
                Err(e) => fail(s, e),
            }
        },
    }
}

pub open spec fn result_of(run: Run) -> Result<(), EvaluationError> {
    match run.error {
        Some(e) => Err(e),
        None => Ok(()),
    }
}

/// An executable run ended as `run` says: with stack `stack`, having appended
/// the printed values to `p0` to give `p1`, and returning `r`.
pub open spec fn ended_as(
    run: Run,
    stack: Seq<i32>,
    p0: Seq<i32>,
    p1: Seq<i32>,
    r: Result<(), EvaluationError>,
) -> bool {
    &&& stack == run.stack
    &&& p1 == p0 + run.printed
    &&& r == result_of(run)
}

/// Iterations `i` up to `n` (exclusive) of a loop: each pushes `i`, then
/// runs `body`.
pub open spec fn run_loop(
    body: WordSpec,
    i: int,
    n: int,
    s: Seq<i32>,
    d: Map<Seq<char>, Seq<WordSpec>>,
    depth: nat,
) -> Run
    decreases depth, 2 * size(body) + 1, n - i,
{
    if i >= n {
        done(s)
    } else {
        let first = step(body, s.push(i as i32), d, depth);
        if first.error is Some {
            first
        } else {
            after_printing(first.printed, run_loop(body, i + 1, n, first.stack, d, depth))
        }
    }
}

/// Runs the words of `ws` in order; the first failure stops the run.
pub open spec fn run_list(ws: Seq<WordSpec>, s: Seq<i32>, d: Map<Seq<char>, Seq<WordSpec>>, depth: nat) -> Run
    decreases depth, 2 * list_size(ws) + 1, 0int,
{
    if ws.len() == 0 {
        done(s)
    } else {
        let first = step(ws[0], s, d, depth);
        if first.error is Some {
            first
        } else {
            after_printing(first.printed, run_list(ws.drop_first(), first.stack, d, depth))
        }
    }
}

/// Pushing `x`, then `y`, then running an arithmetic word leaves exactly one
/// value: `x + y`, `x - y`, `x * y` or `x / y` (rounded toward zero), the top
/// value `y` being the right operand. A result that does not fit fails with
/// `Overflow`, and dividing by zero fails with `DivideByZero`.
pub proof fn lemma_arithmetic_on_two_constants(
    x: i32,
    y: i32,
    w: WordSpec,
    d: Map<Seq<char>, Seq<WordSpec>>,
    depth: nat,
)
    requires
        w is Add || w is Sub || w is Mul || w is Div,
    ensures
        ({
            let r = run_list(
                seq![WordSpec::Const { value: x }, WordSpec::Const { value: y }, w],
                Seq::empty(),
                d,
                depth,
            );
            &&& w is Add && fits(x + y) ==> r == done(seq![(x + y) as i32])
            &&& w is Sub && fits(x - y) ==> r == done(seq![(x - y) as i32])
            &&& w is Mul && fits(x * y) ==> r == done(seq![(x * y) as i32])
            &&& w is Div && y != 0 && fits(trunc_div(x as int, y as int)) ==> r == done(
                seq![trunc_div(x as int, y as int) as i32],
            )
            &&& w is Div && y == 0 ==> r.error == Some(EvaluationError::DivideByZero)
            &&& !fits(binary_int(w, x, y)) && y != 0 ==> r.error == Some(EvaluationError::Overflow)
        }),
{
    let ws = seq![WordSpec::Const { value: x }, WordSpec::Const { value: y }, w];
    let e = Seq::<i32>::empty();
    let s1 = e.push(x);
    let s2 = s1.push(y);
    let r3 = step(w, s2, d, depth);
    let tail = seq![w];
    assert(tail.drop_first() =~= Seq::<WordSpec>::empty());
    assert(e + e =~= e);
    assert(run_list(Seq::empty(), r3.stack, d, depth) == done(r3.stack));
    assert(r3.printed == e);
    let r_tail = run_list(tail, s2, d, depth);
    assert(r_tail == r3);
    let mid = seq![WordSpec::Const { value: y }, w];
    assert(mid.drop_first() =~= tail);
    assert(step(WordSpec::Const { value: y }, s1, d, depth) == done(s2));
    assert(run_list(mid, s1, d, depth) == r3);
    assert(ws.drop_first() =~= mid);
    assert(ws[0] == WordSpec::Const { value: x });
    assert(step(WordSpec::Const { value: x }, e, d, depth) == done(s1));
    assert(run_list(ws, e, d, depth) == r3);
    assert(s2.drop_last().drop_last() =~= e);
    assert(s2[1] == y && s2[0] == x);
    if fits(binary_int(w, x, y)) {
        assert(e.push(binary_int(w, x, y) as i32) =~= seq![binary_int(w, x, y) as i32]);
    }
}

/// The exact integer an arithmetic word computes from `x` (second) and `y`
/// (top), before any range check.
pub open spec fn binary_int(w: WordSpec, x: i32, y: i32) -> int {
    match w {
        WordSpec::Add => x + y,
        WordSpec::Sub => x - y,
        WordSpec::Mul => x * y,
        _ => trunc_div(x as int, y as int),
    }
}

/// `dup` pushes a copy of the top value, and fails with `StackUnderflow` on
/// an empty stack, which it leaves empty.
pub proof fn lemma_dup(s: Seq<i32>, d: Map<Seq<char>, Seq<WordSpec>>, depth: nat)
    ensures
        s.len() == 0 ==> step(WordSpec::Dup, s, d, depth) == fail(s, EvaluationError::StackUnderflow),
        s.len() > 0 ==> step(WordSpec::Dup, s, d, depth) == done(s.push(s.last())),
{
}

/// Stack height that `ws` needs checked word by word from height `h`:
/// constants push one value, `abs` needs one, and the binary words need two
/// and leave one.
pub open spec fn pops_covered(ws: Seq<WordSpec>, h: int) -> bool
    decreases ws.len(),
{
    if ws.len() == 0 {
        true
    } else {
        match ws[0] {
            WordSpec::Const { .. } => pops_covered(ws.drop_first(), h + 1),
            WordSpec::Abs => h >= 1 && pops_covered(ws.drop_first(), h),
            _ => is_binary(ws[0]) && h >= 2 && pops_covered(ws.drop_first(), h - 1),
        }
    }
}

/// Words that push constants and apply unary and binary operators never
/// underflow, as long as no operator takes more values than the constants
/// before it (and the starting stack) provided.
pub proof fn lemma_covered_pops_never_underflow(
    ws: Seq<WordSpec>,
    s: Seq<i32>,
    d: Map<Seq<char>, Seq<WordSpec>>,
    depth: nat,
)
    requires
        pops_covered(ws, s.len() as int),
    ensures
        run_list(ws, s, d, depth).error != Some(EvaluationError::StackUnderflow),
    decreases ws.len(),
{
    if ws.len() > 0 {
        let first = step(ws[0], s, d, depth);
        if first.error is None {
            let h = s.len() as int;
            match ws[0] {
                WordSpec::Const { .. } => {
                    assert(first.stack.len() == h + 1);
                },
                WordSpec::Abs => {
                    assert(first.stack.len() == h);
                },
                _ => {
                    assert(first.stack.len() == h - 1);
                },
            }
            lemma_covered_pops_never_underflow(ws.drop_first(), first.stack, d, depth);
        }
    }
}

/// What running words does besides changing the stack.
#[derive(Clone, Copy, Debug, PartialEq, Eq, Structural)]
pub enum SideEffect {
    /// A value shown by `print`.
    Print(i32),
}

pub open spec fn printed_values(effects: Seq<SideEffect>) -> Seq<i32> {
    effects.map_values(|e: SideEffect| match e {
        SideEffect::Print(v) => v,
    })
}

/// An evaluator that keeps its stack from one expression to the next.
pub struct State {
    stack: Stack,
}

impl View for State {
    type V = Seq<i32>;

    closed spec fn view(&self) -> Seq<i32> {
        self.stack@
    }
}

impl State {
    pub fn new() -> (s: State)
        ensures
            s@ == Seq::<i32>::empty(),
    {
        State { stack: Stack::new() }
    }

    pub fn stack(&self) -> (s: &Stack)
        ensures
            s@ == self@,
    {
        &self.stack
    }

    /// Runs the words of `expr` in order on this state's stack; on success
    /// returns what they printed, in order.
    pub fn evaluate(&mut self, expr: &Vec<Word>, context: &Context) -> (r: Result<
        Vec<SideEffect>,
        EvaluationError,
    >)
        ensures
            final(self)@ == run_list(words_view(expr@), old(self)@, context@, MAX_DEPTH as nat).stack,
            r is Ok <==> run_list(words_view(expr@), old(self)@, context@, MAX_DEPTH as nat).error is None,
            r matches Err(e) ==> run_list(words_view(expr@), old(self)@, context@, MAX_DEPTH as nat).error
                == Some(e),
            r matches Ok(v) ==> printed_values(v@) == run_list(
                words_view(expr@),
                old(self)@,
                context@,
                MAX_DEPTH as nat,
            ).printed,
    {
        let mut printed: Vec<i32> = Vec::new();
        let r = run_words(expr, &mut self.stack, context, &mut printed);
        assert(printed@ =~= Seq::<i32>::empty() + printed@);
        match r {
            Err(e) => Err(e),
            Ok(()) => {
                let mut effects: Vec<SideEffect> = Vec::new();
                let mut i: usize = 0;
                while i < printed.len()
                    invariant
                        i <= printed@.len(),
                        effects@.len() == i,
                        printed_values(effects@) == printed@.subrange(0, i as int),
                    decreases printed@.len() - i,
                {
                    let ghost before = effects@;
                    effects.push(SideEffect::Print(printed[i]));
                    i = i + 1;
                    assert forall|k: int| 0 <= k < i implies #[trigger] printed_values(effects@)[k]
                        == printed@[k] by {
                        if k < i - 1 {
                            assert(effects@[k] == before[k]);
                            assert(printed_values(before)[k] == printed@.subrange(0, i - 1)[k]);
                        }
                    }
                    assert(printed_values(effects@) =~= printed@.subrange(0, i as int));
                }
                assert(printed@.subrange(0, i as int) =~= printed@);
                Ok(effects)
            },
        }
    }
}

} // verus!
