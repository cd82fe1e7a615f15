use vstd::prelude::*;
use vstd::string::*;
use crate::context::Context;
use crate::parser::{chars_of, int_value, parse_int};
use crate::state::{Data, Stack};
use crate::eval::{
    EvaluationError, MAX_DEPTH, abs, after_printing, binary_value, ended_as, is_binary,
    run_list, run_loop, size, step,
};

verus! {

/// An executable word of the language.
pub enum Word {
    // Arithmetic operators
    Add,
    Sub,
    Mul,
    Div,
    Abs,
    // Stack operators
    /// Duplicate the top element of the stack.
    Dup,
    /// Drop the top element of the stack.
    Drop,
    /// Print the top element of the stack without dropping it.
    Print,
    // Branching
    /// Comparison: pops the top `a` and the second `b`, pushes the sign of `b - a`.
    Cmp,
    /// Pops a condition and runs `then` when it is not 0.
    Cond { then: Box<Word> },
    /// Pops a count `n` and runs `body` `n` times, pushing the iteration
    /// number (from 0) before each run.
    Loop { body: Box<Word> },
    // Other
    /// Reference to a compound word of the dictionary, looked up when run.
    Ref { to: String },
    /// Constant
    Const { value: Data },
}

/// The mathematical form of a word: names as character sequences and
/// constants as plain integers.
pub enum WordSpec {
    Add,
    Sub,
    Mul,
    Div,
    Abs,
    Dup,
    Drop,
    Print,
    Cmp,
    Cond { then: Box<WordSpec> },
    Loop { body: Box<WordSpec> },
    Ref { to: Seq<char> },
    Const { value: i32 },
}

pub open spec fn word_view(w: Word) -> WordSpec
    decreases w,
{
    match w {
        Word::Add => WordSpec::Add,
        Word::Sub => WordSpec::Sub,
        Word::Mul => WordSpec::Mul,
        Word::Div => WordSpec::Div,
        Word::Abs => WordSpec::Abs,
        Word::Dup => WordSpec::Dup,
        Word::Drop => WordSpec::Drop,
        Word::Print => WordSpec::Print,
        Word::Cmp => WordSpec::Cmp,
        Word::Cond { then } => WordSpec::Cond { then: Box::new(word_view(*then)) },
        Word::Loop { body } => WordSpec::Loop { body: Box::new(word_view(*body)) },
        Word::Ref { to } => WordSpec::Ref { to: to@ },
        Word::Const { value } => WordSpec::Const { value: value.0 },
    }
}

impl View for Word {
    type V = WordSpec;

    open spec fn view(&self) -> WordSpec {
        word_view(*self)
    }
}

pub open spec fn words_view(ws: Seq<Word>) -> Seq<WordSpec> {
    ws.map_values(|w: Word| w@)
}

pub open spec fn option_view(r: Option<Word>) -> Option<WordSpec> {
    match r {
        Some(w) => Some(w@),
        None => None,
    }
}

/// The built-in word that a name denotes, if any.
pub open spec fn primitive(s: Seq<char>) -> Option<WordSpec> {
    if s == seq!['+'] {
        Some(WordSpec::Add)
    } else if s == seq!['-'] {
        Some(WordSpec::Sub)
    } else if s == seq!['*'] {
        Some(WordSpec::Mul)
    } else if s == seq!['/'] {
        Some(WordSpec::Div)
    } else if s == seq!['a', 'b', 's'] {
        Some(WordSpec::Abs)
    } else if s == seq!['d', 'u', 'p'] {
        Some(WordSpec::Dup)
    } else if s == seq!['d', 'r', 'o', 'p'] {
        Some(WordSpec::Drop)
    } else if s == seq!['p', 'r', 'i', 'n', 't'] {
        Some(WordSpec::Print)
    } else if s == seq!['='] {
        Some(WordSpec::Cmp)
    } else {
        None
    }
}

/// What a token resolves to against the names that the dictionary defines:
/// a trailing `?` or `@` wraps what the rest resolves to, then come the
/// built-in names, the defined names, and integer literals, in that order.
pub open spec fn resolve(s: Seq<char>, defined: Set<Seq<char>>) -> Option<WordSpec>
    decreases s.len(),
{
    if s.len() > 0 && s.last() == '?' {
        match resolve(s.drop_last(), defined) {
            Some(w) => Some(WordSpec::Cond { then: Box::new(w) }),
            None => None,
        }
    } else if s.len() > 0 && s.last() == '@' {
        match resolve(s.drop_last(), defined) {
            Some(w) => Some(WordSpec::Loop { body: Box::new(w) }),
            None => None,
        }
    } else if primitive(s) is Some {
        primitive(s)
    } else if defined.contains(s) {
        Some(WordSpec::Ref { to: s })
    } else {
        match int_value(s) {
            Some(v) => Some(WordSpec::Const { value: v }),
            None => None,
        }
    }
}

/// Every reference inside `w` names a member of `defined`.
pub open spec fn refers_within(w: WordSpec, defined: Set<Seq<char>>) -> bool
    decreases w,
{
    match w {
        WordSpec::Cond { then } => refers_within(*then, defined),
        WordSpec::Loop { body } => refers_within(*body, defined),
        WordSpec::Ref { to } => defined.contains(to),
        _ => true,
    }
}

/// A resolved token refers only to names that were defined when it was
/// resolved: a word cannot refer to itself or to a later definition.
pub proof fn lemma_resolved_refs_defined(s: Seq<char>, defined: Set<Seq<char>>)
    requires
        resolve(s, defined) is Some,
    ensures
        refers_within(resolve(s, defined)->Some_0, defined),
    decreases s.len(),
{
    if s.len() > 0 && (s.last() == '?' || s.last() == '@') {
        lemma_resolved_refs_defined(s.drop_last(), defined);
    }
}

fn primitive_word(cs: &Vec<char>) -> (r: Option<Word>)
    ensures
        option_view(r) == primitive(cs@),
{
    let n = cs.len();
    if n == 1 {
        let c = cs[0];
        assert(cs@ =~= seq![c]);
        if c == '+' {
            Some(Word::Add)
        } else if c == '-' {
            Some(Word::Sub)
        } else if c == '*' {
            Some(Word::Mul)
        } else if c == '/' {
            Some(Word::Div)
        } else if c == '=' {
            Some(Word::Cmp)
        } else {
            None
        }
    } else if n == 3 && cs[0] == 'a' && cs[1] == 'b' && cs[2] == 's' {
        assert(cs@ =~= seq!['a', 'b', 's']);
        Some(Word::Abs)
    } else if n == 3 && cs[0] == 'd' && cs[1] == 'u' && cs[2] == 'p' {
        assert(cs@ =~= seq!['d', 'u', 'p']);
        Some(Word::Dup)
    } else if n == 4 && cs[0] == 'd' && cs[1] == 'r' && cs[2] == 'o' && cs[3] == 'p' {
        assert(cs@ =~= seq!['d', 'r', 'o', 'p']);
        Some(Word::Drop)
    } else if n == 5 && cs[0] == 'p' && cs[1] == 'r' && cs[2] == 'i' && cs[3] == 'n' && cs[4]
        == 't' {
        assert(cs@ =~= seq!['p', 'r', 'i', 'n', 't']);
        Some(Word::Print)
    } else {
        None
    }
}

impl Word {
    /// Resolves one token against the dictionary; `None` when it names
    /// nothing executable.
    pub fn try_parse(input: &str, context: &Context) -> (r: Option<Word>)
        ensures
            option_view(r) == resolve(input@, context@.dom()),
        decreases input@.len(),
    {
        let n = input.unicode_len();
        if n > 0 {
            let last = input.get_char(n - 1);
            if last == '?' || last == '@' {
                let inner = input.substring_char(0, n - 1);
                assert(inner@ =~= input@.drop_last());
                return match Word::try_parse(inner, context) {
                    Some(w) => {
                        if last == '?' {
                            Some(Word::Cond { then: Box::new(w) })
                        } else {
                            Some(Word::Loop { body: Box::new(w) })
                        }
                    },
                    None => None,
                };
            }
        }
        let cs = chars_of(input);
        let p = primitive_word(&cs);
        if p.is_some() {
            return p;
        }
        if context.get(input).is_some() {
            return Some(Word::Ref { to: input.to_owned() });
        }
        assert(cs@.subrange(0, n as int) =~= input@);
        match parse_int(&cs, 0, n) {
            Some(v) => Some(Word::Const { value: Data::new(v) }),
            None => None,
        }
    }
}

fn abs_data(x: Data) -> (y: Data)
    requires
        x.0 != i32::MIN,
    ensures
        y.0 == abs(x.0 as int),
{
    if x.0 < 0 {
        Data(-x.0)
    } else {
        x
    }
}

/// The value a binary word computes from the top `a` and the second `b`.
fn binary_exec(w: &Word, a: i32, b: i32) -> (r: Result<i32, EvaluationError>)
    requires
        is_binary(w@),
    ensures
        r == binary_value(w@, a, b),
{
    match w {
        Word::Add => match b.checked_add(a) {
            Some(v) => Ok(v),
            None => Err(EvaluationError::Overflow),
        },
        Word::Sub => match b.checked_sub(a) {
            Some(v) => Ok(v),
            None => Err(EvaluationError::Overflow),
        },
        Word::Mul => match b.checked_mul(a) {
            Some(v) => Ok(v),
            None => Err(EvaluationError::Overflow),
        },
        Word::Div => if a == 0 {
            Err(EvaluationError::DivideByZero)
        } else {
            match b.checked_div(a) {
                Some(v) => Ok(v),
                None => Err(EvaluationError::Overflow),
            }
        },
        _ => if b > a {
            Ok(1)
        } else if b < a {
            Ok(-1)
        } else {
            Ok(0)
        },
    }
}

impl Word {
    /// Runs this word on `stack`, appending the values it prints to
    /// `printed`.
    pub fn execute(&self, stack: &mut Stack, context: &Context, printed: &mut Vec<i32>) -> (r:
        Result<(), EvaluationError>)
        ensures
            ended_as(
                step(self@, old(stack)@, context@, MAX_DEPTH as nat),
                final(stack)@,
                old(printed)@,
                final(printed)@,
                r,
            ),
    {
        self.execute_within(stack, context, printed, MAX_DEPTH)
    }

    fn execute_within(
        &self,
        stack: &mut Stack,
        context: &Context,
        printed: &mut Vec<i32>,
        depth: usize,
    ) -> (r: Result<(), EvaluationError>)
        ensures
            ended_as(
                step(self@, old(stack)@, context@, depth as nat),
                final(stack)@,
                old(printed)@,
                final(printed)@,
                r,
            ),
        decreases depth, 2 * size(self@),
    {
        let ghost s = stack@;
        assert(old(printed)@ + Seq::<i32>::empty() =~= old(printed)@);
        match self {
            Word::Const { value } => {
                stack.push(*value);
                Ok(())
            },
            Word::Dup => {
                if stack.dup() {
                    Ok(())
                } else {
                    Err(EvaluationError::StackUnderflow)
                }
            },
            Word::Drop => match stack.pop() {
                Some(_) => Ok(()),
                None => Err(EvaluationError::StackUnderflow),
            },
            Word::Print => {
                let v = match stack.peek() {
                    Some(d) => d.value(),
                    None => {
                        return Err(EvaluationError::StackUnderflow);
                    },
                };
                printed.push(v);
                Ok(())
            },
            Word::Abs => {
                let a = match stack.peek() {
                    Some(d) => d.value(),
                    None => {
                        return Err(EvaluationError::StackUnderflow);
                    },
                };
                if a == i32::MIN {
                    return Err(EvaluationError::Overflow);
                }
                let _ = stack.op1(abs_data);
                Ok(())
            },
            Word::Cond { then } => {
                let c = match stack.pop() {
                    Some(c) => c.value(),
                    None => {
                        return Err(EvaluationError::StackUnderflow);
                    },
                };
                if c != 0 {
                    then.execute_within(stack, context, printed, depth)
                } else {
                    Ok(())
                }
            },
            Word::Loop { body } => {
                let n = match stack.pop() {
                    Some(c) => c.value(),
                    None => {
                        return Err(EvaluationError::StackUnderflow);
                    },
                };
                let ghost s0 = stack@;
                let ghost b = (**body)@;
                let ghost mut acc: Seq<i32> = Seq::empty();
                let mut i: i32 = 0;
                assert(after_printing(acc, run_loop(b, 0, n as int, s0, context@, depth as nat)).printed
                    =~= run_loop(b, 0, n as int, s0, context@, depth as nat).printed);
                while i < n
                    invariant
                        0 <= i,
                        n >= 0 ==> i <= n,
                        n < 0 ==> i == 0,
                        b == (**body)@,
                        size(self@) == 1 + size(b),
                        step(self@, old(stack)@, context@, depth as nat) == run_loop(
                            b,
                            0,
                            n as int,
                            s0,
                            context@,
                            depth as nat,
                        ),
                        printed@ == old(printed)@ + acc,
                        run_loop(b, 0, n as int, s0, context@, depth as nat) == after_printing(
                            acc,
                            run_loop(b, i as int, n as int, stack@, context@, depth as nat),
                        ),
                    decreases n - i,
                {
                    let ghost si = stack@;
                    let ghost pi = printed@;
                    stack.push(Data::new(i));
                    let r = body.execute_within(stack, context, printed, depth);
                    let ghost first = step(b, si.push(i), context@, depth as nat);
                    assert(stack@ == first.stack);
                    if r.is_err() {
                        assert(run_loop(b, i as int, n as int, si, context@, depth as nat) == first);
                        assert(printed@ =~= old(printed)@ + (acc + first.printed));
                        return r;
                    }
                    proof {
                        let rest = run_loop(b, i + 1, n as int, stack@, context@, depth as nat);
                        assert(acc + (first.printed + rest.printed) =~= (acc + first.printed)
                            + rest.printed);
                        assert(printed@ =~= old(printed)@ + (acc + first.printed));
                        acc = acc + first.printed;
                    }
                    i = i + 1;
                }
                assert(printed@ =~= old(printed)@ + acc + Seq::<i32>::empty());
                Ok(())
            },
            Word::Ref { to } => {
                let ws = match context.get(to.as_str()) {
                    Some(ws) => ws,
                    None => {
                        return Err(EvaluationError::UndefinedWord);
                    },
                };
                if depth == 0 {
                    return Err(EvaluationError::RecursionLimit);
                }
                run_words_within(ws, stack, context, printed, depth - 1)
            },
            _ => {
                if stack.len() < 2 {
                    return Err(EvaluationError::StackUnderflow);
                }
                let a = match stack.pop() {
                    Some(a) => a,
                    None => {
                        return Err(EvaluationError::StackUnderflow);
                    },
                };
                let b = match stack.pop() {
                    Some(b) => b,
                    None => {
                        return Err(EvaluationError::StackUnderflow);
                    },
                };
                match binary_exec(self, a.value(), b.value()) {
                    Ok(v) => {
                        stack.push(Data::new(v));
                        Ok(())
                    },
                    Err(e) => {
                        stack.push(b);
                        stack.push(a);
                        assert(stack@ =~= s);
                        Err(e)
                    },
                }
            },
        }
    }
}

fn run_words_within(
    words: &Vec<Word>,
    stack: &mut Stack,
    context: &Context,
    printed: &mut Vec<i32>,
    depth: usize,
) -> (r: Result<(), EvaluationError>)
    ensures
        ended_as(
            run_list(words_view(words@), old(stack)@, context@, depth as nat),
            final(stack)@,
            old(printed)@,
            final(printed)@,
            r,
        ),
    decreases depth + 1, 0int,
{
    let ghost ws = words_view(words@);
    let ghost s0 = stack@;
    let ghost mut acc: Seq<i32> = Seq::empty();
    let mut k: usize = 0;
    assert(ws.subrange(0, ws.len() as int) =~= ws);
    assert(old(printed)@ + acc =~= old(printed)@);
    assert(after_printing(acc, run_list(ws, s0, context@, depth as nat)).printed =~= run_list(
        ws,
        s0,
        context@,
        depth as nat,
    ).printed);
    while k < words.len()
        invariant
            k <= words@.len(),
            ws == words_view(words@),
            s0 == old(stack)@,
            printed@ == old(printed)@ + acc,
            run_list(ws, s0, context@, depth as nat) == after_printing(
                acc,
                run_list(ws.subrange(k as int, ws.len() as int), stack@, context@, depth as nat),
            ),
        decreases words@.len() - k,
    {
        let ghost sk = stack@;
        let ghost rest = ws.subrange(k as int, ws.len() as int);
        assert(rest[0] == words@[k as int]@);
        assert(rest.drop_first() =~= ws.subrange(k + 1, ws.len() as int));
        let r = words[k].execute_within(stack, context, printed, depth);
        let ghost first = step(rest[0], sk, context@, depth as nat);
        if r.is_err() {
            assert(run_list(rest, sk, context@, depth as nat) == first);
            assert(printed@ =~= old(printed)@ + (acc + first.printed));
            return r;
        }
        proof {
            let tail = run_list(rest.drop_first(), stack@, context@, depth as nat);
            assert(acc + (first.printed + tail.printed) =~= (acc + first.printed) + tail.printed);
            assert(printed@ =~= old(printed)@ + (acc + first.printed));
            acc = acc + first.printed;
        }
        k = k + 1;
    }
    assert(ws.subrange(k as int, ws.len() as int) =~= Seq::<WordSpec>::empty());
    assert(printed@ =~= old(printed)@ + acc + Seq::<i32>::empty());
    Ok(())
}

/// Runs `words` in order on `stack`, appending the values they print to
/// `printed`; the first failure stops the run.
pub fn run_words(words: &Vec<Word>, stack: &mut Stack, context: &Context, printed: &mut Vec<i32>) -> (r:
    Result<(), EvaluationError>)
    ensures
        ended_as(
            run_list(words_view(words@), old(stack)@, context@, MAX_DEPTH as nat),
            final(stack)@,
            old(printed)@,
            final(printed)@,
            r,
        ),
{
    run_words_within(words, stack, context, printed, MAX_DEPTH)
}

} // verus!
