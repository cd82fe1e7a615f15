use vstd::prelude::*;
use vstd::string::*;
use crate::context::Context;
use crate::eval::{EvaluationError, MAX_DEPTH, run_list};
use crate::parser::{
    chars_of, identifier, int_value, is_digit, is_ident_text, is_int_shaped, is_int_text,
    is_letter, magnitude_text, split_tokens, split_ws, strings_view,
};
use crate::state::Stack;
use crate::word::{Word, WordSpec, primitive, resolve, run_words, words_view};

verus! {

/// Why a line was rejected before anything ran.
#[derive(Clone, Copy, Debug, PartialEq, Eq, Structural)]
pub enum LineError {
    /// The line holds no token.
    EmptyLine,
    /// A definition without a valid name or without a body.
    MalformedDefinition,
    /// A token is not a built-in name, a defined name or an integer literal.
    UnresolvedToken,
    /// A token has the shape of an integer literal whose value does not fit
    /// in 32 bits.
    IntegerOverflow,
}

/// What an accepted line did.
pub enum Outcome {
    /// A compound word was defined under this name.
    Defined(String),
    /// An expression ran from an empty stack: the values it printed, the
    /// stack it left, and the failure that stopped it, if any.
    Evaluated { printed: Vec<i32>, stack: Stack, error: Option<EvaluationError> },
}

pub open spec fn all_resolve(ts: Seq<Seq<char>>, defined: Set<Seq<char>>) -> bool {
    forall|i: int| 0 <= i < ts.len() ==> resolve(#[trigger] ts[i], defined) is Some
}

/// The words that the tokens `ts` resolve to, when they all do.
pub open spec fn resolve_all(ts: Seq<Seq<char>>, defined: Set<Seq<char>>) -> Seq<WordSpec> {
    ts.map_values(|t: Seq<char>| resolve(t, defined)->Some_0)
}

/// A token without its trailing `?` and `@` modifiers.
pub open spec fn strip_modifiers(s: Seq<char>) -> Seq<char>
    decreases s.len(),
{
    if s.len() > 0 && (s.last() == '?' || s.last() == '@') {
        strip_modifiers(s.drop_last())
    } else {
        s
    }
}

/// Why a token that resolves to nothing is rejected: a literal too large
/// for 32 bits, or a name that means nothing.
pub open spec fn token_error(t: Seq<char>) -> LineError {
    if is_int_text(strip_modifiers(t)) {
        LineError::IntegerOverflow
    } else {
        LineError::UnresolvedToken
    }
}

/// The error for the first token of `ts` that resolves to nothing.
pub open spec fn resolve_error(ts: Seq<Seq<char>>, defined: Set<Seq<char>>) -> LineError
    decreases ts.len(),
{
    if ts.len() == 0 {
        LineError::UnresolvedToken
    } else if resolve(ts[0], defined) is None {
        token_error(ts[0])
    } else {
        resolve_error(ts.drop_first(), defined)
    }
}

/// The error for a token that resolves to nothing, as `token_error` says.
fn classify_failure(token: &str) -> (e: LineError)
    ensures
        e == token_error(token@),
{
    let cs = chars_of(token);
    let mut k = cs.len();
    assert(cs@.subrange(0, k as int) =~= token@);
    while k > 0 && (cs[k - 1] == '?' || cs[k - 1] == '@')
        invariant
            k <= cs@.len(),
            cs@ == token@,
            strip_modifiers(cs@.subrange(0, k as int)) == strip_modifiers(token@),
        decreases k,
    {
        assert(cs@.subrange(0, k as int).drop_last() =~= cs@.subrange(0, k - 1));
        k = k - 1;
    }
    if is_int_shaped(&cs, 0, k) {
        LineError::IntegerOverflow
    } else {
        LineError::UnresolvedToken
    }
}

/// A line whose first chunk starts with `:` defines a word.
pub open spec fn is_definition(chunks: Seq<Seq<char>>) -> bool {
    chunks.len() > 0 && chunks[0].len() > 0 && chunks[0][0] == ':'
}

/// The name is either the rest of the first chunk or, when that chunk is `:`
/// alone, the second chunk.
pub open spec fn name_in_first(chunks: Seq<Seq<char>>) -> bool {
    chunks[0].len() > 1
}

pub open spec fn definition_has_name(chunks: Seq<Seq<char>>) -> bool {
    name_in_first(chunks) || chunks.len() > 1
}

pub open spec fn definition_name(chunks: Seq<Seq<char>>) -> Seq<char> {
    if name_in_first(chunks) {
        chunks[0].drop_first()
    } else {
        chunks[1]
    }
}

pub open spec fn definition_body(chunks: Seq<Seq<char>>) -> Seq<Seq<char>> {
    if name_in_first(chunks) {
        chunks.drop_first()
    } else {
        chunks.subrange(2, chunks.len() as int)
    }
}

/// A definition line names an identifier and has a body of one token or more.
pub open spec fn definition_well_formed(chunks: Seq<Seq<char>>) -> bool {
    definition_has_name(chunks) && is_ident_text(definition_name(chunks)) && definition_body(
        chunks,
    ).len() > 0
}

/// A token that resolves keeps resolving to the same word once another
/// identifier is defined.
proof fn lemma_resolve_ignores_new_name(t: Seq<char>, d: Set<Seq<char>>, n: Seq<char>)
    requires
        is_ident_text(n),
        resolve(t, d) is Some,
    ensures
        resolve(t, d.insert(n)) == resolve(t, d),
    decreases t.len(),
{
    if t.len() > 0 && (t.last() == '?' || t.last() == '@') {
        lemma_resolve_ignores_new_name(t.drop_last(), d, n);
    } else if primitive(t) is Some {
    } else if d.contains(t) {
    } else {
        assert(int_value(t) is Some);
        assert(is_int_text(t));
        let m = magnitude_text(t);
        assert(is_digit(m[0]));
        if t == n {
            assert(is_letter(n[0]));
            if t[0] != '-' {
                assert(m == t);
            }
        }
    }
}

/// Defining a word a second time with the same line leaves the dictionary
/// exactly as the first definition left it, so every later line runs the
/// same way.
pub proof fn lemma_redefinition_idempotent(c: Map<Seq<char>, Seq<WordSpec>>, chunks: Seq<Seq<char>>)
    requires
        is_definition(chunks),
        definition_well_formed(chunks),
        all_resolve(definition_body(chunks), c.dom()),
    ensures
        ({
            let n = definition_name(chunks);
            let b = definition_body(chunks);
            let c1 = c.insert(n, resolve_all(b, c.dom()));
            &&& all_resolve(b, c1.dom())
            &&& c1.insert(n, resolve_all(b, c1.dom())) == c1
        }),
{
    let n = definition_name(chunks);
    let b = definition_body(chunks);
    let c1 = c.insert(n, resolve_all(b, c.dom()));
    assert(c1.dom() =~= c.dom().insert(n));
    assert forall|i: int| 0 <= i < b.len() implies resolve(#[trigger] b[i], c1.dom()) == resolve(
        b[i],
        c.dom(),
    ) by {
        lemma_resolve_ignores_new_name(b[i], c.dom(), n);
    }
    assert(resolve_all(b, c1.dom()) =~= resolve_all(b, c.dom()));
    assert(c1.insert(n, resolve_all(b, c1.dom())) =~= c1);
}

/// Resolves every token against the dictionary; fails on the first token
/// that resolves to nothing.
pub fn tokens_to_words(tokens: &Vec<String>, context: &Context) -> (r: Result<Vec<Word>, LineError>)
    ensures
        r is Ok <==> all_resolve(strings_view(tokens@), context@.dom()),
        r matches Ok(ws) ==> words_view(ws@) == resolve_all(strings_view(tokens@), context@.dom()),
        r matches Err(e) ==> e == resolve_error(strings_view(tokens@), context@.dom()),
{
    let ghost ts = strings_view(tokens@);
    let ghost d = context@.dom();
    let mut out: Vec<Word> = Vec::new();
    assert(ts.subrange(0, ts.len() as int) =~= ts);
    let mut i: usize = 0;
    while i < tokens.len()
        invariant
            i <= tokens@.len(),
            ts == strings_view(tokens@),
            d == context@.dom(),
            out@.len() == i,
            forall|k: int| 0 <= k < i ==> resolve(#[trigger] ts[k], d) is Some,
            forall|k: int| 0 <= k < i ==> Some(#[trigger] out@[k]@) == resolve(ts[k], d),
            resolve_error(ts, d) == resolve_error(ts.subrange(i as int, ts.len() as int), d),
        decreases tokens@.len() - i,
    {
        assert(ts[i as int] == tokens@[i as int]@);
        let ghost rest = ts.subrange(i as int, ts.len() as int);
        assert(rest[0] == ts[i as int]);
        assert(rest.drop_first() =~= ts.subrange(i + 1, ts.len() as int));
        match Word::try_parse(tokens[i].as_str(), context) {
            Some(w) => {
                out.push(w);
            },
            None => {
                return Err(classify_failure(tokens[i].as_str()));
            },
        }
        i = i + 1;
    }
    assert(words_view(out@) =~= resolve_all(ts, d));
    Ok(out)
}

/// Handles one line: a definition (`:name tokens...` or `: name tokens...`)
/// resolves its body against the dictionary as it stands and then stores
/// it; any other line is resolved as a whole and run on an empty stack.
pub fn process_line(line: &str, context: &mut Context) -> (r: Result<Outcome, LineError>)
    ensures
        ({
            let chunks = split_ws(line@);
            let d = old(context)@.dom();
            &&& chunks.len() == 0 ==> r == Err::<Outcome, LineError>(LineError::EmptyLine)
            &&& is_definition(chunks) && !definition_well_formed(chunks) ==> r == Err::<
                Outcome,
                LineError,
            >(LineError::MalformedDefinition)
            &&& is_definition(chunks) && definition_well_formed(chunks) && !all_resolve(
                definition_body(chunks),
                d,
            ) ==> r == Err::<Outcome, LineError>(resolve_error(definition_body(chunks), d))
            &&& !is_definition(chunks) && chunks.len() > 0 && !all_resolve(chunks, d) ==> r == Err::<
                Outcome,
                LineError,
            >(resolve_error(chunks, d))
            &&& r is Err ==> final(context)@ == old(context)@
            &&& is_definition(chunks) && definition_well_formed(chunks) && all_resolve(
                definition_body(chunks),
                d,
            ) ==> (r matches Ok(Outcome::Defined(name)) && name@ == definition_name(chunks)
                && final(context)@ == old(context)@.insert(
                definition_name(chunks),
                resolve_all(definition_body(chunks), d),
            ))
            &&& !is_definition(chunks) && chunks.len() > 0 && all_resolve(chunks, d) ==> ({
                let run = run_list(resolve_all(chunks, d), Seq::empty(), old(context)@, MAX_DEPTH as nat);
                &&& final(context)@ == old(context)@
                &&& r matches Ok(Outcome::Evaluated { printed, stack, error })
                &&& printed@ == run.printed
                &&& stack@ == run.stack
                &&& error == run.error
            })
        }),
{
    let mut pieces = split_tokens(line);
    let ghost chunks = split_ws(line@);
    if pieces.len() == 0 {
        return Err(LineError::EmptyLine);
    }
    let first = pieces[0].as_str();
    let first_len = first.unicode_len();
    assert(chunks[0] == pieces@[0]@);
    if first_len > 0 && first.get_char(0) == ':' {
        let name: String;
        let body: Vec<String>;
        if first_len > 1 {
            name = first.substring_char(1, first_len).to_owned();
            assert(name@ =~= chunks[0].drop_first());
            body = pieces.split_off(1);
            assert(strings_view(body@) =~= definition_body(chunks));
        } else {
            if pieces.len() < 2 {
                return Err(LineError::MalformedDefinition);
            }
            name = pieces[1].clone();
            body = pieces.split_off(2);
            assert(strings_view(body@) =~= definition_body(chunks));
        }
        if identifier(name.as_str()).is_err() || body.len() == 0 {
            return Err(LineError::MalformedDefinition);
        }
        match tokens_to_words(&body, context) {
            Ok(words) => {
                let shown = name.clone();
                context.insert(name, words);
                Ok(Outcome::Defined(shown))
            },
            Err(e) => Err(e),
        }
    } else {
        match tokens_to_words(&pieces, context) {
            Ok(words) => {
                let mut stack = Stack::new();
                let mut printed: Vec<i32> = Vec::new();
                let result = run_words(&words, &mut stack, context, &mut printed);
                assert(printed@ =~= Seq::<i32>::empty() + printed@);
                let error = match result {
                    Ok(()) => None,
                    Err(e) => Some(e),
                };
                Ok(Outcome::Evaluated { printed, stack, error })
            },
            Err(e) => Err(e),
        }
    }
}

} // verus!
