use vstd::prelude::*;
use vstd::string::*;

verus! {

pub open spec fn is_digit(c: char) -> bool {
    '0' <= c && c <= '9'
}

pub open spec fn digit_value(c: char) -> int {
    c as int - '0' as int
}

/// The value of a run of decimal digits, most significant first.
pub open spec fn digits_value(d: Seq<char>) -> int
    decreases d.len(),
{
    if d.len() == 0 {
        0
    } else {
        10 * digits_value(d.drop_last()) + digit_value(d.last())
    }
}

pub open spec fn all_digits(d: Seq<char>) -> bool {
    forall|i: int| 0 <= i < d.len() ==> is_digit(#[trigger] d[i])
}

pub open spec fn has_minus(s: Seq<char>) -> bool {
    s.len() > 0 && s[0] == '-'
}

/// The digits of an integer literal: the text without its leading `-`.
pub open spec fn magnitude_text(s: Seq<char>) -> Seq<char> {
    if has_minus(s) {
        s.drop_first()
    } else {
        s
    }
}

/// Integer-literal shape: an optional `-` and one or more decimal digits.
pub open spec fn is_int_text(s: Seq<char>) -> bool {
    magnitude_text(s).len() > 0 && all_digits(magnitude_text(s))
}

pub open spec fn int_text_value(s: Seq<char>) -> int {
    if has_minus(s) {
        -digits_value(magnitude_text(s))
    } else {
        digits_value(magnitude_text(s))
    }
}

/// The 32-bit value of an integer literal; `None` when the text is not one
/// or when its value does not fit.
pub open spec fn int_value(s: Seq<char>) -> Option<i32> {
    if is_int_text(s) && i32::MIN <= int_text_value(s) <= i32::MAX {
        Some(int_text_value(s) as i32)
    } else {
        None
    }
}

proof fn lemma_digits_nonneg(d: Seq<char>)
    requires
        all_digits(d),
    ensures
        digits_value(d) >= 0,
    decreases d.len(),
{
    if d.len() > 0 {
        lemma_digits_nonneg(d.drop_last());
        assert(is_digit(d[d.len() - 1]));
    }
}

/// Appending digits never makes a value smaller.
proof fn lemma_digits_prefix(d: Seq<char>, k: int)
    requires
        all_digits(d),
        0 <= k <= d.len(),
    ensures
        digits_value(d.subrange(0, k)) <= digits_value(d),
    decreases d.len(),
{
    if k == d.len() {
        assert(d.subrange(0, k) =~= d);
    } else {
        let p = d.drop_last();
        lemma_digits_prefix(p, k);
        assert(p.subrange(0, k) =~= d.subrange(0, k));
        lemma_digits_nonneg(p);
        assert(is_digit(d[d.len() - 1]));
    }
}

/// Copies the characters of a string into a vector.
pub fn chars_of(s: &str) -> (v: Vec<char>)
    ensures
        v@ == s@,
{
    let n = s.unicode_len();
    let mut v: Vec<char> = Vec::new();
    let mut i: usize = 0;
    while i < n
        invariant
            n == s@.len(),
            i <= n,
            v@ == s@.subrange(0, i as int),
        decreases n - i,
    {
        v.push(s.get_char(i));
        i = i + 1;
    }
    assert(v@ =~= s@);
    v
}

/// Whether `cs[lo..hi]` has the shape of an integer literal, whatever its value.
pub fn is_int_shaped(cs: &Vec<char>, lo: usize, hi: usize) -> (r: bool)
    requires
        lo <= hi <= cs@.len(),
    ensures
        r == is_int_text(cs@.subrange(lo as int, hi as int)),
{
    let ghost s = cs@.subrange(lo as int, hi as int);
    let start: usize = if lo < hi && cs[lo] == '-' {
        lo + 1
    } else {
        lo
    };
    let ghost d = magnitude_text(s);
    assert(d =~= cs@.subrange(start as int, hi as int));
    if start == hi {
        return false;
    }
    let mut k: usize = start;
    while k < hi
        invariant
            start <= k <= hi <= cs@.len(),
            d == cs@.subrange(start as int, hi as int),
            s == cs@.subrange(lo as int, hi as int),
            d == magnitude_text(s),
            forall|i: int| 0 <= i < k - start ==> is_digit(#[trigger] d[i]),
        decreases hi - k,
    {
        let c = cs[k];
        if !('0' <= c && c <= '9') {
            assert(d[k - start] == c);
            assert(!all_digits(d));
            return false;
        }
        k = k + 1;
    }
    true
}

/// Reads the integer literal `cs[lo..hi]`, as `int_value` describes.
pub fn parse_int(cs: &Vec<char>, lo: usize, hi: usize) -> (r: Option<i32>)
    requires
        lo <= hi <= cs@.len(),
    ensures
        r == int_value(cs@.subrange(lo as int, hi as int)),
{
    let ghost s = cs@.subrange(lo as int, hi as int);
    let neg = lo < hi && cs[lo] == '-';
    let start: usize = if neg {
        lo + 1
    } else {
        lo
    };
    let ghost d = magnitude_text(s);
    assert(d =~= cs@.subrange(start as int, hi as int));
    if start == hi {
        return None;
    }
    let mut acc: i64 = 0;
    let mut k: usize = start;
    while k < hi
        invariant
            start <= k <= hi <= cs@.len(),
            d == cs@.subrange(start as int, hi as int),
            s == cs@.subrange(lo as int, hi as int),
            d == magnitude_text(s),
            neg == has_minus(s),
            all_digits(d.subrange(0, k - start)),
            acc == digits_value(d.subrange(0, k - start)),
            0 <= acc <= 2147483648,
        decreases hi - k,
    {
        let c = cs[k];
        if !('0' <= c && c <= '9') {
            assert(d[k - start] == c);
            assert(!all_digits(d));
            assert(!is_int_text(s));
            return None;
        }
        let ghost before = d.subrange(0, k - start);
        let ghost after = d.subrange(0, k - start + 1);
        assert(after.drop_last() =~= before);
        assert(after.last() == c);
        acc = acc * 10 + (c as i64 - '0' as i64);
        k = k + 1;
        assert(all_digits(d.subrange(0, k - start))) by {
            assert forall|i: int| 0 <= i < k - start implies is_digit(
                #[trigger] d.subrange(0, k - start)[i],
            ) by {
                if i < k - start - 1 {
                    assert(d.subrange(0, k - start)[i] == before[i]);
                }
            }
        }
        if acc > 2147483648 {
            proof {
                if is_int_text(s) {
                    lemma_digits_prefix(d, k - start);
                    assert(digits_value(d) > 2147483648);
                }
            }
            return None;
        }
    }
    assert(d.subrange(0, k - start) =~= d);
    if neg {
        let v = -acc;
        if v < -2147483648 {
            None
        } else {
            Some(v as i32)
        }
    } else {
        if acc > 2147483647 {
            None
        } else {
            Some(acc as i32)
        }
    }
}

/// A token of a line, as the lexer classifies it.
#[derive(Clone, Debug, PartialEq)]
pub enum Word {
    Int(i32),
    Ident(String),
    Op(String),
}

/// A line of tokens.
pub type Expression = Vec<Word>;

pub open spec fn is_space(c: char) -> bool {
    c == ' ' || c == '\t' || c == '\n' || c == '\r'
}

pub open spec fn is_letter(c: char) -> bool {
    ('a' <= c && c <= 'z') || ('A' <= c && c <= 'Z')
}

pub open spec fn is_ident_char(c: char) -> bool {
    is_letter(c) || is_digit(c) || c == '-' || c == '_'
}

/// Identifier shape: a letter, then letters, digits, `-` or `_`, then at most
/// one `?` at the end.
pub open spec fn is_ident_text(s: Seq<char>) -> bool {
    &&& s.len() > 0
    &&& is_letter(s[0])
    &&& forall|i: int|
        1 <= i < s.len() ==> is_ident_char(#[trigger] s[i]) || (i == s.len() - 1 && s[i] == '?')
}

pub open spec fn is_op_char(c: char) -> bool {
    c == '-' || c == '+' || c == '/' || c == '*' || c == '=' || c == '|' || c == '&' || c == '<'
        || c == '>'
}

/// Operator shape: one or more operator symbols.
pub open spec fn is_op_text(s: Seq<char>) -> bool {
    s.len() > 0 && forall|i: int| 0 <= i < s.len() ==> is_op_char(#[trigger] s[i])
}

/// A whole token is well formed: an integer literal that fits in 32 bits, an
/// identifier or an operator.
pub open spec fn is_token(s: Seq<char>) -> bool {
    int_value(s) is Some || is_ident_text(s) || is_op_text(s)
}

/// `t` is what the text `s` classifies as: an integer literal first, then an
/// identifier, then an operator.
pub open spec fn classifies_as(s: Seq<char>, t: Word) -> bool {
    match t {
        Word::Int(v) => int_value(s) == Some(v),
        Word::Ident(n) => int_value(s) is None && is_ident_text(s) && n@ == s,
        Word::Op(o) => int_value(s) is None && !is_ident_text(s) && is_op_text(s) && o@ == s,
    }
}

/// The chunks of `s[i..]` between whitespace, `cur` being the chunk read so far.
pub open spec fn split_from(s: Seq<char>, i: int, cur: Seq<char>) -> Seq<Seq<char>>
    decreases s.len() - i,
{
    if i >= s.len() {
        if cur.len() > 0 {
            seq![cur]
        } else {
            Seq::empty()
        }
    } else if is_space(s[i]) {
        (if cur.len() > 0 {
            seq![cur]
        } else {
            Seq::empty()
        }) + split_from(s, i + 1, Seq::empty())
    } else {
        split_from(s, i + 1, cur.push(s[i]))
    }
}

/// The maximal runs of non-whitespace characters of `s`, in order.
pub open spec fn split_ws(s: Seq<char>) -> Seq<Seq<char>> {
    split_from(s, 0, Seq::empty())
}

pub open spec fn strings_view(v: Seq<String>) -> Seq<Seq<char>> {
    v.map_values(|x: String| x@)
}

/// An integer literal that makes up the whole of `input`.
pub fn integer(input: &str) -> (r: Result<Word, ()>)
    ensures
        r == match int_value(input@) {
            Some(v) => Ok::<Word, ()>(Word::Int(v)),
            None => Err(()),
        },
{
    let cs = chars_of(input);
    let n = cs.len();
    assert(cs@.subrange(0, n as int) =~= input@);
    match parse_int(&cs, 0, n) {
        Some(v) => Ok(Word::Int(v)),
        None => Err(()),
    }
}

/// An identifier that makes up the whole of `input`.
pub fn identifier(input: &str) -> (r: Result<Word, ()>)
    ensures
        r is Ok <==> is_ident_text(input@),
        r matches Ok(w) ==> (w matches Word::Ident(name) && name@ == input@),
{
    let cs = chars_of(input);
    let n = cs.len();
    if n == 0 {
        return Err(());
    }
    let c0 = cs[0];
    if !(('a' <= c0 && c0 <= 'z') || ('A' <= c0 && c0 <= 'Z')) {
        return Err(());
    }
    let mut i: usize = 1;
    while i < n
        invariant
            1 <= i <= n,
            n == cs@.len(),
            cs@ == input@,
            forall|k: int|
                1 <= k < i ==> is_ident_char(#[trigger] cs@[k]) || (k == n - 1 && cs@[k] == '?'),
        decreases n - i,
    {
        let c = cs[i];
        let ok = ('a' <= c && c <= 'z') || ('A' <= c && c <= 'Z') || ('0' <= c && c <= '9') || c
            == '-' || c == '_' || (c == '?' && i == n - 1);
        if !ok {
            return Err(());
        }
        i = i + 1;
    }
    Ok(Word::Ident(input.to_owned()))
}

/// An operator that makes up the whole of `input`.
pub fn operator(input: &str) -> (r: Result<Word, ()>)
    ensures
        r is Ok <==> is_op_text(input@),
        r matches Ok(w) ==> (w matches Word::Op(o) && o@ == input@),
{
    let cs = chars_of(input);
    let n = cs.len();
    if n == 0 {
        return Err(());
    }
    let mut i: usize = 0;
    while i < n
        invariant
            i <= n,
            n == cs@.len(),
            cs@ == input@,
            forall|k: int| 0 <= k < i ==> is_op_char(#[trigger] cs@[k]),
        decreases n - i,
    {
        let c = cs[i];
        let ok = c == '-' || c == '+' || c == '/' || c == '*' || c == '=' || c == '|' || c == '&'
            || c == '<' || c == '>';
        if !ok {
            return Err(());
        }
        i = i + 1;
    }
    Ok(Word::Op(input.to_owned()))
}

/// Classifies a whole token.
pub fn word(input: &str) -> (r: Result<Word, ()>)
    ensures
        r is Ok <==> is_token(input@),
        r matches Ok(t) ==> classifies_as(input@, t),
{
    if let Ok(w) = integer(input) {
        return Ok(w);
    }
    if let Ok(w) = identifier(input) {
        return Ok(w);
    }
    operator(input)
}

/// A line is well formed when it has at least one chunk and every chunk is a
/// whole token.
pub open spec fn is_expression(s: Seq<char>) -> bool {
    split_ws(s).len() > 0 && forall|i: int| 0 <= i < split_ws(s).len() ==> is_token(#[trigger] split_ws(s)[i])
}

/// `v` holds, in order, what each chunk of `s` classifies as.
pub open spec fn lexes_as(s: Seq<char>, v: Seq<Word>) -> bool {
    v.len() == split_ws(s).len() && forall|i: int|
        0 <= i < v.len() ==> classifies_as(#[trigger] split_ws(s)[i], v[i])
}

/// Lexes a whole line: whitespace-separated tokens, with surrounding
/// whitespace ignored. Fails unless every chunk is a whole token.
pub fn expression(input: &str) -> (r: Result<Vec<Word>, ()>)
    ensures
        r is Ok <==> is_expression(input@),
        r matches Ok(v) ==> lexes_as(input@, v@),
{
    let pieces = split_tokens(input);
    let ghost chunks = split_ws(input@);
    if pieces.len() == 0 {
        return Err(());
    }
    let mut out: Vec<Word> = Vec::new();
    let mut i: usize = 0;
    while i < pieces.len()
        invariant
            i <= pieces@.len(),
            chunks == split_ws(input@),
            strings_view(pieces@) == chunks,
            out@.len() == i,
            forall|k: int| 0 <= k < i ==> is_token(#[trigger] chunks[k]),
            forall|k: int| 0 <= k < i ==> classifies_as(#[trigger] chunks[k], out@[k]),
        decreases pieces@.len() - i,
    {
        assert(chunks[i as int] == pieces@[i as int]@);
        match word(pieces[i].as_str()) {
            Ok(t) => {
                out.push(t);
            },
            Err(()) => {
                return Err(());
            },
        }
        i = i + 1;
    }
    Ok(out)
}

/// Lexes a whole line; see `expression`.
pub fn parse_expression(input: &str) -> (r: Result<Expression, ()>)
    ensures
        r is Ok <==> is_expression(input@),
        r matches Ok(v) ==> lexes_as(input@, v@),
{
    expression(input)
}

/// Splits a line into its whitespace-separated chunks.
pub fn split_tokens(input: &str) -> (v: Vec<String>)
    ensures
        strings_view(v@) == split_ws(input@),
{
    let cs = chars_of(input);
    let n = cs.len();
    let mut v: Vec<String> = Vec::new();
    let mut start: usize = 0;
    let mut i: usize = 0;
    assert(input@.subrange(0, 0) =~= Seq::<char>::empty());
    assert(strings_view(v@) + split_from(input@, 0, Seq::empty()) =~= split_ws(input@));
    while i < n
        invariant
            n == cs@.len(),
            cs@ == input@,
            start <= i <= n,
            strings_view(v@) + split_from(input@, i as int, input@.subrange(start as int, i as int))
                == split_ws(input@),
        decreases n - i,
    {
        let ghost cur = input@.subrange(start as int, i as int);
        if cs[i] == ' ' || cs[i] == '\t' || cs[i] == '\n' || cs[i] == '\r' {
            let ghost before = v@;
            if start < i {
                let piece = input.substring_char(start, i).to_owned();
                v.push(piece);
                assert(strings_view(v@) =~= strings_view(before) + seq![cur]);
            }
            i = i + 1;
            start = i;
            assert(input@.subrange(start as int, i as int) =~= Seq::<char>::empty());
            assert(strings_view(v@) + split_from(input@, i as int, Seq::empty()) =~= strings_view(
                before,
            ) + ((if cur.len() > 0 {
                seq![cur]
            } else {
                Seq::empty()
            }) + split_from(input@, i as int, Seq::empty())));
        } else {
            i = i + 1;
            assert(input@.subrange(start as int, i as int) =~= cur.push(input@[i - 1]));
        }
    }
    let ghost cur = input@.subrange(start as int, i as int);
    if start < i {
        let ghost before = v@;
        let piece = input.substring_char(start, i).to_owned();
        v.push(piece);
        assert(strings_view(v@) =~= strings_view(before) + seq![cur]);
    }
    assert(strings_view(v@) =~= split_ws(input@));
    v
}

} // verus!
