//! Classification of a single atom token into a number, boolean, null,
//! string literal or symbol.

use vstd::prelude::*;
use vstd::std_specs::iter::IteratorSpec;
use vstd::utf8::{encode_scalar, encode_utf8};
use crate::expression::{Expression, Sexp};
use crate::text::{byte_offset, lemma_byte_offset_step, sub_str};

verus! {

pub open spec fn is_digit(c: char) -> bool {
    0x30 <= (c as u32) <= 0x39
}

pub open spec fn is_sign(c: char) -> bool {
    c == '+' || c == '-'
}

pub open spec fn is_exp_marker(c: char) -> bool {
    c == 'e' || c == 'E'
}

/// Length of the run of ASCII digits at the start of `s`.
pub open spec fn digit_run(s: Seq<char>) -> nat
    decreases s.len(),
{
    if s.len() > 0 && is_digit(s[0]) {
        1 + digit_run(s.drop_first())
    } else {
        0
    }
}

/// `s` without a leading sign.
pub open spec fn unsigned(s: Seq<char>) -> Seq<char> {
    if s.len() > 0 && is_sign(s[0]) {
        s.drop_first()
    } else {
        s
    }
}

/// `Digit+ | Digit+ '.' Digit* | Digit* '.' Digit+`
pub open spec fn is_mantissa(m: Seq<char>) -> bool {
    let a = digit_run(m) as int;
    if a == m.len() {
        a > 0
    } else {
        m[a] == '.' && digit_run(m.skip(a + 1)) == m.len() - a - 1 && m.len() >= 2
    }
}

/// `Sign? Digit+`, what follows the exponent marker.
pub open spec fn is_exponent(x: Seq<char>) -> bool {
    unsigned(x).len() > 0 && digit_run(unsigned(x)) == unsigned(x).len()
}

/// `Mantissa ('e' Sign? Digit+)?`, the exponent marker in either case.
pub open spec fn is_decimal(b: Seq<char>) -> bool {
    ||| is_mantissa(b)
    ||| exists|p: int|
        0 <= p < b.len() && is_exp_marker(b[p]) && is_mantissa(#[trigger] b.take(p)) && is_exponent(
            b.skip(p + 1),
        )
}

/// `s` spells the lower-case ASCII `word`, each letter in either case.
pub open spec fn spells(s: Seq<char>, word: Seq<char>) -> bool {
    &&& s.len() == word.len()
    &&& forall|k: int|
        0 <= k < s.len() ==> s[k] == word[k] || (s[k] as u32) + 32 == (#[trigger] word[k]) as u32
}

/// The literals that Rust reads as a 64-bit float (`f64::from_str`):
/// `Sign? ('inf' | 'infinity' | 'nan' | Decimal)`, letters in either case.
pub open spec fn is_float_literal(s: Seq<char>) -> bool {
    let b = unsigned(s);
    ||| is_decimal(b)
    ||| spells(b, seq!['i', 'n', 'f'])
    ||| spells(b, seq!['i', 'n', 'f', 'i', 'n', 'i', 't', 'y'])
    ||| spells(b, seq!['n', 'a', 'n'])
}

/// The atom that a token stands for: a float literal that starts with a digit
/// or a sign is a number; `true`, `false` and `null` are keywords; text
/// between two double quotes is a string; anything else is a symbol.
pub open spec fn classify(t: Seq<char>) -> Sexp<Seq<char>> {
    if t.len() > 0 && (is_digit(t[0]) || is_sign(t[0])) && is_float_literal(t) {
        Sexp::Number(t)
    } else if t == seq!['t', 'r', 'u', 'e'] {
        Sexp::Bool(true)
    } else if t == seq!['f', 'a', 'l', 's', 'e'] {
        Sexp::Bool(false)
    } else if t == seq!['n', 'u', 'l', 'l'] {
        Sexp::Null
    } else if t.len() >= 2 && t[0] == '"' && t.last() == '"' {
        Sexp::Str(t.subrange(1, t.len() - 1))
    } else {
        Sexp::Symbol(t)
    }
}

/// The text that an atom is written as.
pub open spec fn atom_text(a: Sexp<Seq<char>>) -> Seq<char> {
    match a {
        Sexp::Number(t) => t,
        Sexp::Bool(b) => if b {
            seq!['t', 'r', 'u', 'e']
        } else {
            seq!['f', 'a', 'l', 's', 'e']
        },
        Sexp::Str(t) => seq!['"'] + t + seq!['"'],
        Sexp::Symbol(t) => t,
        Sexp::List(_) => seq![],
        Sexp::Null => seq!['n', 'u', 'l', 'l'],
    }
}

/// Writing out a classified token gives the token back.
pub proof fn lemma_classify_round_trip(t: Seq<char>)
    ensures
        atom_text(classify(t)) == t,
{
    if classify(t) is Str {
        assert(seq!['"'] + t.subrange(1, t.len() - 1) + seq!['"'] =~= t);
    }
}

fn is_digit_char(c: char) -> (r: bool)
    ensures
        r == is_digit(c),
{
    let v = c as u32;
    0x30 <= v && v <= 0x39
}

fn is_sign_char(c: char) -> (r: bool)
    ensures
        r == is_sign(c),
{
    c == '+' || c == '-'
}

/// The characters of `s`.
fn char_vec(s: &str) -> (r: Vec<char>)
    ensures
        r@ == s@,
{
    let mut out: Vec<char> = Vec::new();
    let mut chars = s.chars();
    loop
        invariant
            chars.remaining() == s@.skip(out@.len() as int),
            out@ == s@.take(out@.len() as int),
            out@.len() <= s@.len(),
        ensures
            out@ == s@,
        decreases s@.len() - out@.len(),
    {
        match chars.next() {
            None => {
                assert(out@ =~= s@);
                break;
            },
            Some(c) => {
                assert(c == s@[out@.len() as int]);
                out.push(c);
                assert(out@ =~= s@.take(out@.len() as int));
                assert(chars.remaining() =~= s@.skip(out@.len() as int));
            },
        }
    }
    out
}

/// A run of `n` digits followed by a non-digit or the end is a digit run of length `n`.
proof fn lemma_digit_run(s: Seq<char>, n: int)
    requires
        0 <= n <= s.len(),
        forall|k: int| 0 <= k < n ==> is_digit(#[trigger] s[k]),
        n == s.len() || !is_digit(s[n]),
    ensures
        digit_run(s) == n,
    decreases n,
{
    if n > 0 {
        let t = s.drop_first();
        assert forall|k: int| 0 <= k < n - 1 implies is_digit(#[trigger] t[k]) by {
            assert(t[k] == s[k + 1]);
        }
        lemma_digit_run(t, n - 1);
    }
}

/// The first position at or after `from` and before `to` that holds no digit, or `to`.
fn scan_digits(cs: &Vec<char>, from: usize, to: usize) -> (r: usize)
    requires
        from <= to <= cs@.len(),
    ensures
        from <= r <= to,
        digit_run(cs@.subrange(from as int, to as int)) == r - from,
{
    let mut k = from;
    while k < to && is_digit_char(cs[k])
        invariant
            from <= k <= to <= cs@.len(),
            forall|j: int| from <= j < k ==> is_digit(#[trigger] cs@[j]),
        decreases to - k,
    {
        k = k + 1;
    }
    proof {
        let s = cs@.subrange(from as int, to as int);
        assert forall|j: int| 0 <= j < k - from implies is_digit(#[trigger] s[j]) by {
            assert(s[j] == cs@[from + j]);
        }
        if k < to {
            assert(s[k - from] == cs@[k as int]);
        }
        lemma_digit_run(s, k - from);
    }
    k
}

fn mantissa_ok(cs: &Vec<char>, from: usize, to: usize) -> (r: bool)
    requires
        from <= to <= cs@.len(),
    ensures
        r == is_mantissa(cs@.subrange(from as int, to as int)),
{
    let ghost m = cs@.subrange(from as int, to as int);
    let a = scan_digits(cs, from, to);
    if a == to {
        a > from
    } else {
        assert(m[a - from] == cs@[a as int]);
        if cs[a] != '.' {
            return false;
        }
        let f = scan_digits(cs, a + 1, to);
        assert(m.skip(a - from + 1) =~= cs@.subrange(a + 1, to as int));
        f == to && to - from >= 2
    }
}

fn exponent_ok(cs: &Vec<char>, from: usize, to: usize) -> (r: bool)
    requires
        from <= to <= cs@.len(),
    ensures
        r == is_exponent(cs@.subrange(from as int, to as int)),
{
    let ghost x = cs@.subrange(from as int, to as int);
    let mut k = from;
    if k < to && is_sign_char(cs[k]) {
        assert(x[0] == cs@[from as int]);
        k = k + 1;
    }
    assert(unsigned(x) =~= cs@.subrange(k as int, to as int));
    let e = scan_digits(cs, k, to);
    k < to && e == to
}

/// A mantissa holds no exponent marker.
proof fn lemma_mantissa_no_marker(m: Seq<char>, q: int)
    requires
        is_mantissa(m),
        0 <= q < m.len(),
    ensures
        !is_exp_marker(m[q]),
{
    let a = digit_run(m) as int;
    lemma_digit_run_digits(m);
    if a < m.len() && q > a {
        lemma_digit_run_digits(m.skip(a + 1));
        assert(m.skip(a + 1)[q - a - 1] == m[q]);
    }
}

/// The characters of a digit run are digits.
proof fn lemma_digit_run_digits(s: Seq<char>)
    ensures
        digit_run(s) <= s.len(),
        forall|k: int| 0 <= k < digit_run(s) ==> is_digit(#[trigger] s[k]),
        digit_run(s) < s.len() ==> !is_digit(s[digit_run(s) as int]),
    decreases s.len(),
{
    if s.len() > 0 && is_digit(s[0]) {
        let t = s.drop_first();
        lemma_digit_run_digits(t);
        assert forall|k: int| 0 <= k < digit_run(s) implies is_digit(#[trigger] s[k]) by {
            if k > 0 {
                assert(s[k] == t[k - 1]);
            }
        }
        if digit_run(s) < s.len() {
            assert(s[digit_run(s) as int] == t[digit_run(t) as int]);
        }
    }
}

fn decimal_ok(cs: &Vec<char>, from: usize) -> (r: bool)
    requires
        from <= cs@.len(),
    ensures
        r == is_decimal(cs@.skip(from as int)),
{
    let ghost b = cs@.skip(from as int);
    let len = cs.len();
    let mut p = from;
    while p < len && cs[p] != 'e' && cs[p] != 'E'
        invariant
            from <= p <= len == cs@.len(),
            forall|j: int| from <= j < p ==> !is_exp_marker(#[trigger] cs@[j]),
        decreases len - p,
    {
        p = p + 1;
    }
    assert(cs@.subrange(from as int, len as int) =~= b);
    if p == len {
        let r = mantissa_ok(cs, from, len);
        proof {
            if !r {
                assert forall|q: int|
                    0 <= q < b.len() && is_exp_marker(b[q]) implies !is_mantissa(
                    #[trigger] b.take(q),
                ) by {
                    assert(b[q] == cs@[from + q]);
                }
            }
        }
        r
    } else {
        let ghost q = p - from;
        assert(b[q] == cs@[p as int]);
        assert(b.take(q) =~= cs@.subrange(from as int, p as int));
        assert(b.skip(q + 1) =~= cs@.subrange(p + 1, len as int));
        proof {
            assert forall|j: int| 0 <= j < q implies !is_exp_marker(#[trigger] b[j]) by {
                assert(b[j] == cs@[from + j]);
            }
            if is_mantissa(b) {
                lemma_mantissa_no_marker(b, q);
            }
            assert forall|q2: int|
                0 <= q2 < b.len() && is_exp_marker(b[q2]) && q2 != q implies !is_mantissa(
                #[trigger] b.take(q2),
            ) by {
                if q2 > q && is_mantissa(b.take(q2)) {
                    lemma_mantissa_no_marker(b.take(q2), q);
                }
            }
        }
        mantissa_ok(cs, from, p) && exponent_ok(cs, p + 1, len)
    }
}

/// Whether `cs[from..]` spells the lower-case ASCII `word`, letters in either case.
fn spells_from(cs: &Vec<char>, from: usize, word: &[char]) -> (r: bool)
    requires
        from <= cs@.len(),
        forall|k: int| 0 <= k < word@.len() ==> 0x61 <= (#[trigger] word@[k] as u32) <= 0x7A,
    ensures
        r == spells(cs@.skip(from as int), word@),
{
    let ghost s = cs@.skip(from as int);
    let len = cs.len();
    if len - from != word.len() {
        return false;
    }
    let mut k: usize = 0;
    while k < word.len()
        invariant
            from <= cs@.len(),
            len == cs@.len(),
            s == cs@.skip(from as int),
            cs@.len() - from == word@.len(),
            0 <= k <= word@.len(),
            forall|j: int| 0 <= j < word@.len() ==> 0x61 <= (#[trigger] word@[j] as u32) <= 0x7A,
            forall|j: int|
                0 <= j < k ==> s[j] == word@[j] || (s[j] as u32) + 32 == (#[trigger] word@[j]) as u32,
        decreases word@.len() - k,
    {
        let c = cs[from + k];
        let w = word[k];
        assert(s[k as int] == c);
        if c != w && c as u32 != (w as u32) - 32 {
            return false;
        }
        k = k + 1;
    }
    true
}

fn float_literal_ok(cs: &Vec<char>) -> (r: bool)
    ensures
        r == is_float_literal(cs@),
{
    let mut from: usize = 0;
    if cs.len() > 0 && is_sign_char(cs[0]) {
        from = 1;
    }
    assert(unsigned(cs@) =~= cs@.skip(from as int));
    let inf: [char; 3] = ['i', 'n', 'f'];
    let infinity: [char; 8] = ['i', 'n', 'f', 'i', 'n', 'i', 't', 'y'];
    let nan: [char; 3] = ['n', 'a', 'n'];
    assert(inf@ =~= seq!['i', 'n', 'f']);
    assert(infinity@ =~= seq!['i', 'n', 'f', 'i', 'n', 'i', 't', 'y']);
    assert(nan@ =~= seq!['n', 'a', 'n']);
    decimal_ok(cs, from) || spells_from(cs, from, &inf) || spells_from(cs, from, &infinity)
        || spells_from(cs, from, &nan)
}

/// Whether `cs` is exactly `word`.
fn is_word(cs: &Vec<char>, word: &[char]) -> (r: bool)
    ensures
        r == (cs@ == word@),
{
    if cs.len() != word.len() {
        return false;
    }
    let mut k: usize = 0;
    while k < word.len()
        invariant
            cs@.len() == word@.len(),
            0 <= k <= word@.len(),
            forall|j: int| 0 <= j < k ==> cs@[j] == word@[j],
        decreases word@.len() - k,
    {
        if cs[k] != word[k] {
            return false;
        }
        k = k + 1;
    }
    assert(cs@ =~= word@);
    true
}

/// Classifies one atom token. The text of the result borrows from `token`.
pub fn parse_atom<'a>(token: &'a str) -> (r: Expression<'a>)
    ensures
        r@ == classify(token@),
{
    let cs = char_vec(token);
    let n = cs.len();
    if n > 0 && (is_digit_char(cs[0]) || is_sign_char(cs[0])) && float_literal_ok(&cs) {
        return Expression::Number(token);
    }
    let t: [char; 4] = ['t', 'r', 'u', 'e'];
    let f: [char; 5] = ['f', 'a', 'l', 's', 'e'];
    let z: [char; 4] = ['n', 'u', 'l', 'l'];
    assert(t@ =~= seq!['t', 'r', 'u', 'e']);
    assert(f@ =~= seq!['f', 'a', 'l', 's', 'e']);
    assert(z@ =~= seq!['n', 'u', 'l', 'l']);
    if is_word(&cs, &t) {
        return Expression::Bool(true);
    }
    if is_word(&cs, &f) {
        return Expression::Bool(false);
    }
    if is_word(&cs, &z) {
        return Expression::Null;
    }
    if n >= 2 && cs[0] == '"' && cs[n - 1] == '"' {
        let bytes = token.as_bytes().len();
        proof {
            let s = token@;
            assert(s.take(0) =~= Seq::<char>::empty());
            lemma_byte_offset_step(s, 0);
            lemma_byte_offset_step(s, n - 1);
            assert(s.take(n as int) =~= s);
            assert(encode_scalar('"' as u32).len() == 1);
        }
        return Expression::Str(sub_str(token, 1, bytes - 1, Ghost(1), Ghost(n - 1)));
    }
    Expression::Symbol(token)
}

} // verus!
