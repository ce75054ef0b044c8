//! Splitting source text into tokens.
//!
//! A token is either one of the structural characters `(`, `)` and `'`,
//! standing alone, or a maximal run of characters that holds neither
//! white space nor a structural character (an atom).

use vstd::prelude::*;
use vstd::std_specs::iter::IteratorSpec;
use vstd::utf8::encode_utf8;
use crate::text::{byte_offset, char_width, lemma_byte_offset_mono, lemma_byte_offset_step, sub_str};

verus! {

/// The characters that always form a token of their own.
pub open spec fn is_structural(c: char) -> bool {
    c == '(' || c == ')' || c == '\''
}

/// The characters with the Unicode `White_Space` property
/// (U+0009..U+000D, U+0020, U+0085, U+00A0, U+1680, U+2000..U+200A,
/// U+2028, U+2029, U+202F, U+205F, U+3000).
pub open spec fn is_white_space(c: char) -> bool {
    let v = c as u32;
    ||| 0x9 <= v <= 0xD
    ||| v == 0x20
    ||| v == 0x85
    ||| v == 0xA0
    ||| v == 0x1680
    ||| 0x2000 <= v <= 0x200A
    ||| v == 0x2028
    ||| v == 0x2029
    ||| v == 0x202F
    ||| v == 0x205F
    ||| v == 0x3000
}

/// A character that ends an atom.
pub open spec fn is_delimiter(c: char) -> bool {
    is_structural(c) || is_white_space(c)
}

/// The number of characters at the start of `s` before its first delimiter.
pub open spec fn atom_len(s: Seq<char>) -> nat
    decreases s.len(),
{
    if s.len() == 0 || is_delimiter(s[0]) {
        0
    } else {
        1 + atom_len(s.drop_first())
    }
}

/// The tokens of `s`, in source order: white space separates tokens and is
/// dropped, each structural character is a token, and every other maximal
/// run of characters is a token.
pub open spec fn tokens_of(s: Seq<char>) -> Seq<Seq<char>>
    decreases s.len(),
    via lemma_tokens_of_decreases
{
    if s.len() == 0 {
        seq![]
    } else if is_structural(s[0]) {
        seq![seq![s[0]]] + tokens_of(s.drop_first())
    } else if is_white_space(s[0]) {
        tokens_of(s.drop_first())
    } else {
        let n = atom_len(s);
        seq![s.take(n as int)] + tokens_of(s.skip(n as int))
    }
}

proof fn lemma_atom_len_bound(s: Seq<char>)
    ensures
        atom_len(s) <= s.len(),
    decreases s.len(),
{
    if s.len() > 0 && !is_delimiter(s[0]) {
        lemma_atom_len_bound(s.drop_first());
    }
}

#[via_fn]
proof fn lemma_tokens_of_decreases(s: Seq<char>) {
    if s.len() > 0 && !is_delimiter(s[0]) {
        lemma_atom_len_bound(s);
        assert(s.skip(atom_len(s) as int).len() < s.len());
    }
}

/// The character views of a sequence of string slices.
pub open spec fn views<'a>(v: Seq<&'a str>) -> Seq<Seq<char>> {
    v.map_values(|t: &'a str| t@)
}

/// Relies on `char::is_whitespace`: true exactly for the characters with the
/// Unicode `White_Space` property.
#[verifier::external_body]
fn is_whitespace(c: char) -> (r: bool)
    ensures
        r == is_white_space(c),
{
    c.is_whitespace()
}

fn is_structural_char(c: char) -> (r: bool)
    ensures
        r == is_structural(c),
{
    c == '(' || c == ')' || c == '\''
}

/// A run of `n` non-delimiters followed by a delimiter or the end is an atom of length `n`.
proof fn lemma_atom_len(s: Seq<char>, n: int)
    requires
        0 <= n <= s.len(),
        forall|k: int| 0 <= k < n ==> !is_delimiter(#[trigger] s[k]),
        n == s.len() || is_delimiter(s[n]),
    ensures
        atom_len(s) == n,
    decreases n,
{
    if n > 0 {
        let t = s.drop_first();
        assert forall|k: int| 0 <= k < n - 1 implies !is_delimiter(#[trigger] t[k]) by {
            assert(t[k] == s[k + 1]);
        }
        lemma_atom_len(t, n - 1);
    }
}

/// Where the atom starting at `a` ends at `i`, the tokens from `a` on are that
/// atom followed by the tokens from `i` on.
proof fn lemma_atom_token(s: Seq<char>, a: int, i: int)
    requires
        0 <= a < i <= s.len(),
        forall|k: int| a <= k < i ==> !is_delimiter(#[trigger] s[k]),
        i == s.len() || is_delimiter(s[i]),
    ensures
        tokens_of(s.skip(a)) == seq![s.subrange(a, i)] + tokens_of(s.skip(i)),
{
    let t = s.skip(a);
    assert forall|k: int| 0 <= k < i - a implies !is_delimiter(#[trigger] t[k]) by {
        assert(t[k] == s[a + k]);
    }
    if i < s.len() {
        assert(t[i - a] == s[i]);
    }
    lemma_atom_len(t, i - a);
    assert(t.take(i - a) =~= s.subrange(a, i));
    assert(t.skip(i - a) =~= s.skip(i));
}

/// The tokens from a delimiter on.
proof fn lemma_delimiter_token(s: Seq<char>, i: int)
    requires
        0 <= i < s.len(),
        is_delimiter(s[i]),
    ensures
        is_structural(s[i]) ==> tokens_of(s.skip(i)) == seq![seq![s[i]]] + tokens_of(s.skip(i + 1)),
        !is_structural(s[i]) ==> tokens_of(s.skip(i)) == tokens_of(s.skip(i + 1)),
{
    let t = s.skip(i);
    assert(t[0] == s[i]);
    assert(t.drop_first() =~= s.skip(i + 1));
}

/// Splits `src` into its tokens, in source order. Each token is a slice of `src`.
pub fn tokenize<'a>(src: &'a str) -> (r: Vec<&'a str>)
    ensures
        views(r@) == tokens_of(src@),
{
    let ghost s = src@;
    let mut tokens: Vec<&'a str> = Vec::new();
    let n = src.as_bytes().len();
    let mut chars = src.chars();
    let ghost mut i: int = 0;
    let mut pos: usize = 0;
    let mut start: usize = 0;
    let ghost mut start_i: int = 0;
    let mut in_atom = false;
    proof {
        assert(s.skip(0) =~= s);
        assert(views(tokens@) =~= Seq::<Seq<char>>::empty());
        assert(tokens_of(s) =~= views(tokens@) + tokens_of(s.skip(0)));
        assert(s.take(0) =~= Seq::<char>::empty());
    }
    loop
        invariant
            s == src@,
            0 <= i <= s.len(),
            chars.remaining() == s.skip(i),
            pos == byte_offset(s, i),
            n == encode_utf8(s).len(),
            in_atom ==> 0 <= start_i < i && start == byte_offset(s, start_i),
            in_atom ==> forall|k: int| start_i <= k < i ==> !is_delimiter(#[trigger] s[k]),
            in_atom ==> tokens_of(s) == views(tokens@) + tokens_of(s.skip(start_i)),
            !in_atom ==> tokens_of(s) == views(tokens@) + tokens_of(s.skip(i)),
        ensures
            i == s.len(),
        decreases s.len() - i,
    {
        let next = chars.next();
        match next {
            None => {
                assert(s.skip(i).len() == 0);
                break;
            },
            Some(c) => {
                assert(c == s.skip(i)[0]);
                assert(c == s[i]);
                proof {
                    lemma_byte_offset_step(s, i);
                    lemma_byte_offset_mono(s, i + 1, s.len() as int);
                    assert(s.take(s.len() as int) =~= s);
                }
                let w = char_width(c);
                let structural = is_structural_char(c);
                if structural || is_whitespace(c) {
                    if in_atom {
                        proof {
                            lemma_atom_token(s, start_i, i);
                        }
                        let t = sub_str(src, start, pos, Ghost(start_i), Ghost(i));
                        let ghost before = tokens@;
                        tokens.push(t);
                        assert(views(tokens@) =~= views(before).push(t@));
                        assert(tokens_of(s) =~= views(tokens@) + tokens_of(s.skip(i)));
                        in_atom = false;
                    }
                    proof {
                        lemma_delimiter_token(s, i);
                    }
                    if structural {
                        let t = sub_str(src, pos, pos + w, Ghost(i), Ghost(i + 1));
                        assert(t@ =~= seq![s[i]]);
                        let ghost before = tokens@;
                        tokens.push(t);
                        assert(views(tokens@) =~= views(before).push(t@));
                        assert(tokens_of(s) =~= views(tokens@) + tokens_of(s.skip(i + 1)));
                    }
                } else if !in_atom {
                    in_atom = true;
                    start = pos;
                    proof {
                        start_i = i;
                    }
                }
                pos = pos + w;
                proof {
                    i = i + 1;
                    assert(chars.remaining() =~= s.skip(i));
                }
            },
        }
    }
    if in_atom {
        proof {
            lemma_atom_token(s, start_i, i);
            assert(s.skip(i).len() == 0);
            assert(tokens_of(s.skip(i)) =~= Seq::<Seq<char>>::empty());
        }
        let t = sub_str(src, start, pos, Ghost(start_i), Ghost(i));
        let ghost before = tokens@;
        tokens.push(t);
        assert(views(tokens@) =~= views(before).push(t@));
        assert(tokens_of(s) =~= views(tokens@));
    } else {
        assert(tokens_of(s.skip(i)) =~= Seq::<Seq<char>>::empty());
        assert(tokens_of(s) =~= views(tokens@));
    }
    tokens
}

/// Tokenizing depends on the text alone: equal texts give equal tokens, so
/// tokenizing the same text again gives the same tokens.
pub proof fn lemma_tokens_deterministic(a: Seq<char>, b: Seq<char>)
    requires
        a == b,
    ensures
        tokens_of(a) == tokens_of(b),
{
}

/// The tokens `ts` written out, each followed by one space.
pub open spec fn spaced(ts: Seq<Seq<char>>) -> Seq<char>
    decreases ts.len(),
{
    if ts.len() == 0 {
        seq![]
    } else {
        ts[0] + seq![' '] + spaced(ts.drop_first())
    }
}

/// A single structural character, or a non-empty run without delimiters.
pub open spec fn is_token_text(t: Seq<char>) -> bool {
    ||| t.len() == 1 && is_structural(t[0])
    ||| t.len() >= 1 && forall|k: int| 0 <= k < t.len() ==> !is_delimiter(#[trigger] t[k])
}

proof fn lemma_atom_len_chars(s: Seq<char>)
    ensures
        atom_len(s) <= s.len(),
        forall|k: int| 0 <= k < atom_len(s) ==> !is_delimiter(#[trigger] s[k]),
    decreases s.len(),
{
    if s.len() > 0 && !is_delimiter(s[0]) {
        let t = s.drop_first();
        lemma_atom_len_chars(t);
        assert forall|k: int| 0 <= k < atom_len(s) implies !is_delimiter(#[trigger] s[k]) by {
            if k > 0 {
                assert(s[k] == t[k - 1]);
            }
        }
    }
}

/// Every token is a structural character or a run without delimiters.
proof fn lemma_tokens_are_token_text(s: Seq<char>)
    ensures
        forall|i: int| 0 <= i < tokens_of(s).len() ==> is_token_text(#[trigger] tokens_of(s)[i]),
    decreases s.len(),
{
    if s.len() > 0 {
        if is_structural(s[0]) {
            lemma_tokens_are_token_text(s.drop_first());
            let ts = tokens_of(s);
            assert forall|i: int| 0 <= i < ts.len() implies is_token_text(#[trigger] ts[i]) by {
                if i > 0 {
                    assert(ts[i] == tokens_of(s.drop_first())[i - 1]);
                }
            }
        } else if is_white_space(s[0]) {
            lemma_tokens_are_token_text(s.drop_first());
        } else {
            let n = atom_len(s) as int;
            lemma_atom_len_chars(s);
            lemma_atom_len_bound(s);
            lemma_tokens_are_token_text(s.skip(n));
            let ts = tokens_of(s);
            assert forall|i: int| 0 <= i < ts.len() implies is_token_text(#[trigger] ts[i]) by {
                if i > 0 {
                    assert(ts[i] == tokens_of(s.skip(n))[i - 1]);
                } else {
                    assert forall|k: int| 0 <= k < s.take(n).len() implies !is_delimiter(
                        #[trigger] s.take(n)[k],
                    ) by {
                        assert(s.take(n)[k] == s[k]);
                    }
                }
            }
        }
    }
}

/// A token followed by a space is read back as that token.
proof fn lemma_token_then_space(t: Seq<char>, r: Seq<char>)
    requires
        is_token_text(t),
    ensures
        tokens_of(t + seq![' '] + r) == seq![t] + tokens_of(r),
{
    let u = t + seq![' '] + r;
    let w = seq![' '] + r;
    assert(is_white_space(' '));
    assert(w[0] == ' ');
    assert(w.drop_first() =~= r);
    assert(tokens_of(w) == tokens_of(r));
    assert(u[t.len() as int] == ' ');
    if t.len() == 1 && is_structural(t[0]) {
        assert(u[0] == t[0]);
        assert(u.drop_first() =~= seq![' '] + r);
        assert((seq![' '] + r).drop_first() =~= r);
        assert(seq![u[0]] =~= t);
    } else {
        assert forall|k: int| 0 <= k < t.len() implies !is_delimiter(#[trigger] u[k]) by {
            assert(u[k] == t[k]);
        }
        lemma_atom_token(u, 0, t.len() as int);
        assert(u.skip(0) =~= u);
        assert(u.subrange(0, t.len() as int) =~= t);
        assert(u.skip(t.len() as int) =~= seq![' '] + r);
        assert((seq![' '] + r).drop_first() =~= r);
    }
}

proof fn lemma_spaced_tokens(ts: Seq<Seq<char>>)
    requires
        forall|i: int| 0 <= i < ts.len() ==> is_token_text(#[trigger] ts[i]),
    ensures
        tokens_of(spaced(ts)) == ts,
    decreases ts.len(),
{
    if ts.len() == 0 {
        assert(tokens_of(spaced(ts)) =~= ts);
    } else {
        let rest = ts.drop_first();
        assert forall|i: int| 0 <= i < rest.len() implies is_token_text(#[trigger] rest[i]) by {
            assert(rest[i] == ts[i + 1]);
        }
        lemma_spaced_tokens(rest);
        assert(is_token_text(ts[0]));
        lemma_token_then_space(ts[0], spaced(rest));
        assert(seq![ts[0]] + rest =~= ts);
    }
}

/// Tokenizing is idempotent: writing the tokens of a text out with a space
/// after each and tokenizing that gives the same tokens again.
pub proof fn lemma_tokenize_idempotent(s: Seq<char>)
    ensures
        tokens_of(spaced(tokens_of(s))) == tokens_of(s),
{
    lemma_tokens_are_token_text(s);
    lemma_spaced_tokens(tokens_of(s));
}

} // verus!
