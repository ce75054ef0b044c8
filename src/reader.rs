//! Reading a token sequence into one expression by recursive descent, and
//! the entry points that read source text.

use vstd::prelude::*;
use vstd::string::StrSliceExecFns;
use crate::atom::{atom_text, classify, lemma_classify_round_trip, parse_atom};
use crate::expression::{models, Expression, Sexp};
use crate::tokenizer::{tokenize, tokens_of, views};

verus! {


/// Why source text could not be read as an expression.
#[derive(Debug, Clone, Copy, PartialEq, Eq, Structural)]
pub enum ParseError {
    /// The tokens ran out where an expression was expected.
    UnexpectedEOF,
    /// A list was opened and the tokens ran out before it was closed.
    MissingClosingParen,
    /// A `)` stood where an expression was expected.
    UnexpectedClosingParen,
}

pub open spec fn open_token() -> Seq<char> {
    seq!['(']
}

pub open spec fn close_token() -> Seq<char> {
    seq![')']
}

/// How a token changes the nesting depth.
pub open spec fn delta(t: Seq<char>) -> int {
    if t == open_token() {
        1
    } else if t == close_token() {
        -1
    } else {
        0
    }
}

/// The nesting depth after the tokens `ts`: opened lists less closed ones.
pub open spec fn depth(ts: Seq<Seq<char>>) -> int
    decreases ts.len(),
{
    if ts.len() == 0 {
        0
    } else {
        depth(ts.drop_last()) + delta(ts.last())
    }
}

/// `ts` is exactly one complete expression: a single atom, or a list whose
/// depth stays positive until its last token closes it.
pub open spec fn is_expr_tokens(ts: Seq<Seq<char>>) -> bool {
    &&& ts.len() > 0
    &&& depth(ts) == 0
    &&& forall|k: int| 1 <= k < ts.len() ==> depth(#[trigger] ts.take(k)) > 0
}

/// Some prefix of `ts` is one complete expression.
pub open spec fn has_expr(ts: Seq<Seq<char>>) -> bool {
    exists|k: int| 1 <= k <= ts.len() && is_expr_tokens(#[trigger] ts.take(k))
}

/// Parentheses in `ts` are balanced: no prefix closes more lists than it
/// opened, and all of `ts` closes as many as it opens.
pub open spec fn balanced(ts: Seq<Seq<char>>) -> bool {
    &&& depth(ts) == 0
    &&& forall|k: int| 0 <= k <= ts.len() ==> depth(#[trigger] ts.take(k)) >= 0
}

/// The tokens that an expression is written as.
pub open spec fn tree_tokens(e: Sexp<Seq<char>>) -> Seq<Seq<char>>
    decreases e,
{
    match e {
        Sexp::List(items) => seq![open_token()] + items_tokens(items).flatten() + seq![close_token()],
        _ => seq![atom_text(e)],
    }
}

/// The tokens of each of `items`.
pub open spec fn items_tokens(items: Seq<Sexp<Seq<char>>>) -> Seq<Seq<Seq<char>>>
    decreases items,
{
    Seq::new(
        items.len(),
        |i: int|
            if 0 <= i < items.len() {
                tree_tokens(items[i])
            } else {
                Seq::empty()
            },
    )
}

/// Every atom of `e` is what its own text classifies as, and no atom is
/// written as a parenthesis.
pub open spec fn canonical(e: Sexp<Seq<char>>) -> bool
    decreases e,
{
    match e {
        Sexp::List(items) => forall|i: int| 0 <= i < items.len() ==> canonical(#[trigger] items[i]),
        _ => {
            &&& classify(atom_text(e)) == e
            &&& atom_text(e) != open_token()
            &&& atom_text(e) != close_token()
        },
    }
}

/// `e` is read from the start of `ts`: it is canonical, and the tokens it
/// is written as form one complete expression at the start of `ts`.
pub open spec fn reads_as(ts: Seq<Seq<char>>, e: Sexp<Seq<char>>) -> bool {
    &&& canonical(e)
    &&& tree_tokens(e).len() <= ts.len()
    &&& ts.take(tree_tokens(e).len() as int) == tree_tokens(e)
    &&& is_expr_tokens(tree_tokens(e))
}

/// The error for tokens `ts` from which no expression can be read.
pub open spec fn read_error(ts: Seq<Seq<char>>) -> ParseError {
    if ts.len() == 0 {
        ParseError::UnexpectedEOF
    } else if ts[0] == close_token() {
        ParseError::UnexpectedClosingParen
    } else {
        ParseError::MissingClosingParen
    }
}

proof fn lemma_depth_concat(a: Seq<Seq<char>>, b: Seq<Seq<char>>)
    ensures
        depth(a + b) == depth(a) + depth(b),
    decreases b.len(),
{
    if b.len() == 0 {
        assert(a + b =~= a);
    } else {
        assert((a + b).drop_last() =~= a + b.drop_last());
        lemma_depth_concat(a, b.drop_last());
    }
}

proof fn lemma_depth_step(ts: Seq<Seq<char>>, j: int)
    requires
        0 <= j < ts.len(),
    ensures
        depth(ts.take(j + 1)) == depth(ts.take(j)) + delta(ts[j]),
{
    assert(ts.take(j + 1).drop_last() =~= ts.take(j));
}

/// Where the depth stays positive through the first `m0` tokens and has come
/// down to zero or below after `k`, a complete expression ends in between.
proof fn lemma_first_return(ts: Seq<Seq<char>>, m0: int, k: int)
    requires
        1 <= m0 < k <= ts.len(),
        forall|j: int| 1 <= j <= m0 ==> depth(#[trigger] ts.take(j)) > 0,
        depth(ts.take(k)) <= 0,
    ensures
        has_expr(ts),
    decreases k - m0,
{
    lemma_depth_step(ts, m0);
    if depth(ts.take(m0 + 1)) <= 0 {
        assert(ts.take(m0 + 1).len() == m0 + 1);
        assert forall|j: int| 1 <= j < m0 + 1 implies depth(#[trigger] ts.take(m0 + 1).take(j)) > 0 by {
            assert(ts.take(m0 + 1).take(j) =~= ts.take(j));
        }
        assert(is_expr_tokens(ts.take(m0 + 1)));
    } else {
        lemma_first_return(ts, m0 + 1, k);
    }
}

/// A complete expression has no complete proper prefix.
proof fn lemma_expr_unique(ts: Seq<Seq<char>>, k1: int, k2: int)
    requires
        1 <= k1 <= ts.len(),
        1 <= k2 <= ts.len(),
        is_expr_tokens(ts.take(k1)),
        is_expr_tokens(ts.take(k2)),
    ensures
        k1 == k2,
{
    if k1 < k2 {
        assert(ts.take(k2).take(k1) =~= ts.take(k1));
    } else if k2 < k1 {
        assert(ts.take(k1).take(k2) =~= ts.take(k2));
    }
}

/// The first `c` tokens of `ts` are an opened list whose complete items so
/// far are `ms`.
pub open spec fn list_prefix(ts: Seq<Seq<char>>, c: int, ms: Seq<Sexp<Seq<char>>>) -> bool {
    &&& 1 <= c <= ts.len()
    &&& items_tokens(ms).flatten() == ts.subrange(1, c)
    &&& forall|i: int| 0 <= i < ms.len() ==> canonical(#[trigger] ms[i])
    &&& depth(ts.take(c)) == 1
    &&& forall|j: int| 1 <= j <= c ==> depth(#[trigger] ts.take(j)) > 0
}

/// An opened list that the tokens never close holds no complete expression.
proof fn lemma_unclosed_list(ts: Seq<Seq<char>>, c: int, ms: Seq<Sexp<Seq<char>>>)
    requires
        c == ts.len(),
        list_prefix(ts, c, ms),
    ensures
        !has_expr(ts),
{
    assert forall|k: int| 1 <= k <= ts.len() implies !is_expr_tokens(#[trigger] ts.take(k)) by {
        if k == ts.len() {
            assert(ts.take(k) =~= ts.take(c));
        }
    }
}

/// A `)` after an opened list closes it.
proof fn lemma_close_list(ts: Seq<Seq<char>>, c: int, ms: Seq<Sexp<Seq<char>>>)
    requires
        list_prefix(ts, c, ms),
        c < ts.len(),
        ts[0] == open_token(),
        ts[c] == close_token(),
    ensures
        reads_as(ts, Sexp::List(ms)),
        tree_tokens(Sexp::List(ms)).len() == c + 1,
{
    let e = Sexp::List(ms);
    assert(open_token()[0] != close_token()[0]);
    lemma_depth_step(ts, c);
    assert(tree_tokens(e) =~= ts.take(c + 1));
    assert forall|j: int| 1 <= j < c + 1 implies depth(#[trigger] ts.take(c + 1).take(j)) > 0 by {
        assert(ts.take(c + 1).take(j) =~= ts.take(j));
    }
    assert(is_expr_tokens(tree_tokens(e)));
    assert(canonical(e));
    assert(ts.take(tree_tokens(e).len() as int) == tree_tokens(e));
}

/// An item that cannot be read leaves the list around it unclosed.
proof fn lemma_unclosed_child(ts: Seq<Seq<char>>, c: int, ms: Seq<Sexp<Seq<char>>>)
    requires
        list_prefix(ts, c, ms),
        c < ts.len(),
        ts[c] != close_token(),
        !has_expr(ts.skip(c)),
    ensures
        !has_expr(ts),
{
    let cs = ts.skip(c);
    lemma_depth_step(cs, 0);
    assert(cs.take(0).len() == 0);
    if cs[0] != open_token() {
        assert(is_expr_tokens(cs.take(1)));
    }
    assert forall|k: int| 1 <= k <= ts.len() implies !is_expr_tokens(#[trigger] ts.take(k)) by {
        if is_expr_tokens(ts.take(k)) {
            if k <= c {
                assert(ts.take(k).len() == k);
            } else {
                assert(ts.take(k) =~= ts.take(c) + cs.take(k - c));
                lemma_depth_concat(ts.take(c), cs.take(k - c));
                lemma_depth_step(cs, 0);
                assert(cs.take(0).len() == 0);
                lemma_first_return(cs, 1, k - c);
            }
        }
    }
}

/// A complete item after an opened list extends it.
proof fn lemma_extend_list(ts: Seq<Seq<char>>, c: int, n: int, ms: Seq<Sexp<Seq<char>>>, e: Sexp<Seq<char>>)
    requires
        list_prefix(ts, c, ms),
        c + n <= ts.len(),
        reads_as(ts.skip(c), e),
        tree_tokens(e).len() == n,
    ensures
        list_prefix(ts, c + n, ms.push(e)),
{
    let cs = ts.skip(c);
    let t = tree_tokens(e);
    assert(cs.take(n) == t);
    assert(ts.take(c + n) =~= ts.take(c) + cs.take(n));
    lemma_depth_concat(ts.take(c), cs.take(n));
    assert forall|j: int| 1 <= j <= c + n implies depth(#[trigger] ts.take(j)) > 0 by {
        if j > c {
            assert(ts.take(j) =~= ts.take(c) + cs.take(j - c));
            lemma_depth_concat(ts.take(c), cs.take(j - c));
            if j < c + n {
                assert(t.take(j - c) =~= cs.take(j - c));
            } else {
                assert(t =~= cs.take(j - c));
            }
        }
    }
    assert(ts.subrange(1, c + n) =~= ts.subrange(1, c) + t);
    assert(items_tokens(ms.push(e)) =~= items_tokens(ms).push(t));
    items_tokens(ms).lemma_flatten_push(t);
    assert forall|i: int| 0 <= i < ms.push(e).len() implies canonical(#[trigger] ms.push(e)[i]) by {
        if i < ms.len() {
            assert(ms.push(e)[i] == ms[i]);
        }
    }
}

/// Whether `t` is the one-character token `c`.
fn is_token(t: &str, c: char) -> (r: bool)
    ensures
        r == (t@ == seq![c]),
{
    if t.unicode_len() != 1 {
        return false;
    }
    let first = t.get_char(0);
    if first == c {
        assert(t@ =~= seq![c]);
        true
    } else {
        false
    }
}

/// Reads one expression from `tokens`, starting at `pos`; on success also
/// returns the position after it.
fn parse<'a>(tokens: &Vec<&'a str>, pos: usize) -> (r: Result<(Expression<'a>, usize), ParseError>)
    requires
        pos <= tokens@.len(),
    ensures
        has_expr(views(tokens@).skip(pos as int)) <==> r is Ok,
        match r {
            Ok((e, end)) => {
                &&& pos < end <= tokens@.len()
                &&& reads_as(views(tokens@).skip(pos as int), e@)
                &&& tree_tokens(e@).len() == end - pos
            },
            Err(err) => err == read_error(views(tokens@).skip(pos as int)),
        },
    decreases tokens@.len() - pos,
{
    let ghost all = views(tokens@);
    let ghost ts = all.skip(pos as int);
    assert(open_token() != close_token()) by {
        assert(open_token()[0] != close_token()[0]);
    }
    if pos == tokens.len() {
        return Err(ParseError::UnexpectedEOF);
    }
    let token = tokens[pos];
    assert(ts[0] == token@);
    if is_token(token, ')') {
        proof {
            assert forall|k: int| 1 <= k <= ts.len() implies !is_expr_tokens(#[trigger] ts.take(k)) by {
                lemma_depth_step(ts, 0);
                assert(ts.take(0).len() == 0);
                if k > 1 {
                    assert(ts.take(k).take(1) =~= ts.take(1));
                }
            }
        }
        return Err(ParseError::UnexpectedClosingParen);
    }
    if !is_token(token, '(') {
        let e = parse_atom(token);
        proof {
            lemma_classify_round_trip(token@);
            assert(tree_tokens(e@) =~= seq![token@]);
            assert(ts.take(1) =~= seq![token@]);
            lemma_depth_step(ts, 0);
            assert(ts.take(0).len() == 0);
            assert(is_expr_tokens(ts.take(1)));
        }
        return Ok((e, pos + 1));
    }
    proof {
        lemma_depth_step(ts, 0);
        assert(ts.take(0).len() == 0);
    }
    let mut items: Vec<Expression<'a>> = Vec::new();
    let mut cur = pos + 1;
    assert(items_tokens(models(items@)).flatten() =~= ts.subrange(1, 1));
    loop
        invariant
            all == views(tokens@),
            ts == all.skip(pos as int),
            pos < cur <= tokens@.len(),
            ts[0] == open_token(),
            list_prefix(ts, cur - pos, models(items@)),
        decreases tokens@.len() - cur,
    {
        let ghost c = cur - pos;
        assert(open_token() != close_token()) by {
            assert(open_token()[0] != close_token()[0]);
        }
        if cur == tokens.len() {
            proof {
                lemma_unclosed_list(ts, c, models(items@));
            }
            return Err(ParseError::MissingClosingParen);
        }
        let next = tokens[cur];
        assert(ts[c] == next@);
        if is_token(next, ')') {
            let ghost before = items@;
            let e = Expression::List(items);
            proof {
                assert(e@ == Sexp::List(models(before)));
                lemma_close_list(ts, c, models(before));
            }
            return Ok((e, cur + 1));
        }
        let child = parse(tokens, cur);
        assert(all.skip(cur as int) =~= ts.skip(c));
        match child {
            Err(err) => {
                proof {
                    lemma_unclosed_child(ts, c, models(items@));
                }
                return Err(err);
            },
            Ok((e, end)) => {
                let ghost before = items@;
                proof {
                    lemma_extend_list(ts, c, end - cur, models(before), e@);
                }
                items.push(e);
                assert(models(items@) =~= models(before).push(e@));
                cur = end;
            },
        }
    }
}

/// Reads the first expression of `src`. Tokens after it are not looked at.
///
/// It succeeds exactly when some prefix of the tokens of `src` is one
/// complete expression, and then returns that expression. Otherwise the
/// error is `UnexpectedEOF` when `src` holds no token,
/// `UnexpectedClosingParen` when its first token is `)`, and
/// `MissingClosingParen` when its first `(` is never closed.
pub fn read<'a>(src: &'a str) -> (r: Result<Expression<'a>, ParseError>)
    ensures
        r is Ok <==> has_expr(tokens_of(src@)),
        match r {
            Ok(e) => reads_as(tokens_of(src@), e@),
            Err(err) => err == read_error(tokens_of(src@)),
        },
{
    let tokens = tokenize(src);
    assert(views(tokens@).skip(0) =~= views(tokens@));
    match parse(&tokens, 0) {
        Ok((e, _)) => Ok(e),
        Err(err) => Err(err),
    }
}

/// Reads the first expression of `src`, which must succeed.
pub fn read_unchecked<'a>(src: &'a str) -> (r: Expression<'a>)
    requires
        has_expr(tokens_of(src@)),
    ensures
        reads_as(tokens_of(src@), r@),
{
    read(src).expect("Failed to parse S-expression")
}

/// A complete expression has balanced parentheses.
proof fn lemma_expr_balanced(ts: Seq<Seq<char>>)
    requires
        is_expr_tokens(ts),
    ensures
        balanced(ts),
{
    assert forall|j: int| 0 <= j <= ts.len() implies depth(#[trigger] ts.take(j)) >= 0 by {
        if j == 0 {
            assert(ts.take(0).len() == 0);
        } else if j == ts.len() {
            assert(ts.take(j) =~= ts);
        }
    }
}

/// Reading succeeds exactly when the parentheses of the tokens are balanced:
/// no `)` comes without an unmatched `(` before it, and every `(` is closed.
/// This holds of every source with at least one token and nothing after
/// its first balanced stretch of tokens (what follows the first expression
/// is not read, so `(a))` reads although its parentheses do not balance).
pub proof fn lemma_read_ok_iff_balanced(s: Seq<char>)
    requires
        tokens_of(s).len() > 0,
        forall|k: int| 1 <= k < tokens_of(s).len() ==> !balanced(#[trigger] tokens_of(s).take(k)),
    ensures
        has_expr(tokens_of(s)) <==> balanced(tokens_of(s)),
{
    let ts = tokens_of(s);
    if has_expr(ts) {
        let k = choose|k: int| 1 <= k <= ts.len() && is_expr_tokens(#[trigger] ts.take(k));
        lemma_expr_balanced(ts.take(k));
        assert(ts.take(ts.len() as int) =~= ts);
    }
    if balanced(ts) {
        lemma_depth_step(ts, 0);
        assert(ts.take(0).len() == 0);
        assert(ts.take(1).len() == 1);
        assert(depth(ts.take(1)) >= 0);
        if depth(ts.take(1)) == 0 {
            assert(is_expr_tokens(ts.take(1)));
        } else {
            assert(ts.take(ts.len() as int) =~= ts);
            lemma_first_return(ts, 1, ts.len() as int);
        }
    }
}

proof fn lemma_balanced_concat(a: Seq<Seq<char>>, b: Seq<Seq<char>>)
    requires
        balanced(a),
        balanced(b),
    ensures
        balanced(a + b),
{
    lemma_depth_concat(a, b);
    assert forall|k: int| 0 <= k <= (a + b).len() implies depth(#[trigger] (a + b).take(k)) >= 0 by {
        if k <= a.len() {
            assert((a + b).take(k) =~= a.take(k));
        } else {
            assert((a + b).take(k) =~= a + b.take(k - a.len()));
            lemma_depth_concat(a, b.take(k - a.len()));
            assert(a.take(a.len() as int) =~= a);
        }
    }
}

proof fn lemma_depth_single(t: Seq<char>)
    ensures
        depth(seq![t]) == delta(t),
{
    assert(seq![t].drop_last() =~= Seq::<Seq<char>>::empty());
    assert(depth(Seq::<Seq<char>>::empty()) == 0);
    assert(seq![t].last() == t);
}

/// The tokens of a canonical expression form one complete expression.
proof fn lemma_tree_tokens_complete(e: Sexp<Seq<char>>)
    requires
        canonical(e),
    ensures
        is_expr_tokens(tree_tokens(e)),
    decreases e, 0int,
{
    assert(open_token()[0] != close_token()[0]);
    match e {
        Sexp::List(items) => {
            let f = items_tokens(items).flatten();
            lemma_items_balanced(items, items.len() as int);
            assert(items_tokens(items).take(items.len() as int) =~= items_tokens(items));
            let t = tree_tokens(e);
            let o = seq![open_token()];
            let c = seq![close_token()];
            lemma_depth_single(open_token());
            lemma_depth_single(close_token());
            lemma_depth_concat(o, f);
            lemma_depth_concat(o + f, c);
            assert forall|k: int| 1 <= k < t.len() implies depth(#[trigger] t.take(k)) > 0 by {
                assert(t.take(k) =~= o + f.take(k - 1));
                lemma_depth_concat(o, f.take(k - 1));
            }
        },
        _ => {
            lemma_depth_single(atom_text(e));
            assert(tree_tokens(e) == seq![atom_text(e)]);
        },
    }
}

/// The tokens of the first `n` of canonical `items` are balanced.
proof fn lemma_items_balanced(items: Seq<Sexp<Seq<char>>>, n: int)
    requires
        0 <= n <= items.len(),
        forall|i: int| 0 <= i < items.len() ==> canonical(#[trigger] items[i]),
    ensures
        balanced(items_tokens(items).take(n).flatten()),
    decreases items, n,
{
    if n == 0 {
        assert(items_tokens(items).take(0) =~= Seq::<Seq<Seq<char>>>::empty());
        assert(Seq::<Seq<Seq<char>>>::empty().flatten() =~= Seq::<Seq<char>>::empty());
        assert(Seq::<Seq<char>>::empty().take(0) =~= Seq::<Seq<char>>::empty());
    } else {
        lemma_items_balanced(items, n - 1);
        lemma_tree_tokens_complete(items[n - 1]);
        lemma_expr_balanced(tree_tokens(items[n - 1]));
        let pre = items_tokens(items).take(n - 1);
        assert(items_tokens(items).take(n) =~= pre.push(tree_tokens(items[n - 1])));
        pre.lemma_flatten_push(tree_tokens(items[n - 1]));
        lemma_balanced_concat(pre.flatten(), tree_tokens(items[n - 1]));
    }
}

/// Distinct canonical expressions are written as distinct tokens.
proof fn lemma_tree_tokens_injective(e1: Sexp<Seq<char>>, e2: Sexp<Seq<char>>)
    requires
        canonical(e1),
        canonical(e2),
        tree_tokens(e1) == tree_tokens(e2),
    ensures
        e1 == e2,
    decreases e1, 0int,
{
    let t = tree_tokens(e1);
    match e1 {
        Sexp::List(items1) => {
            match e2 {
                Sexp::List(items2) => {
                    let f1 = items_tokens(items1).flatten();
                    let f2 = items_tokens(items2).flatten();
                    assert(f1 =~= t.subrange(1, t.len() - 1));
                    assert(f2 =~= t.subrange(1, t.len() - 1));
                    assert(items_tokens(items1).skip(0) =~= items_tokens(items1));
                    assert(items_tokens(items2).skip(0) =~= items_tokens(items2));
                    lemma_items_injective(items1, items2, 0);
                    assert(items1 =~= items1.skip(0));
                    assert(items2 =~= items2.skip(0));
                },
                _ => {
                    assert(t.len() >= 2);
                },
            }
        },
        _ => {
            if e2 is List {
                assert(tree_tokens(e2).len() >= 2);
            } else {
                assert(t[0] == atom_text(e1));
                assert(tree_tokens(e2)[0] == atom_text(e2));
            }
        },
    }
}

/// Canonical items whose tokens, from item `i` on, are the same are the
/// same items from `i` on.
proof fn lemma_items_injective(items1: Seq<Sexp<Seq<char>>>, items2: Seq<Sexp<Seq<char>>>, i: int)
    requires
        0 <= i <= items1.len(),
        0 <= i <= items2.len(),
        forall|j: int| 0 <= j < items1.len() ==> canonical(#[trigger] items1[j]),
        forall|j: int| 0 <= j < items2.len() ==> canonical(#[trigger] items2[j]),
        items_tokens(items1).skip(i).flatten() == items_tokens(items2).skip(i).flatten(),
    ensures
        items1.skip(i) == items2.skip(i),
    decreases items1, items1.len() - i,
{
    let s1 = items_tokens(items1).skip(i);
    let s2 = items_tokens(items2).skip(i);
    if i == items1.len() || i == items2.len() {
        if i < items1.len() {
            lemma_tree_tokens_complete(items1[i]);
            assert(s1.flatten() == s1[0] + s1.drop_first().flatten());
            assert(s2 =~= Seq::<Seq<Seq<char>>>::empty());
        } else if i < items2.len() {
            lemma_tree_tokens_complete(items2[i]);
            assert(s2.flatten() == s2[0] + s2.drop_first().flatten());
            assert(s1 =~= Seq::<Seq<Seq<char>>>::empty());
        }
        assert(items1.skip(i) =~= items2.skip(i));
    } else {
        let t1 = tree_tokens(items1[i]);
        let t2 = tree_tokens(items2[i]);
        lemma_tree_tokens_complete(items1[i]);
        lemma_tree_tokens_complete(items2[i]);
        let r1 = s1.drop_first().flatten();
        let r2 = s2.drop_first().flatten();
        assert(s1.flatten() == s1[0] + r1);
        assert(s2.flatten() == s2[0] + r2);
        assert(s1[0] == t1);
        assert(s2[0] == t2);
        let f = s1.flatten();
        assert(f.take(t1.len() as int) =~= t1);
        assert(f.take(t2.len() as int) =~= t2);
        lemma_expr_unique(f, t1.len() as int, t2.len() as int);
        assert(r1 =~= f.skip(t1.len() as int));
        assert(r2 =~= f.skip(t2.len() as int));
        lemma_tree_tokens_injective(items1[i], items2[i]);
        assert(s1.drop_first() =~= items_tokens(items1).skip(i + 1));
        assert(s2.drop_first() =~= items_tokens(items2).skip(i + 1));
        lemma_items_injective(items1, items2, i + 1);
        assert(items1.skip(i + 1).len() == items2.skip(i + 1).len());
        assert(items1.skip(i) =~= items2.skip(i)) by {
            assert(items1.skip(i)[0] == items2.skip(i)[0]);
            assert forall|j: int| 1 <= j < items1.skip(i).len() implies items1.skip(i)[j]
                == items2.skip(i)[j] by {
                assert(items1.skip(i)[j] == items1.skip(i + 1)[j - 1]);
                assert(items2.skip(i)[j] == items2.skip(i + 1)[j - 1]);
            }
        }
    }
}

/// At most one expression is read from the start of a token sequence, so
/// the contract of `read` determines the expression it returns.
pub proof fn lemma_reads_as_unique(ts: Seq<Seq<char>>, e1: Sexp<Seq<char>>, e2: Sexp<Seq<char>>)
    requires
        reads_as(ts, e1),
        reads_as(ts, e2),
    ensures
        e1 == e2,
{
    let n1 = tree_tokens(e1).len() as int;
    let n2 = tree_tokens(e2).len() as int;
    lemma_expr_unique(ts, n1, n2);
    lemma_tree_tokens_injective(e1, e2);
}

} // verus!
