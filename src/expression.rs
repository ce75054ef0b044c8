//! Parsed expression trees, borrowed and owned, and their common model.

use vstd::prelude::*;

verus! {

/// What an expression tree stands for, with symbols of type `Y`.
pub enum Sexp<Y> {
    /// A numeric literal, as written.
    Number(Seq<char>),
    Bool(bool),
    /// The text between the quotes of a string literal.
    Str(Seq<char>),
    Symbol(Y),
    List(Seq<Sexp<Y>>),
    Null,
}

/// An S-expression whose text borrows from the source it was read from.
///
/// A number keeps the literal as written in the source (for instance `-3.14`
/// or `1e3`); it is always a literal that reads as a 64-bit float.
#[derive(PartialEq, Debug)]
pub enum Expression<'a> {
    /// A numeric literal, as written.
    Number(&'a str),
    /// `true` or `false`.
    Bool(bool),
    /// A string literal, without its quotes.
    Str(&'a str),
    /// A symbol or identifier.
    Symbol(&'a str),
    /// A list of expressions.
    List(Vec<Expression<'a>>),
    /// `null`.
    Null,
}

impl<'a> Expression<'a> {
    /// The model of this expression.
    pub open spec fn model(&self) -> Sexp<Seq<char>>
        decreases self,
    {
        match self {
            Expression::Number(t) => Sexp::Number(t@),
            Expression::Bool(b) => Sexp::Bool(*b),
            Expression::Str(t) => Sexp::Str(t@),
            Expression::Symbol(t) => Sexp::Symbol(t@),
            Expression::List(v) => Sexp::List(models(v@)),
            Expression::Null => Sexp::Null,
        }
    }
}

/// The models of a sequence of expressions.
pub open spec fn models<'a>(v: Seq<Expression<'a>>) -> Seq<Sexp<Seq<char>>>
    decreases v,
{
    Seq::new(
        v.len(),
        |i: int|
            if 0 <= i < v.len() {
                v[i].model()
            } else {
                Sexp::Null
            },
    )
}

impl<'a> View for Expression<'a> {
    type V = Sexp<Seq<char>>;

    open spec fn view(&self) -> Sexp<Seq<char>> {
        self.model()
    }
}

/// A representation of symbols in owned expressions: it is built from a
/// symbol's text and written back out as text.
pub trait OwnedSymbol: Sized + View {
    /// The symbol built from `text`.
    spec fn spec_from_text(text: Seq<char>) -> Self::V;

    /// The text that the symbol `v` is written as.
    spec fn spec_text(v: Self::V) -> Seq<char>;

    /// Builds the symbol for `s`.
    fn from_str(s: &str) -> (r: Self)
        ensures
            r@ == Self::spec_from_text(s@),
    ;

    /// Writes the symbol out as text.
    fn display(&self) -> (r: String)
        ensures
            r@ == Self::spec_text(self@),
    ;
}

/// Symbols kept as their plain text.
#[derive(PartialEq, Debug, Clone)]
pub struct StringOwnedSymbol {
    pub name: String,
}

impl View for StringOwnedSymbol {
    type V = Seq<char>;

    open spec fn view(&self) -> Seq<char> {
        self.name@
    }
}

impl OwnedSymbol for StringOwnedSymbol {
    open spec fn spec_from_text(text: Seq<char>) -> Seq<char> {
        text
    }

    open spec fn spec_text(v: Seq<char>) -> Seq<char> {
        v
    }

    fn from_str(s: &str) -> (r: Self) {
        StringOwnedSymbol { name: s.to_string() }
    }

    fn display(&self) -> (r: String) {
        self.name.clone()
    }
}

/// An S-expression that owns its text, with symbols of type `S`.
#[derive(PartialEq, Debug)]
pub enum OwnedExpression<S = StringOwnedSymbol> {
    /// A numeric literal, as written.
    Number(String),
    /// `true` or `false`.
    Bool(bool),
    /// A string literal, without its quotes.
    Str(String),
    /// A symbol or identifier.
    Symbol(S),
    /// A list of expressions.
    List(Vec<OwnedExpression<S>>),
    /// `null`.
    Null,
}

impl<S: View> OwnedExpression<S> {
    /// The model of this expression.
    pub open spec fn model(&self) -> Sexp<S::V>
        decreases self,
    {
        match self {
            OwnedExpression::Number(t) => Sexp::Number(t@),
            OwnedExpression::Bool(b) => Sexp::Bool(*b),
            OwnedExpression::Str(t) => Sexp::Str(t@),
            OwnedExpression::Symbol(y) => Sexp::Symbol(y@),
            OwnedExpression::List(v) => Sexp::List(owned_models(v@)),
            OwnedExpression::Null => Sexp::Null,
        }
    }
}

/// The models of a sequence of owned expressions.
pub open spec fn owned_models<S: View>(v: Seq<OwnedExpression<S>>) -> Seq<Sexp<S::V>>
    decreases v,
{
    Seq::new(
        v.len(),
        |i: int|
            if 0 <= i < v.len() {
                v[i].model()
            } else {
                Sexp::Null
            },
    )
}

impl<S: View> View for OwnedExpression<S> {
    type V = Sexp<S::V>;

    open spec fn view(&self) -> Sexp<S::V> {
        self.model()
    }
}

/// `e` with each symbol built as an `S` from its text.
pub open spec fn with_symbols<S: OwnedSymbol>(e: Sexp<Seq<char>>) -> Sexp<S::V>
    decreases e,
{
    match e {
        Sexp::Number(t) => Sexp::Number(t),
        Sexp::Bool(b) => Sexp::Bool(b),
        Sexp::Str(t) => Sexp::Str(t),
        Sexp::Symbol(t) => Sexp::Symbol(S::spec_from_text(t)),
        Sexp::List(items) => Sexp::List(items_with_symbols::<S>(items)),
        Sexp::Null => Sexp::Null,
    }
}

/// Each of `items` with its symbols built as `S`.
pub open spec fn items_with_symbols<S: OwnedSymbol>(items: Seq<Sexp<Seq<char>>>) -> Seq<Sexp<S::V>>
    decreases items,
{
    Seq::new(
        items.len(),
        |i: int|
            if 0 <= i < items.len() {
                with_symbols::<S>(items[i])
            } else {
                Sexp::Null
            },
    )
}

impl<'a> Expression<'a> {
    /// A copy of this expression that owns its text, each symbol built as an
    /// `S` from its text.
    #[verifier::loop_isolation(false)]
    pub fn to_owned<S: OwnedSymbol>(&self) -> (r: OwnedExpression<S>)
        ensures
            r@ == with_symbols::<S>(self@),
        decreases self,
    {
        match self {
            Expression::Number(t) => OwnedExpression::Number((*t).to_string()),
            Expression::Bool(b) => OwnedExpression::Bool(*b),
            Expression::Str(t) => OwnedExpression::Str((*t).to_string()),
            Expression::Symbol(t) => OwnedExpression::Symbol(S::from_str(t)),
            Expression::List(v) => {
                let mut out: Vec<OwnedExpression<S>> = Vec::new();
                let mut i: usize = 0;
                while i < v.len()
                    invariant
                        i <= v@.len(),
                        owned_models(out@) == items_with_symbols::<S>(models(v@)).take(i as int),
                    decreases v@.len() - i,
                {
                    let item = v[i].to_owned::<S>();
                    let ghost before = out@;
                    out.push(item);
                    assert(owned_models(out@) =~= items_with_symbols::<S>(models(v@)).take(i + 1));
                    i = i + 1;
                }
                assert(items_with_symbols::<S>(models(v@)).take(v@.len() as int) =~= items_with_symbols::<S>(models(v@)));
                OwnedExpression::List(out)
            },
            Expression::Null => OwnedExpression::Null,
        }
    }
}

/// Converting to owned text with plain-text symbols keeps the expression as
/// it is: the same variant at every node, the same values, and the same items
/// in the same order.
pub proof fn lemma_to_owned_structural(e: Sexp<Seq<char>>)
    ensures
        with_symbols::<StringOwnedSymbol>(e) == e,
    decreases e,
{
    if let Sexp::List(items) = e {
        assert forall|i: int| 0 <= i < items.len() implies with_symbols::<StringOwnedSymbol>(
            #[trigger] items[i],
        ) == items[i] by {
            lemma_to_owned_structural(items[i]);
        }
        assert(items_with_symbols::<StringOwnedSymbol>(items) =~= items);
    }
}

} // verus!
