//! A small token tree model: identifiers, punctuation, literals and delimited groups.
use vstd::prelude::*;

verus! {

/// Whether a punctuation character is joined to the punctuation that follows it.
#[derive(Clone, Copy, Debug, PartialEq, Eq, Structural)]
pub enum Spacing {
    Alone,
    Joint,
}

/// The delimiters that enclose a group of tokens.
#[derive(Clone, Copy, Debug, PartialEq, Eq, Structural)]
pub enum Delimiter {
    Parenthesis,
    Brace,
    Bracket,
    Invisible,
}

/// One token of source text.
#[derive(Debug, PartialEq, Eq)]
pub enum Token {
    Ident(String),
    Punct(char, Spacing),
    Literal(String),
    Group(Delimiter, Vec<Token>),
}

/// The mathematical value of a [`Token`].
pub enum TokenView {
    Ident(Seq<char>),
    Punct(char, Spacing),
    Literal(Seq<char>),
    Group(Delimiter, Seq<TokenView>),
}

/// The views of a sequence of tokens, element by element.
pub open spec fn views_of(ts: Seq<Token>) -> Seq<TokenView>
    decreases ts,
{
    if ts.len() == 0 {
        Seq::empty()
    } else {
        views_of(ts.drop_last()).push(ts.last().view())
    }
}

impl View for Token {
    type V = TokenView;

    open spec fn view(&self) -> TokenView
        decreases self,
    {
        match self {
            Token::Ident(s) => TokenView::Ident(s@),
            Token::Punct(c, sp) => TokenView::Punct(*c, *sp),
            Token::Literal(s) => TokenView::Literal(s@),
            Token::Group(d, ts) => TokenView::Group(*d, views_of(ts@)),
        }
    }
}

/// The views of `ts` have the same length as `ts`, and each is the view of its token.
pub proof fn lemma_views_of(ts: Seq<Token>)
    ensures
        views_of(ts).len() == ts.len(),
        forall|i: int| 0 <= i < ts.len() ==> #[trigger] views_of(ts)[i] == ts[i]@,
    decreases ts.len(),
{
    if ts.len() > 0 {
        let init = ts.drop_last();
        lemma_views_of(init);
        assert(views_of(ts) == views_of(init).push(ts.last()@));
        assert forall|i: int| 0 <= i < ts.len() implies #[trigger] views_of(ts)[i] == ts[i]@ by {
            if i < init.len() {
                assert(init[i] == ts[i]);
            }
        }
    }
}

/// Appending a token appends its view.
pub proof fn lemma_views_of_push(ts: Seq<Token>, t: Token)
    ensures
        views_of(ts.push(t)) == views_of(ts).push(t@),
{
    assert(ts.push(t).drop_last() =~= ts);
}

/// The views of a concatenation are the concatenation of the views.
pub proof fn lemma_views_of_add(a: Seq<Token>, b: Seq<Token>)
    ensures
        views_of(a + b) == views_of(a) + views_of(b),
{
    lemma_views_of(a);
    lemma_views_of(b);
    lemma_views_of(a + b);
    assert(views_of(a + b) =~= views_of(a) + views_of(b));
}

/// Two token sequences whose tokens have equal views have equal views.
pub proof fn lemma_views_of_eq(a: Seq<Token>, b: Seq<Token>)
    requires
        a.len() == b.len(),
        forall|i: int| 0 <= i < a.len() ==> #[trigger] a[i]@ == b[i]@,
    ensures
        views_of(a) == views_of(b),
{
    lemma_views_of(a);
    lemma_views_of(b);
    assert(views_of(a) =~= views_of(b));
}

impl Token {
    /// An identifier token with the given name.
    pub fn ident(name: &str) -> (r: Token)
        ensures
            r@ == TokenView::Ident(name@),
    {
        Token::Ident(name.to_owned())
    }

    /// A punctuation token.
    pub fn punct(c: char, spacing: Spacing) -> (r: Token)
        ensures
            r@ == TokenView::Punct(c, spacing),
    {
        Token::Punct(c, spacing)
    }

    /// Whether this token is the punctuation `c` joined to what follows.
    pub fn is_joint_punct(&self, c: char) -> (r: bool)
        ensures
            r == (self@ == TokenView::Punct(c, Spacing::Joint)),
    {
        match self {
            Token::Punct(x, sp) => *x == c && *sp == Spacing::Joint,
            _ => false,
        }
    }

    /// A copy of this token, groups copied all the way down.
    pub fn deep_copy(&self) -> (r: Token)
        ensures
            r@ == self@,
        decreases self,
    {
        match self {
            Token::Ident(s) => Token::Ident(s.clone()),
            Token::Punct(c, sp) => Token::Punct(*c, *sp),
            Token::Literal(s) => Token::Literal(s.clone()),
            Token::Group(d, ts) => Token::Group(*d, copy_tokens(ts)),
        }
    }
}

/// A copy of a token sequence, token by token.
pub fn copy_tokens(ts: &Vec<Token>) -> (r: Vec<Token>)
    ensures
        views_of(r@) == views_of(ts@),
    decreases ts,
{
    let mut r: Vec<Token> = Vec::new();
    let mut i: usize = 0;
    while i < ts.len()
        invariant
            i <= ts.len(),
            r@.len() == i,
            forall|j: int| 0 <= j < i ==> #[trigger] r@[j]@ == ts@[j]@,
        decreases ts.len() - i,
    {
        r.push(ts[i].deep_copy());
        i = i + 1;
    }
    proof {
        lemma_views_of_eq(r@, ts@);
    }
    r
}

/// Whether the text `s` is exactly `word`.
pub fn text_is(s: &String, word: &str) -> (r: bool)
    ensures
        r == (s@ == word@),
{
    let w = word.to_owned();
    *s == w
}

} // verus!
