use vstd::prelude::*;

verus! {

/// Identifier of a built-in function: its position in the function registry.
pub type FunctionId = usize;

/// A decimal numeric literal: `magnitude / 10^scale`, negated when `negative`.
#[derive(Clone, Copy, Debug, PartialEq, Eq, Structural)]
pub struct Number {
    pub negative: bool,
    pub magnitude: u64,
    pub scale: u32,
}

/// Selector over stack positions, counted from the top of the stack (top = 0).
#[derive(Clone, Copy, Debug, PartialEq, Eq, Structural)]
pub enum Range {
    /// The single value at position `i`.
    Exact(usize),
    /// Positions `0` up to, but excluding, the bound (`..i`).
    From(usize),
    /// Positions from the bound to the bottom of the stack (`i..`).
    To(usize),
    /// Positions `start` through `end`, both included (`start..=end`).
    Full(usize, usize),
}

/// The value flowing through every stage of the pipeline.
#[derive(Debug, PartialEq)]
pub enum Token {
    Value(Number),
    Char(char),
    Group(Vec<Token>),
    Atom(String),
    Container(String),
    Function(FunctionId),
    FunctionLiteral(FunctionId),
    Parameter(Range),
    Special(String),
}

/// The mathematical value of a token: groups become sequences of values.
pub enum TokenV {
    Value(Number),
    Char(char),
    Group(Seq<TokenV>),
    Atom(Seq<char>),
    Container(Seq<char>),
    Function(FunctionId),
    FunctionLiteral(FunctionId),
    Parameter(Range),
    Special(Seq<char>),
}

pub open spec fn token_view(t: Token) -> TokenV
    decreases t,
{
    match t {
        Token::Value(n) => TokenV::Value(n),
        Token::Char(c) => TokenV::Char(c),
        Token::Group(g) => TokenV::Group(
            Seq::new(
                g@.len(),
                |i: int|
                    if 0 <= i < g@.len() {
                        token_view(g@[i])
                    } else {
                        TokenV::Char(' ')
                    },
            ),
        ),
        Token::Atom(s) => TokenV::Atom(s@),
        Token::Container(s) => TokenV::Container(s@),
        Token::Function(f) => TokenV::Function(f),
        Token::FunctionLiteral(f) => TokenV::FunctionLiteral(f),
        Token::Parameter(r) => TokenV::Parameter(r),
        Token::Special(s) => TokenV::Special(s@),
    }
}

impl View for Token {
    type V = TokenV;

    open spec fn view(&self) -> TokenV {
        token_view(*self)
    }
}

/// The values of a sequence of tokens.
pub open spec fn tokens_view(s: Seq<Token>) -> Seq<TokenV> {
    s.map_values(|t: Token| t@)
}

/// Copies a token, nested groups included.
pub fn copy_token(t: &Token) -> (r: Token)
    ensures
        r@ == t@,
    decreases t,
{
    match t {
        Token::Value(n) => Token::Value(*n),
        Token::Char(c) => Token::Char(*c),
        Token::Group(g) => {
            let mut out: Vec<Token> = Vec::new();
            let mut i: usize = 0;
            while i < g.len()
                invariant
                    i <= g@.len(),
                    *t == Token::Group(*g),
                    out@.len() == i,
                    forall|j: int| 0 <= j < i ==> (#[trigger] out@[j])@ == g@[j]@,
                decreases g@.len() - i,
            {
                proof {
                    broadcast use vstd::std_specs::vec::axiom_vec_index_decreases;
                    assert(decreases_to!(*g => g@[i as int]));
                    assert(decreases_to!(*t => t->Group_0));
                    assert(t->Group_0 == *g);
                    assert(decreases_to!(*t => g@[i as int]));
                }
                out.push(copy_token(&g[i]));
                i = i + 1;
            }
            proof {
                let va = token_view(Token::Group(out));
                let vb = token_view(*t);
                assert(va->Group_0 =~= vb->Group_0);
            }
            Token::Group(out)
        },
        Token::Atom(s) => Token::Atom(s.clone()),
        Token::Container(s) => Token::Container(s.clone()),
        Token::Function(f) => Token::Function(*f),
        Token::FunctionLiteral(f) => Token::FunctionLiteral(*f),
        Token::Parameter(r) => Token::Parameter(*r),
        Token::Special(s) => Token::Special(s.clone()),
    }
}

pub proof fn lemma_char_view(c: char)
    ensures
        token_view(Token::Char(c)) == TokenV::Char(c),
{
}

/// A group's value is the sequence of its members' values.
pub proof fn lemma_group_view(v: Vec<Token>)
    ensures
        token_view(Token::Group(v)) == TokenV::Group(tokens_view(v@)),
{
    assert(token_view(Token::Group(v))->Group_0 =~= tokens_view(v@));
}

/// Appends copies of `v[lo..hi]` to `out`.
pub fn extend_copies(out: &mut Vec<Token>, v: &Vec<Token>, lo: usize, hi: usize)
    requires
        lo <= hi <= v@.len(),
    ensures
        tokens_view(final(out)@) == tokens_view(old(out)@) + tokens_view(v@).subrange(lo as int, hi as int),
{
    let mut i: usize = lo;
    while i < hi
        invariant
            lo <= i <= hi <= v@.len(),
            tokens_view(out@) == tokens_view(old(out)@) + tokens_view(v@).subrange(lo as int, i as int),
        decreases hi - i,
    {
        let t = copy_token(&v[i]);
        let ghost prev = out@;
        out.push(t);
        assert(tokens_view(out@) =~= tokens_view(prev).push(v@[i as int]@));
        i = i + 1;
        assert(tokens_view(out@) =~= tokens_view(old(out)@) + tokens_view(v@).subrange(lo as int, i as int));
    }
}

/// The character token for `c`.
pub fn char_token(c: char) -> (t: Token)
    ensures
        t == Token::Char(c),
{
    Token::Char(c)
}

impl Clone for Token {
    fn clone(&self) -> (r: Self)
        ensures
            r@ == self@,
    {
        copy_token(self)
    }
}

/// The symbol that marks a line's leading or trailing active element.
#[derive(Clone, Debug, PartialEq)]
pub enum WFuncVariant {
    Function(FunctionId),
    Container(String),
}

/// One program line: the container it binds, if any, and its tokens.
#[derive(Debug, PartialEq)]
pub struct WSection {
    pub container: Option<String>,
    pub code: Vec<Token>,
}

} // verus!
