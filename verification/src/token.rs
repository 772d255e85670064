//! Tokens: what the tokenizer hands to the parser, each with the place in
//! the source at which it starts.

use crate::names::str_eq;
use vstd::prelude::*;
use vstd::std_specs::cmp::PartialEqSpecImpl;
use vstd::string::StringSliceAdditionalSpecFns;

verus! {

/// A word that opens a declaration, by its place in the table of such words.
#[derive(Clone, Copy, PartialEq, Eq, Structural, Debug)]
pub struct Header(pub u16);

/// A keyword or a piece of punctuation, by its place in the table of keys.
#[derive(Clone, Copy, PartialEq, Eq, Structural, Debug)]
pub struct Key(pub u16);

/// A literal that is written out in the source.
#[derive(Clone, Copy, PartialEq, Eq, Structural, Debug)]
pub enum Inlined {
    Int(i64),
    Bool(bool),
    Nothing,
}

/// An operator, by its place in the table of operators.
#[derive(Clone, Copy, PartialEq, Eq, Structural, Debug)]
pub struct Operator(pub u16);

/// The type that a parameter was annotated with, by its place in the table
/// of types.
#[derive(Clone, Copy, PartialEq, Eq, Structural, Debug)]
pub struct Type(pub u32);

/// What earlier passes have noted of a token.
#[derive(Clone, Copy, PartialEq, Eq, Structural, Debug)]
pub struct Flag(pub u8);

impl Default for Flag {
    fn default() -> (r: Flag)
        ensures
            r == Flag(0),
    {
        Flag(0)
    }
}

/// A token without its place in the source.
#[derive(Debug)]
pub enum RawToken {
    Identifier(String),
    Header(Header),
    Key(Key),
    Inlined(Inlined),
    Group(Vec<Token>),
    Operation(Box<(Token, Token)>, Operator),
    Parameterized(String, Vec<Token>),
    Parameter(usize, Type),
    Operator(Operator),
    NewLine,
}

/// A token and the index in the source at which it starts.
#[derive(Debug)]
pub struct Token {
    pub source_index: usize,
    pub flags: Flag,
    pub inner: RawToken,
}

impl Token {
    /// The token `inner` found at `source_index`.
    pub fn new(inner: RawToken, source_index: usize) -> (r: Token)
        ensures
            r.source_index == source_index,
            r.flags == Flag(0),
            r.inner == inner,
    {
        Token { source_index, flags: Flag::default(), inner }
    }

    /// The same token at another place.
    pub fn with_source_index(self, source_index: usize) -> (r: Token)
        ensures
            r.source_index == source_index,
            r.flags == self.flags,
            r.inner == self.inner,
    {
        Token { source_index, flags: self.flags, inner: self.inner }
    }

    /// A token that stands at no place in particular.
    pub fn untracked(t: RawToken) -> (r: Token)
        ensures
            r.source_index == 0,
            r.flags == Flag(0),
            r.inner == t,
    {
        Token { source_index: 0, flags: Flag::default(), inner: t }
    }

    /// The tokens `vec` as one token found at `source_index`.
    pub fn group(vec: Vec<Token>, source_index: usize) -> (r: Token)
        ensures
            r.source_index == source_index,
            r.flags == Flag(0),
            r.inner == RawToken::Group(vec),
    {
        Token { source_index, flags: Flag::default(), inner: RawToken::Group(vec) }
    }
}

/// A token without the places at which it and its parts stand: what two
/// tokens must share to be equal.
pub ghost enum Lexeme {
    Identifier(Seq<char>),
    Header(Header),
    Key(Key),
    Inlined(Inlined),
    Group(Seq<Lexeme>),
    Operation(Box<Lexeme>, Box<Lexeme>, Operator),
    Parameterized(Seq<char>, Seq<Lexeme>),
    Parameter(usize, Type),
    Operator(Operator),
    NewLine,
}

/// The tokens of a group without their places.
pub open spec fn lexemes(tokens: Vec<Token>) -> Seq<Lexeme>
    decreases tokens, 0nat,
{
    Seq::new(
        tokens.len() as nat,
        |i: int|
            if 0 <= i < tokens.len() {
                tokens[i].inner.model()
            } else {
                arbitrary()
            },
    )
}

impl RawToken {
    pub open spec fn model(&self) -> Lexeme
        decreases self, 1nat,
    {
        match self {
            RawToken::Identifier(name) => Lexeme::Identifier(name@),
            RawToken::Header(header) => Lexeme::Header(*header),
            RawToken::Key(key) => Lexeme::Key(*key),
            RawToken::Inlined(inlined) => Lexeme::Inlined(*inlined),
            RawToken::Group(tokens) => Lexeme::Group(lexemes(*tokens)),
            RawToken::Operation(sides, operator) => Lexeme::Operation(
                Box::new(sides.0.inner.model()),
                Box::new(sides.1.inner.model()),
                *operator,
            ),
            RawToken::Parameterized(name, tokens) => Lexeme::Parameterized(
                name@,
                lexemes(*tokens),
            ),
            RawToken::Parameter(n, ty) => Lexeme::Parameter(*n, *ty),
            RawToken::Operator(operator) => Lexeme::Operator(*operator),
            RawToken::NewLine => Lexeme::NewLine,
        }
    }

    /// Whether two tokens are the same but for where they and their parts
    /// stand in the source.
    pub fn same(&self, other: &RawToken) -> (r: bool)
        ensures
            r == (self@ == other@),
        decreases self, 1nat,
    {
        match (self, other) {
            (RawToken::Identifier(a), RawToken::Identifier(b)) => str_eq(a.as_str(), b.as_str()),
            (RawToken::Header(a), RawToken::Header(b)) => *a == *b,
            (RawToken::Key(a), RawToken::Key(b)) => *a == *b,
            (RawToken::Inlined(a), RawToken::Inlined(b)) => *a == *b,
            (RawToken::Group(a), RawToken::Group(b)) => same_all(a, b),
            (RawToken::Operation(a, op), RawToken::Operation(b, other_op)) => {
                *op == *other_op && a.0.inner.same(&b.0.inner) && a.1.inner.same(&b.1.inner)
            },
            (RawToken::Parameterized(a, params), RawToken::Parameterized(b, other_params)) => {
                str_eq(a.as_str(), b.as_str()) && same_all(params, other_params)
            },
            (RawToken::Parameter(n, ty), RawToken::Parameter(m, other_ty)) => {
                *n == *m && *ty == *other_ty
            },
            (RawToken::Operator(a), RawToken::Operator(b)) => *a == *b,
            (RawToken::NewLine, RawToken::NewLine) => true,
            _ => false,
        }
    }
}

/// Whether two rows of tokens are the same, token by token, but for where
/// the tokens stand.
pub fn same_all(a: &Vec<Token>, b: &Vec<Token>) -> (r: bool)
    ensures
        r == (lexemes(*a) == lexemes(*b)),
    decreases a, 0nat,
{
    if a.len() != b.len() {
        assert(lexemes(*a).len() != lexemes(*b).len());
        return false;
    }
    let mut i: usize = 0;
    while i < a.len()
        invariant
            i <= a.len(),
            a.len() == b.len(),
            forall|j: int| 0 <= j < i ==> (#[trigger] a[j]).inner@ == b[j].inner@,
        decreases a.len() - i,
    {
        proof {
            broadcast use vstd::std_specs::vec::axiom_vec_index_decreases;

            assert(decreases_to!(*a => a[i as int]));
        }
        if !a[i].inner.same(&b[i].inner) {
            assert(lexemes(*a)[i as int] != lexemes(*b)[i as int]);
            return false;
        }
        i += 1;
    }
    assert(lexemes(*a) =~= lexemes(*b));
    true
}

/// Whether two rows of tokens are the same, token by token, places
/// included.
pub open spec fn twins(a: Vec<Token>, b: Vec<Token>) -> bool
    decreases a, 0nat,
{
    a.len() == b.len() && forall|i: int| 0 <= i < a.len() ==> (#[trigger] a[i]).twin(b[i])
}

impl Token {
    /// Whether two tokens are the same, their places and those of their
    /// parts included.
    pub open spec fn twin(&self, other: Token) -> bool
        decreases self, 2nat,
    {
        self.source_index == other.source_index && self.flags == other.flags
            && self.inner.twin(other.inner)
    }

    /// A copy of the token.
    pub fn duplicate(&self) -> (r: Token)
        ensures
            self.twin(r),
        decreases self, 2nat,
    {
        Token { source_index: self.source_index, flags: self.flags, inner: self.inner.duplicate() }
    }
}

impl RawToken {
    /// Whether two tokens are the same, the places of their parts included.
    pub open spec fn twin(&self, other: RawToken) -> bool
        decreases self, 1nat,
    {
        match (self, other) {
            (RawToken::Identifier(a), RawToken::Identifier(b)) => a@ == b@,
            (RawToken::Header(a), RawToken::Header(b)) => a == b,
            (RawToken::Key(a), RawToken::Key(b)) => a == b,
            (RawToken::Inlined(a), RawToken::Inlined(b)) => a == b,
            (RawToken::Group(a), RawToken::Group(b)) => twins(*a, b),
            (RawToken::Operation(a, op), RawToken::Operation(b, other_op)) => {
                a.0.twin(b.0) && a.1.twin(b.1) && op == other_op
            },
            (RawToken::Parameterized(a, params), RawToken::Parameterized(b, other_params)) => {
                a@ == b@ && twins(*params, other_params)
            },
            (RawToken::Parameter(n, ty), RawToken::Parameter(m, other_ty)) => {
                n == m && ty == other_ty
            },
            (RawToken::Operator(a), RawToken::Operator(b)) => a == b,
            (RawToken::NewLine, RawToken::NewLine) => true,
            _ => false,
        }
    }

    /// A copy of the token.
    pub fn duplicate(&self) -> (r: RawToken)
        ensures
            self.twin(r),
        decreases self, 1nat,
    {
        match self {
            RawToken::Identifier(name) => RawToken::Identifier(name.clone()),
            RawToken::Header(header) => RawToken::Header(*header),
            RawToken::Key(key) => RawToken::Key(*key),
            RawToken::Inlined(inlined) => RawToken::Inlined(*inlined),
            RawToken::Group(tokens) => RawToken::Group(copies(tokens)),
            RawToken::Operation(sides, operator) => RawToken::Operation(
                Box::new((sides.0.duplicate(), sides.1.duplicate())),
                *operator,
            ),
            RawToken::Parameterized(name, tokens) => RawToken::Parameterized(
                name.clone(),
                copies(tokens),
            ),
            RawToken::Parameter(n, ty) => RawToken::Parameter(*n, *ty),
            RawToken::Operator(operator) => RawToken::Operator(*operator),
            RawToken::NewLine => RawToken::NewLine,
        }
    }
}

/// A copy of a row of tokens.
pub fn copies(tokens: &Vec<Token>) -> (r: Vec<Token>)
    ensures
        twins(*tokens, r),
    decreases tokens, 0nat,
{
    let mut out: Vec<Token> = Vec::new();
    let mut i: usize = 0;
    while i < tokens.len()
        invariant
            i <= tokens.len(),
            out.len() == i,
            forall|j: int| 0 <= j < i ==> (#[trigger] tokens[j]).twin(out[j]),
        decreases tokens.len() - i,
    {
        proof {
            broadcast use vstd::std_specs::vec::axiom_vec_index_decreases;

            assert(decreases_to!(*tokens => tokens[i as int]));
        }
        let copy = tokens[i].duplicate();
        out.push(copy);
        i += 1;
    }
    out
}

impl Clone for RawToken {
    fn clone(&self) -> (r: RawToken)
        ensures
            self.twin(r),
    {
        self.duplicate()
    }
}

impl Clone for Token {
    fn clone(&self) -> (r: Token)
        ensures
            self.twin(r),
    {
        self.duplicate()
    }
}

/// Twins are equal: what is the same with its places is the same without.
pub proof fn lemma_twins_are_equal(a: Token, b: Token)
    requires
        a.twin(b),
    ensures
        a@ == b@,
    decreases a, 2nat,
{
    lemma_raw_twins_are_equal(a.inner, b.inner);
}

/// Twins are equal, for tokens without a place of their own.
pub proof fn lemma_raw_twins_are_equal(a: RawToken, b: RawToken)
    requires
        a.twin(b),
    ensures
        a@ == b@,
    decreases a, 1nat,
{
    match (a, b) {
        (RawToken::Group(x), RawToken::Group(y)) => lemma_rows_of_twins_are_equal(x, y),
        (RawToken::Operation(x, _), RawToken::Operation(y, _)) => {
            lemma_twins_are_equal(x.0, y.0);
            lemma_twins_are_equal(x.1, y.1);
        },
        (RawToken::Parameterized(_, x), RawToken::Parameterized(_, y)) => {
            lemma_rows_of_twins_are_equal(x, y)
        },
        _ => {},
    }
}

/// Rows of twins are equal.
pub proof fn lemma_rows_of_twins_are_equal(a: Vec<Token>, b: Vec<Token>)
    requires
        twins(a, b),
    ensures
        lexemes(a) == lexemes(b),
    decreases a, 0nat,
{
    assert forall|i: int| 0 <= i < a.len() implies lexemes(a)[i] == lexemes(b)[i] by {
        broadcast use vstd::std_specs::vec::axiom_vec_index_decreases;

        assert(a[i].twin(b[i]));
        lemma_twins_are_equal(a[i], b[i]);
    }
    assert(lexemes(a) =~= lexemes(b));
}

impl View for RawToken {
    type V = Lexeme;

    open spec fn view(&self) -> Lexeme {
        self.model()
    }
}

impl View for Token {
    type V = Lexeme;

    open spec fn view(&self) -> Lexeme {
        self.inner.model()
    }
}

impl PartialEq for RawToken {
    fn eq(&self, other: &RawToken) -> (r: bool) {
        self.same(other)
    }
}

impl PartialEqSpecImpl for RawToken {
    open spec fn obeys_eq_spec() -> bool {
        true
    }

    open spec fn eq_spec(&self, other: &RawToken) -> bool {
        self@ == other@
    }
}

impl PartialEq for Token {
    fn eq(&self, other: &Token) -> (r: bool) {
        self.inner.same(&other.inner)
    }
}

impl PartialEqSpecImpl for Token {
    open spec fn obeys_eq_spec() -> bool {
        true
    }

    open spec fn eq_spec(&self, other: &Token) -> bool {
        self@ == other@
    }
}

/// Whether a byte may stand in an identifier: a lower-case letter or an
/// underscore.
pub open spec fn allowed(byte: u8) -> bool {
    (0x61 <= byte <= 0x7a) || byte == 0x5f
}

/// Whether every byte of `ident` may stand in an identifier.
pub fn is_valid_identifier(ident: &str) -> (r: bool)
    ensures
        r == forall|i: int|
            0 <= i < ident.spec_bytes().len() ==> allowed(#[trigger] ident.spec_bytes()[i]),
{
    let bytes = ident.as_bytes();
    let mut i: usize = 0;
    while i < bytes.len()
        invariant
            i <= bytes.len(),
            bytes@ == ident.spec_bytes(),
            forall|k: int| 0 <= k < i ==> allowed(#[trigger] bytes@[k]),
        decreases bytes.len() - i,
    {
        let c = bytes[i];
        if !((0x61 <= c && c <= 0x7a) || c == 0x5f) {
            assert(!allowed(ident.spec_bytes()[i as int]));
            return false;
        }
        i += 1;
    }
    true
}

} // verus!
