use vstd::prelude::*;

verus! {

/// The three digit placeholder characters of the format grammar.
///
/// `Zero` (`0`) pads with a zero digit, `Hash` (`#`) suppresses insignificant
/// zeros, `Question` (`?`) reserves an aligned space.  The number renderer
/// only counts placeholders, so the three kinds render alike here; the kind
/// is kept because it is part of the parsed structure of a section.
#[derive(Debug, Clone, Copy, PartialEq, Eq, Structural)]
pub enum DigitKind {
    Zero,
    Hash,
    Question,
}

/// Mathematical model of a [`Token`]: the same variants, with the directive
/// content abstracted to its character sequence.  Contracts and spec
/// functions speak of `Tok` sequences.
pub enum Tok {
    Literal(char),
    DigitPlaceholder(DigitKind),
    DecimalPoint,
    ThousandsMarker,
    Skip,
    Directive(Seq<char>),
}

/// Atomic unit of a parsed format section.
#[derive(Debug, Clone, PartialEq)]
pub enum Token {
    /// A character emitted verbatim (from an escape, a quoted run, or an
    /// otherwise unclassified character).
    Literal(char),
    /// A digit position inside the number run.
    DigitPlaceholder(DigitKind),
    /// The fractional separator position (first meaningful `.` of a section).
    DecimalPoint,
    /// A comma contiguous with digit placeholders; its presence switches on
    /// thousands grouping of the integer part.
    ThousandsMarker,
    /// A fill or spacing directive (`_x`, `*x`); consumes its companion
    /// character and emits nothing.
    Skip,
    /// Bracketed content (`[...]`, colour or locale codes), parsed and
    /// discarded.
    Directive(String),
}

impl View for Token {
    type V = Tok;

    open spec fn view(&self) -> Tok {
        match self {
            Token::Literal(c) => Tok::Literal(*c),
            Token::DigitPlaceholder(k) => Tok::DigitPlaceholder(*k),
            Token::DecimalPoint => Tok::DecimalPoint,
            Token::ThousandsMarker => Tok::ThousandsMarker,
            Token::Skip => Tok::Skip,
            Token::Directive(s) => Tok::Directive(s@),
        }
    }
}

/// One semicolon-delimited clause of a format code: an ordered token
/// sequence.  Positional order is meaningful (tokens before the digit run
/// form the prefix, tokens after it the suffix).
#[derive(Debug, Clone, PartialEq)]
pub struct Section {
    pub tokens: Vec<Token>,
}

impl View for Section {
    type V = Seq<Tok>;

    open spec fn view(&self) -> Seq<Tok> {
        toks_view(self.tokens@)
    }
}

/// The specification view of a token vector.
pub open spec fn toks_view(v: Seq<Token>) -> Seq<Tok>
    decreases v.len(),
{
    if v.len() == 0 {
        Seq::empty()
    } else {
        seq![v[0]@] + toks_view(v.skip(1))
    }
}

/// Length and elements of [`toks_view`].
pub broadcast proof fn lemma_toks_view_shape(v: Seq<Token>)
    ensures
        (#[trigger] toks_view(v)).len() == v.len(),
        forall|i: int| 0 <= i < v.len() ==> #[trigger] toks_view(v)[i] == v[i]@,
    decreases v.len(),
{
    if v.len() > 0 {
        lemma_toks_view_shape(v.skip(1));
        assert forall|i: int| 0 <= i < v.len() implies #[trigger] toks_view(v)[i] == v[i]@ by {
            if i > 0 {
                assert(toks_view(v)[i] == toks_view(v.skip(1))[i - 1]);
                assert(v.skip(1)[i - 1] == v[i]);
            }
        }
    }
}

/// Pushing a token commutes with taking views.
pub broadcast proof fn lemma_toks_view_push(v: Seq<Token>, t: Token)
    ensures
        #[trigger] toks_view(v.push(t)) == toks_view(v).push(t@),
{
    broadcast use lemma_toks_view_shape;

    assert(toks_view(v.push(t)) =~= toks_view(v).push(t@));
}

/// True of the tokens that may stand inside a digit run.
pub open spec fn is_run_tok(t: Tok) -> bool {
    match t {
        Tok::DigitPlaceholder(_) => true,
        Tok::DecimalPoint => true,
        Tok::ThousandsMarker => true,
        _ => false,
    }
}

/// True of the tokens that open a digit run.
pub open spec fn starts_run(t: Tok) -> bool {
    match t {
        Tok::DigitPlaceholder(_) => true,
        Tok::DecimalPoint => true,
        _ => false,
    }
}

} // verus!
