//! The section parser: splits a format code on top-level semicolons and
//! tokenizes each section.
//!
//! The grammar is given once, as recursive specification functions
//! ([`spec_split`], [`spec_tokenize`], [`spec_parse`]); the executable
//! parser is proved to return exactly that reading.  Classification of each
//! character is a pure function of its local context, so re-parsing the
//! same code always yields the same sections.

use vstd::prelude::*;
use crate::error::FormatError;
use crate::text::{
    spec_find, str_chars, chars_to_string, lemma_spec_find, lemma_find_exact, lemma_find_none,
};
use crate::token::{DigitKind, Section, Tok, Token, toks_view, lemma_toks_view_shape, lemma_toks_view_push};

verus! {

/// A digit placeholder character.
pub open spec fn is_placeholder_char(c: char) -> bool {
    c == '#' || c == '0' || c == '?'
}

/// A comma reads as a thousands marker exactly when a digit placeholder
/// character stands directly before or after it in the raw section text;
/// any other comma is a literal.
pub open spec fn comma_is_marker(s: Seq<char>, i: int) -> bool {
    ||| (i > 0 && is_placeholder_char(s[i - 1]))
    ||| (i + 1 < s.len() && is_placeholder_char(s[i + 1]))
}

/// The literal token for one character.
pub open spec fn lit_tok(c: char) -> Tok {
    Tok::Literal(c)
}

/// The directive token for a bracketed content.
pub open spec fn dir_tok(content: Seq<char>) -> Tok {
    Tok::Directive(content)
}

/// One literal token per character.
pub open spec fn literals_of(s: Seq<char>) -> Seq<Tok>
    decreases s.len(),
{
    if s.len() == 0 {
        Seq::empty()
    } else {
        seq![lit_tok(s[0])] + literals_of(s.skip(1))
    }
}

/// The specification view of a section vector.
pub open spec fn sections_view(v: Seq<Section>) -> Seq<Seq<Tok>>
    decreases v.len(),
{
    if v.len() == 0 {
        Seq::empty()
    } else {
        seq![v[0]@] + sections_view(v.skip(1))
    }
}

/// The specification view of a vector of character vectors.
pub open spec fn parts_view(v: Seq<Vec<char>>) -> Seq<Seq<char>>
    decreases v.len(),
{
    if v.len() == 0 {
        Seq::empty()
    } else {
        seq![v[0]@] + parts_view(v.skip(1))
    }
}

/// The specification view of a vector of strings.
pub open spec fn strings_view(v: Seq<String>) -> Seq<Seq<char>>
    decreases v.len(),
{
    if v.len() == 0 {
        Seq::empty()
    } else {
        seq![v[0]@] + strings_view(v.skip(1))
    }
}

/// Length and elements of [`literals_of`].
pub broadcast proof fn lemma_literals_shape(s: Seq<char>)
    ensures
        (#[trigger] literals_of(s)).len() == s.len(),
        forall|i: int| 0 <= i < s.len() ==> #[trigger] literals_of(s)[i] == lit_tok(s[i]),
    decreases s.len(),
{
    if s.len() > 0 {
        lemma_literals_shape(s.skip(1));
        assert forall|i: int| 0 <= i < s.len() implies #[trigger] literals_of(s)[i]
            == lit_tok(s[i]) by {
            if i > 0 {
                assert(literals_of(s)[i] == literals_of(s.skip(1))[i - 1]);
                assert(s.skip(1)[i - 1] == s[i]);
            }
        }
    }
}

/// Length and elements of [`sections_view`].
pub broadcast proof fn lemma_sections_view_shape(v: Seq<Section>)
    ensures
        (#[trigger] sections_view(v)).len() == v.len(),
        forall|i: int| 0 <= i < v.len() ==> #[trigger] sections_view(v)[i] == v[i]@,
    decreases v.len(),
{
    if v.len() > 0 {
        lemma_sections_view_shape(v.skip(1));
        assert forall|i: int| 0 <= i < v.len() implies #[trigger] sections_view(v)[i]
            == v[i]@ by {
            if i > 0 {
                assert(sections_view(v)[i] == sections_view(v.skip(1))[i - 1]);
                assert(v.skip(1)[i - 1] == v[i]);
            }
        }
    }
}

/// Length and elements of [`parts_view`].
pub broadcast proof fn lemma_parts_view_shape(v: Seq<Vec<char>>)
    ensures
        (#[trigger] parts_view(v)).len() == v.len(),
        forall|i: int| 0 <= i < v.len() ==> #[trigger] parts_view(v)[i] == v[i]@,
    decreases v.len(),
{
    if v.len() > 0 {
        lemma_parts_view_shape(v.skip(1));
        assert forall|i: int| 0 <= i < v.len() implies #[trigger] parts_view(v)[i] == v[i]@ by {
            if i > 0 {
                assert(parts_view(v)[i] == parts_view(v.skip(1))[i - 1]);
                assert(v.skip(1)[i - 1] == v[i]);
            }
        }
    }
}

/// Length and elements of [`strings_view`].
pub broadcast proof fn lemma_strings_view_shape(v: Seq<String>)
    ensures
        (#[trigger] strings_view(v)).len() == v.len(),
        forall|i: int| 0 <= i < v.len() ==> #[trigger] strings_view(v)[i] == v[i]@,
    decreases v.len(),
{
    if v.len() > 0 {
        lemma_strings_view_shape(v.skip(1));
        assert forall|i: int| 0 <= i < v.len() implies #[trigger] strings_view(v)[i]
            == v[i]@ by {
            if i > 0 {
                assert(strings_view(v)[i] == strings_view(v.skip(1))[i - 1]);
                assert(v.skip(1)[i - 1] == v[i]);
            }
        }
    }
}

/// Pushing a section commutes with taking views.
pub broadcast proof fn lemma_sections_view_push(v: Seq<Section>, sec: Section)
    ensures
        #[trigger] sections_view(v.push(sec)) == sections_view(v).push(sec@),
{
    broadcast use lemma_sections_view_shape;

    assert(sections_view(v.push(sec)) =~= sections_view(v).push(sec@));
}

/// The token reading of section text `s` from position `i` on; `seen_dot`
/// records whether the section's meaningful decimal point was already read
/// (later points are literal).
///
/// - `\X` is a literal `X`; a trailing `\` is a dangling escape.
/// - `"…"` is one literal per enclosed character; unterminated is an
///   unbalanced quote.
/// - `[…]` is a directive, content kept but never rendered; unterminated is
///   an unbalanced bracket.
/// - `#`, `0`, `?` are digit placeholders; the first `.` is the decimal
///   point; a comma beside a placeholder is a thousands marker.
/// - `_X` and `*X` are fill directives that consume their companion.
/// - Every other character, whitespace and parentheses included, is itself
///   a literal.
pub open spec fn spec_tokenize(s: Seq<char>, i: int, seen_dot: bool) -> Result<
    Seq<Tok>,
    FormatError,
>
    decreases s.len() - i,
{
    if i < 0 || i >= s.len() {
        Ok(Seq::empty())
    } else {
        let c = s[i];
        if c == '\\' {
            if i + 1 >= s.len() {
                Err(FormatError::DanglingEscape)
            } else {
                match spec_tokenize(s, i + 2, seen_dot) {
                    Ok(rest) => Ok(seq![lit_tok(s[i + 1])] + rest),
                    Err(e) => Err(e),
                }
            }
        } else if c == '"' {
            match spec_find(s, i + 1, '"') {
                None => Err(FormatError::UnbalancedQuote),
                Some(j) => {
                    proof {
                        lemma_spec_find(s, i + 1, '"');
                    }
                    match spec_tokenize(s, j + 1, seen_dot) {
                        Ok(rest) => Ok(literals_of(s.subrange(i + 1, j)) + rest),
                        Err(e) => Err(e),
                    }
                },
            }
        } else if c == '[' {
            match spec_find(s, i + 1, ']') {
                None => Err(FormatError::UnbalancedBracket),
                Some(j) => {
                    proof {
                        lemma_spec_find(s, i + 1, ']');
                    }
                    match spec_tokenize(s, j + 1, seen_dot) {
                        Ok(rest) => Ok(seq![dir_tok(s.subrange(i + 1, j))] + rest),
                        Err(e) => Err(e),
                    }
                },
            }
        } else if c == '#' {
            match spec_tokenize(s, i + 1, seen_dot) {
                Ok(rest) => Ok(seq![Tok::DigitPlaceholder(DigitKind::Hash)] + rest),
                Err(e) => Err(e),
            }
        } else if c == '0' {
            match spec_tokenize(s, i + 1, seen_dot) {
                Ok(rest) => Ok(seq![Tok::DigitPlaceholder(DigitKind::Zero)] + rest),
                Err(e) => Err(e),
            }
        } else if c == '?' {
            match spec_tokenize(s, i + 1, seen_dot) {
                Ok(rest) => Ok(seq![Tok::DigitPlaceholder(DigitKind::Question)] + rest),
                Err(e) => Err(e),
            }
        } else if c == '.' {
            match spec_tokenize(s, i + 1, true) {
                Ok(rest) => Ok(
                    seq![
                        if seen_dot {
                            lit_tok('.')
                        } else {
                            Tok::DecimalPoint
                        },
                    ] + rest,
                ),
                Err(e) => Err(e),
            }
        } else if c == ',' {
            match spec_tokenize(s, i + 1, seen_dot) {
                Ok(rest) => Ok(
                    seq![
                        if comma_is_marker(s, i) {
                            Tok::ThousandsMarker
                        } else {
                            lit_tok(',')
                        },
                    ] + rest,
                ),
                Err(e) => Err(e),
            }
        } else if c == '_' || c == '*' {
            // the companion character is consumed; a trailing fill mark
            // simply ends the section
            let nxt = if i + 2 <= s.len() {
                i + 2
            } else {
                s.len() as int
            };
            match spec_tokenize(s, nxt, seen_dot) {
                Ok(rest) => Ok(seq![Tok::Skip] + rest),
                Err(e) => Err(e),
            }
        } else {
            match spec_tokenize(s, i + 1, seen_dot) {
                Ok(rest) => Ok(seq![lit_tok(c)] + rest),
                Err(e) => Err(e),
            }
        }
    }
}

/// Prepends tokens to a tokenizer outcome.
pub open spec fn combine(prefix: Seq<Tok>, r: Result<Seq<Tok>, FormatError>) -> Result<
    Seq<Tok>,
    FormatError,
> {
    match r {
        Ok(rest) => Ok(prefix + rest),
        Err(e) => Err(e),
    }
}

/// The split of `s` into section texts from position `i` on: semicolons
/// split only at top level (`inq` tracks an open quoted run), and `start`
/// marks where the current section text began.
pub open spec fn spec_split(s: Seq<char>, i: int, start: int, inq: bool) -> Seq<Seq<char>>
    decreases s.len() - i,
{
    if i < 0 || i >= s.len() {
        seq![s.subrange(start, s.len() as int)]
    } else if s[i] == '"' {
        spec_split(s, i + 1, start, !inq)
    } else if s[i] == ';' && !inq {
        seq![s.subrange(start, i)] + spec_split(s, i + 1, i + 1, false)
    } else {
        spec_split(s, i + 1, start, inq)
    }
}

/// The section texts of a format code.
pub open spec fn spec_sections(s: Seq<char>) -> Seq<Seq<char>> {
    spec_split(s, 0, 0, false)
}

/// A split yields at least one section text.
pub proof fn lemma_split_nonempty(s: Seq<char>, i: int, start: int, inq: bool)
    ensures
        spec_split(s, i, start, inq).len() >= 1,
    decreases s.len() - i,
{
    if !(i < 0 || i >= s.len()) {
        if s[i] == '"' {
            lemma_split_nonempty(s, i + 1, start, !inq);
        } else if s[i] == ';' && !inq {
        } else {
            lemma_split_nonempty(s, i + 1, start, inq);
        }
    }
}

/// The token reading of every section text, first failure first.
pub open spec fn spec_tokenize_all(parts: Seq<Seq<char>>, idx: int) -> Result<
    Seq<Seq<Tok>>,
    FormatError,
>
    decreases parts.len() - idx,
{
    if idx < 0 || idx >= parts.len() {
        Ok(Seq::empty())
    } else {
        match spec_tokenize(parts[idx], 0, false) {
            Err(e) => Err(e),
            Ok(toks) => match spec_tokenize_all(parts, idx + 1) {
                Err(e) => Err(e),
                Ok(rest) => Ok(seq![toks] + rest),
            },
        }
    }
}

/// The full reading of a format code: its section texts, each tokenized.
pub open spec fn spec_parse(s: Seq<char>) -> Result<Seq<Seq<Tok>>, FormatError> {
    spec_tokenize_all(spec_sections(s), 0)
}

/// The parser is deterministic: the reading depends on the format code
/// text alone, so re-parsing the same code yields identical sections.
pub proof fn lemma_parse_deterministic(s1: Seq<char>, s2: Seq<char>)
    requires
        s1 == s2,
    ensures
        spec_parse(s1) == spec_parse(s2),
{
}

/// Splits a format code into its section texts, semicolons inside quoted
/// runs splitting nothing.
fn split_chars(chars: &Vec<char>) -> (parts: Vec<Vec<char>>)
    ensures
        parts_view(parts@) == spec_sections(chars@),
{
    broadcast use lemma_parts_view_shape;

    let ghost s = chars@;
    let n = chars.len();
    let mut parts: Vec<Vec<char>> = Vec::new();
    let mut cur: Vec<char> = Vec::new();
    let mut i: usize = 0;
    let mut inq: bool = false;
    let ghost mut start: int = 0;
    while i < n
        invariant
            0 <= start <= i <= n,
            n == s.len(),
            s == chars@,
            cur@ =~= s.subrange(start, i as int),
            spec_split(s, 0, 0, false) == parts_view(parts@) + spec_split(
                s,
                i as int,
                start,
                inq,
            ),
        decreases n - i,
    {
        broadcast use lemma_parts_view_shape;

        let c: char = chars[i];
        if c == '"' {
            cur.push(c);
            proof {
                assert(cur@ =~= s.subrange(start, i as int + 1));
            }
            inq = !inq;
        } else if c == ';' && !inq {
            let ghost old_parts = parts@;
            parts.push(cur);
            cur = Vec::new();
            proof {
                assert(parts_view(parts@) =~= parts_view(old_parts) + seq![s.subrange(start, i as int)]);
                assert(parts_view(old_parts) + (seq![
                    s.subrange(start, i as int),
                ] + spec_split(s, i as int + 1, i as int + 1, false)) =~= (parts_view(old_parts)
                    + seq![s.subrange(start, i as int)]) + spec_split(
                    s,
                    i as int + 1,
                    i as int + 1,
                    false,
                ));
                start = i as int + 1;
                assert(cur@ =~= s.subrange(start, i as int + 1));
            }
        } else {
            cur.push(c);
            proof {
                assert(cur@ =~= s.subrange(start, i as int + 1));
            }
        }
        i += 1;
    }
    let ghost old_parts = parts@;
    parts.push(cur);
    proof {
        assert(cur@ =~= s.subrange(start, n as int));
        assert(parts_view(parts@) =~= parts_view(old_parts)
            + seq![s.subrange(start, n as int)]);
    }
    parts
}

/// The section texts of a format code, split on top-level semicolons only:
/// a semicolon inside a double-quoted run does not split.
pub fn split_format_sections(format_code: &str) -> (sections: Vec<String>)
    ensures
        strings_view(sections@) == spec_sections(format_code@),
{
    broadcast use lemma_parts_view_shape, lemma_strings_view_shape;

    let chars = str_chars(format_code);
    let parts = split_chars(&chars);
    let mut out: Vec<String> = Vec::new();
    let mut i: usize = 0;
    while i < parts.len()
        invariant
            0 <= i <= parts@.len(),
            strings_view(out@) =~= parts_view(parts@).take(
                i as int,
            ),
        decreases parts@.len() - i,
    {
        broadcast use lemma_parts_view_shape, lemma_strings_view_shape;

        let t = chars_to_string(&parts[i]);
        out.push(t);
        proof {
            assert(strings_view(out@) =~= parts_view(parts@).take(
                i as int + 1,
            ));
        }
        i += 1;
    }
    proof {
        assert(strings_view(out@) =~= parts_view(parts@));
    }
    out
}

/// Tokenizes one section text.
/// One tokenizer step: when the reading at `i` is the `front` tokens
/// followed by the reading at the next position, accumulating `front`
/// commutes with combining.
proof fn lemma_step(
    v: Seq<Tok>,
    front: Seq<Tok>,
    rec: Result<Seq<Tok>, FormatError>,
    rec2: Result<Seq<Tok>, FormatError>,
    v2: Seq<Tok>,
)
    requires
        rec == combine(front, rec2),
        v2 == v + front,
    ensures
        combine(v, rec) == combine(v2, rec2),
{
    broadcast use lemma_toks_view_shape, lemma_toks_view_push, lemma_literals_shape, vstd::seq::Seq::push_distributes_over_add;

    if rec2 is Ok {
        assert((v + front) + rec2->Ok_0 =~= v + (front + rec2->Ok_0));
    }
}

/// Reads a quoted run whose opening quote stands at `i`: one literal token
/// per enclosed character, ending after the closing quote.
fn tok_quote(chars: &Vec<char>, i: usize, acc: &mut Vec<Token>, Ghost(sd): Ghost<bool>) -> (res:
    Result<usize, FormatError>)
    requires
        i < chars@.len(),
        chars@[i as int] == '"',
    ensures
        match res {
            Ok(nxt) => i < nxt <= chars@.len() && combine(
                toks_view(old(acc)@),
                spec_tokenize(chars@, i as int, sd),
            ) == combine(toks_view(final(acc)@), spec_tokenize(chars@, nxt as int, sd)),
            Err(e) => spec_tokenize(chars@, i as int, sd) == Err::<Seq<Tok>, FormatError>(e),
        },
{
    broadcast use lemma_toks_view_shape, lemma_toks_view_push, lemma_literals_shape, vstd::seq::Seq::push_distributes_over_add;

    let ghost s = chars@;
    let n = chars.len();
    let ghost v = toks_view(acc@);
    let mut p: usize = i + 1;
    while p < n && chars[p] != '"'
        invariant
            i + 1 <= p <= n,
            n == s.len(),
            s == chars@,
            forall|m: int| i + 1 <= m < p ==> s[m] != '"',
        decreases n - p,
    {
        p += 1;
    }
    if p == n {
        proof {
            lemma_find_none(s, i as int + 1, '"');
        }
        return Err(FormatError::UnbalancedQuote);
    }
    proof {
        lemma_find_exact(s, i as int + 1, '"', p as int);
        assert(s.subrange(i as int + 1, i as int + 1).len() == 0);
        assert(literals_of(s.subrange(i as int + 1, i as int + 1)) =~= Seq::<Tok>::empty());
        assert(toks_view(acc@) =~= v + literals_of(s.subrange(i as int + 1, i as int + 1)));
    }
    let ghost front = literals_of(s.subrange(i as int + 1, p as int));
    let mut q: usize = i + 1;
    while q < p
        invariant
            i + 1 <= q <= p <= n,
            n == s.len(),
            s == chars@,
            chars@[i as int] == '"',
            toks_view(acc@) =~= v + literals_of(s.subrange(i as int + 1, q as int)),
        decreases p - q,
    {
        broadcast use lemma_toks_view_shape, lemma_toks_view_push, lemma_literals_shape, vstd::seq::Seq::push_distributes_over_add;

        let ghost pre = acc@;
        let cq: char = chars[q];
        acc.push(Token::Literal(cq));
        proof {
            assert(acc@ == pre.push(Token::Literal(cq)));
            lemma_toks_view_push(pre, Token::Literal(cq));
            assert(s.subrange(i as int + 1, q as int + 1) =~= s.subrange(
                i as int + 1,
                q as int,
            ).push(s[q as int]));
            assert(literals_of(s.subrange(i as int + 1, q as int + 1)) =~= literals_of(
                s.subrange(i as int + 1, q as int),
            ).push(lit_tok(s[q as int])));
            assert(toks_view(acc@) =~= v + literals_of(s.subrange(i as int + 1, q as int + 1)));
        }
        q += 1;
    }
    proof {
        let rec = spec_tokenize(s, i as int, sd);
        let rec2 = spec_tokenize(s, p as int + 1, sd);
        assert(rec == combine(front, rec2));
        lemma_step(v, front, rec, rec2, toks_view(acc@));
    }
    Ok(p + 1)
}

/// Reads a bracketed directive whose opening bracket stands at `i`: one
/// directive token carrying the enclosed content, ending after the closing
/// bracket.
fn tok_bracket(chars: &Vec<char>, i: usize, acc: &mut Vec<Token>, Ghost(sd): Ghost<bool>) -> (res:
    Result<usize, FormatError>)
    requires
        i < chars@.len(),
        chars@[i as int] == '[',
    ensures
        match res {
            Ok(nxt) => i < nxt <= chars@.len() && combine(
                toks_view(old(acc)@),
                spec_tokenize(chars@, i as int, sd),
            ) == combine(toks_view(final(acc)@), spec_tokenize(chars@, nxt as int, sd)),
            Err(e) => spec_tokenize(chars@, i as int, sd) == Err::<Seq<Tok>, FormatError>(e),
        },
{
    broadcast use lemma_toks_view_shape, lemma_toks_view_push, lemma_literals_shape, vstd::seq::Seq::push_distributes_over_add;

    let ghost s = chars@;
    let n = chars.len();
    let ghost v = toks_view(acc@);
    let mut p: usize = i + 1;
    while p < n && chars[p] != ']'
        invariant
            i + 1 <= p <= n,
            n == s.len(),
            s == chars@,
            forall|m: int| i + 1 <= m < p ==> s[m] != ']',
        decreases n - p,
    {
        p += 1;
    }
    if p == n {
        proof {
            lemma_find_none(s, i as int + 1, ']');
        }
        return Err(FormatError::UnbalancedBracket);
    }
    proof {
        lemma_find_exact(s, i as int + 1, ']', p as int);
    }
    let mut content: Vec<char> = Vec::new();
    let mut q: usize = i + 1;
    while q < p
        invariant
            i + 1 <= q <= p <= n,
            n == s.len(),
            s == chars@,
            content@ =~= s.subrange(i as int + 1, q as int),
        decreases p - q,
    {
        content.push(chars[q]);
        proof {
            assert(content@ =~= s.subrange(i as int + 1, q as int + 1));
        }
        q += 1;
    }
    let text = chars_to_string(&content);
    acc.push(Token::Directive(text));
    proof {
        let front = seq![Tok::Directive(s.subrange(i as int + 1, p as int))];
        let rec = spec_tokenize(s, i as int, sd);
        let rec2 = spec_tokenize(s, p as int + 1, sd);
        assert(rec == combine(front, rec2));
        assert(toks_view(acc@) =~= v + front);
        lemma_step(v, front, rec, rec2, toks_view(acc@));
    }
    Ok(p + 1)
}

/// Tokenizes one section text.
#[verifier::rlimit(100)]
fn tokenize_chars(chars: &Vec<char>) -> (r: Result<Vec<Token>, FormatError>)
    ensures
        match r {
            Ok(toks) => spec_tokenize(chars@, 0, false) == Ok::<_, FormatError>(toks_view(toks@)),
            Err(e) => spec_tokenize(chars@, 0, false) == Err::<Seq<Tok>, _>(e),
        },
{
    broadcast use lemma_toks_view_shape, lemma_toks_view_push, lemma_literals_shape, vstd::seq::Seq::push_distributes_over_add;

    let ghost s = chars@;
    let n = chars.len();
    let mut acc: Vec<Token> = Vec::new();
    let mut i: usize = 0;
    let mut seen_dot: bool = false;
    while i < n
        invariant
            0 <= i <= n,
            n == s.len(),
            s == chars@,
            spec_tokenize(s, 0, false) == combine(
                toks_view(acc@),
                spec_tokenize(s, i as int, seen_dot),
            ),
        decreases n - i,
    {
        broadcast use lemma_toks_view_shape, lemma_toks_view_push, lemma_literals_shape, vstd::seq::Seq::push_distributes_over_add;

        let ghost v = toks_view(acc@);
        let ghost rec = spec_tokenize(s, i as int, seen_dot);
        let c: char = chars[i];
        if c == '"' {
            match tok_quote(chars, i, &mut acc, Ghost(seen_dot)) {
                Err(e) => {
                    proof {
                        assert(rec == Err::<Seq<Tok>, FormatError>(e));
                    }
                    return Err(e);
                },
                Ok(nxt) => {
                    i = nxt;
                },
            }
        } else if c == '[' {
            match tok_bracket(chars, i, &mut acc, Ghost(seen_dot)) {
                Err(e) => {
                    proof {
                        assert(rec == Err::<Seq<Tok>, FormatError>(e));
                    }
                    return Err(e);
                },
                Ok(nxt) => {
                    i = nxt;
                },
            }
        } else if c == '\\' {
            if i + 1 >= n {
                proof {
                    assert(rec == Err::<Seq<Tok>, FormatError>(FormatError::DanglingEscape));
                }
                return Err(FormatError::DanglingEscape);
            }
            let lit: char = chars[i + 1];
            let ghost pre = acc@;
            acc.push(Token::Literal(lit));
            proof {
                let front = seq![lit_tok(lit)];
                let rec2 = spec_tokenize(s, i as int + 2, seen_dot);
                assert(rec == combine(front, rec2));
                assert(acc@ == pre.push(Token::Literal(lit)));
                lemma_toks_view_push(pre, Token::Literal(lit));
                assert(toks_view(acc@) =~= v + front);
                lemma_step(v, front, rec, rec2, toks_view(acc@));
            }
            i += 2;
        } else if c == '#' || c == '0' || c == '?' {
            let kind = if c == '#' {
                DigitKind::Hash
            } else if c == '0' {
                DigitKind::Zero
            } else {
                DigitKind::Question
            };
            acc.push(Token::DigitPlaceholder(kind));
            proof {
                let front = seq![Tok::DigitPlaceholder(kind)];
                let rec2 = spec_tokenize(s, i as int + 1, seen_dot);
                assert(rec == combine(front, rec2));
                assert(toks_view(acc@) =~= v + front);
                lemma_step(v, front, rec, rec2, toks_view(acc@));
            }
            i += 1;
        } else if c == '.' {
            let tok = if seen_dot {
                Token::Literal('.')
            } else {
                Token::DecimalPoint
            };
            acc.push(tok);
            proof {
                let front = seq![
                    if seen_dot {
                        Tok::Literal('.')
                    } else {
                        Tok::DecimalPoint
                    },
                ];
                let rec2 = spec_tokenize(s, i as int + 1, true);
                assert(rec == combine(front, rec2));
                assert(toks_view(acc@) =~= v + front);
                lemma_step(v, front, rec, rec2, toks_view(acc@));
            }
            seen_dot = true;
            i += 1;
        } else if c == ',' {
            let mut beside: bool = false;
            if i > 0 {
                let b: char = chars[i - 1];
                if b == '#' || b == '0' || b == '?' {
                    beside = true;
                }
            }
            if i + 1 < n {
                let a: char = chars[i + 1];
                if a == '#' || a == '0' || a == '?' {
                    beside = true;
                }
            }
            let tok = if beside {
                Token::ThousandsMarker
            } else {
                Token::Literal(',')
            };
            proof {
                assert(beside == comma_is_marker(s, i as int));
            }
            acc.push(tok);
            proof {
                let front = seq![
                    if comma_is_marker(s, i as int) {
                        Tok::ThousandsMarker
                    } else {
                        Tok::Literal(',')
                    },
                ];
                let rec2 = spec_tokenize(s, i as int + 1, seen_dot);
                assert(rec == combine(front, rec2));
                assert(toks_view(acc@) =~= v + front);
                lemma_step(v, front, rec, rec2, toks_view(acc@));
            }
            i += 1;
        } else if c == '_' || c == '*' {
            acc.push(Token::Skip);
            let nxt: usize = if n - i >= 2 {
                i + 2
            } else {
                n
            };
            proof {
                let front = seq![Tok::Skip];
                let rec2 = spec_tokenize(s, nxt as int, seen_dot);
                assert(rec == combine(front, rec2));
                assert(toks_view(acc@) =~= v + front);
                lemma_step(v, front, rec, rec2, toks_view(acc@));
            }
            i = nxt;
        } else {
            let ghost pre = acc@;
            acc.push(Token::Literal(c));
            proof {
                let front = seq![lit_tok(c)];
                let rec2 = spec_tokenize(s, i as int + 1, seen_dot);
                assert(rec == combine(front, rec2));
                assert(acc@ == pre.push(Token::Literal(c)));
                lemma_toks_view_push(pre, Token::Literal(c));
                assert(toks_view(acc@) =~= v + front);
                lemma_step(v, front, rec, rec2, toks_view(acc@));
            }
            i += 1;
        }
    }
    proof {
        assert(spec_tokenize(s, i as int, seen_dot) == Ok::<Seq<Tok>, FormatError>(Seq::empty()));
        assert(toks_view(acc@) + Seq::<Tok>::empty() =~= toks_view(acc@));
    }
    Ok(acc)
}

/// Parses a format code into its sections, each an ordered token sequence:
/// exactly the reading [`spec_parse`] gives, and always at least one
/// section on success.
pub fn parse(format_code: &str) -> (r: Result<Vec<Section>, FormatError>)
    ensures
        match r {
            Ok(sections) => spec_parse(format_code@) == Ok::<_, FormatError>(
                sections_view(sections@),
            ) && sections@.len() >= 1,
            Err(e) => spec_parse(format_code@) == Err::<Seq<Seq<Tok>>, _>(e),
        },
{
    broadcast use lemma_parts_view_shape, lemma_sections_view_shape, lemma_sections_view_push, lemma_toks_view_shape, vstd::seq::Seq::push_distributes_over_add;

    let chars = str_chars(format_code);
    let parts = split_chars(&chars);
    let ghost pv = parts_view(parts@);
    proof {
        lemma_split_nonempty(chars@, 0, 0, false);
    }
    let mut out: Vec<Section> = Vec::new();
    let mut i: usize = 0;
    while i < parts.len()
        invariant
            0 <= i <= parts@.len(),
            out@.len() == i,
            pv == parts_view(parts@),
            chars@ == format_code@,
            pv == spec_sections(chars@),
            spec_tokenize_all(pv, 0) == match spec_tokenize_all(pv, i as int) {
                Ok(rest) => Ok::<_, FormatError>(sections_view(out@) + rest),
                Err(e) => Err::<Seq<Seq<Tok>>, _>(e),
            },
        decreases parts@.len() - i,
    {
        broadcast use lemma_parts_view_shape, lemma_sections_view_shape, lemma_sections_view_push, lemma_toks_view_shape, vstd::seq::Seq::push_distributes_over_add;

        let ghost v = sections_view(out@);
        let ghost rec = spec_tokenize_all(pv, i as int);
        proof {
            assert(parts@[i as int]@ == pv[i as int]);
        }
        match tokenize_chars(&parts[i]) {
            Err(e) => {
                proof {
                    assert(rec == Err::<Seq<Seq<Tok>>, FormatError>(e));
                }
                return Err(e);
            },
            Ok(toks) => {
                let sec = Section { tokens: toks };
                let ghost pre = out@;
                out.push(sec);
                proof {
                    assert(out@ == pre.push(sec));
                    assert(sections_view(pre.push(sec)) == sections_view(pre).push(sec@));
                    let ghost front = seq![toks_view(toks@)];
                    let ghost rec2 = spec_tokenize_all(pv, i as int + 1);
                    assert(rec == match rec2 {
                        Ok(rest) => Ok::<_, FormatError>(front + rest),
                        Err(e) => Err::<Seq<Seq<Tok>>, _>(e),
                    });
                    assert(sections_view(out@) =~= v + front);
                    if rec2 is Ok {
                        assert((v + front) + rec2->Ok_0 =~= v + (front + rec2->Ok_0));
                    }
                }
            },
        }
        i += 1;
    }
    proof {
        assert(spec_tokenize_all(pv, i as int) == Ok::<Seq<Seq<Tok>>, FormatError>(Seq::empty()));
        assert(sections_view(out@) + Seq::<Seq<Tok>>::empty() =~= sections_view(out@));
        assert(out@.len() == pv.len());
    }
    Ok(out)
}

} // verus!
