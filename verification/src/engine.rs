//! The format engine: the public entry point that parses a format code,
//! selects the section the value's sign class governs, and renders it.

use vstd::prelude::*;
use crate::error::FormatError;
use crate::parser::{parse, sections_view, spec_parse, lemma_sections_view_shape};
use crate::render::{render_section, spec_render_section};
use crate::selector::{classify, select_section_index, spec_class, spec_select, ValueClass};
use crate::token::Tok;
use crate::value::{Value, ValueV, value_wf};

verus! {

/// What formatting a value with a format code yields: the code's reading
/// fails as the parser says; otherwise the section selected by the value's
/// sign class renders the value.
pub open spec fn spec_format(code: Seq<char>, v: ValueV) -> Result<Seq<char>, FormatError> {
    match spec_parse(code) {
        Err(e) => Err(e),
        Ok(sections) => {
            let idx = spec_select(sections.len(), spec_class(v));
            spec_render_section(sections[idx as int], v)
        },
    }
}

/// Sign dispatch: when a format code has three or four sections, a
/// positive number renders by the first, a negative by the second, and
/// zero by the third.
pub proof fn lemma_sign_dispatch(code: Seq<char>, v: ValueV, sections: Seq<Seq<Tok>>)
    requires
        spec_parse(code) == Ok::<_, FormatError>(sections),
        3 <= sections.len() <= 4,
        v is Number,
    ensures
        spec_class(v) == ValueClass::Positive ==> spec_format(code, v) == spec_render_section(
            sections[0],
            v,
        ),
        spec_class(v) == ValueClass::Negative ==> spec_format(code, v) == spec_render_section(
            sections[1],
            v,
        ),
        spec_class(v) == ValueClass::Zero ==> spec_format(code, v) == spec_render_section(
            sections[2],
            v,
        ),
{
}

/// With two sections, only a negative number leaves the first section; with
/// one, every value renders by it.
pub proof fn lemma_sign_dispatch_short(code: Seq<char>, v: ValueV, sections: Seq<Seq<Tok>>)
    requires
        spec_parse(code) == Ok::<_, FormatError>(sections),
        1 <= sections.len() <= 2,
    ensures
        sections.len() == 1 ==> spec_format(code, v) == spec_render_section(sections[0], v),
        sections.len() == 2 && spec_class(v) == ValueClass::Negative ==> spec_format(code, v)
            == spec_render_section(sections[1], v),
        sections.len() == 2 && spec_class(v) != ValueClass::Negative ==> spec_format(code, v)
            == spec_render_section(sections[0], v),
{
}

/// Text routing: a text value against a four-section format renders by the
/// fourth section alone, whatever the text holds.
pub proof fn lemma_text_routing(code: Seq<char>, v: ValueV, sections: Seq<Seq<Tok>>)
    requires
        spec_parse(code) == Ok::<_, FormatError>(sections),
        sections.len() == 4,
        v is Text,
    ensures
        spec_format(code, v) == spec_render_section(sections[3], v),
{
}

/// Formats a raw value according to an Excel-style custom number-format
/// code: exactly the rendering [`spec_format`] gives.  A malformed code
/// surfaces its parse error; a value the selected section cannot render
/// surfaces `Unformattable`, and the caller falls back to the raw value.
pub fn format(format_code: &str, value: &Value) -> (r: Result<String, FormatError>)
    requires
        value_wf(value@),
    ensures
        match r {
            Ok(out) => spec_format(format_code@, value@) == Ok::<_, FormatError>(out@),
            Err(e) => spec_format(format_code@, value@) == Err::<Seq<char>, _>(e),
        },
{
    broadcast use lemma_sections_view_shape;

    let sections = match parse(format_code) {
        Err(e) => {
            return Err(e);
        },
        Ok(sections) => sections,
    };
    let class = classify(value);
    let idx = select_section_index(sections.len(), class);
    proof {
        assert(idx < sections@.len());
        assert(sections_view(sections@)[idx as int] == sections@[idx as int]@);
    }
    render_section(&sections[idx], value)
}

} // verus!
