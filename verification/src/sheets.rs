//! Workbook-side helpers: output format and CSV row policy, sheet
//! selection by name or index, and A1 cell-reference parsing.

use vstd::prelude::*;
use crate::digits::{digits_wf, lemma_seq_val_bounds, seq_val};
use crate::parser::{strings_view, lemma_strings_view_shape};
use crate::text::{spec_find, str_chars, chars_to_string, lemma_find_exact, lemma_find_none};
use crate::value::{all_digit_chars, digits_of_chars, is_digit_char};

verus! {

/// The delimiter family of the produced rows.
#[derive(Debug, Clone, Copy, PartialEq, Eq, Structural)]
pub enum OutputFormat {
    Csv,
    Tsv,
    European,
}

impl Default for OutputFormat {
    fn default() -> (r: Self)
        ensures
            r == OutputFormat::Csv,
    {
        OutputFormat::Csv
    }
}

impl OutputFormat {
    /// The field delimiter byte of this output format.
    pub fn delimiter(&self) -> (r: u8)
        ensures
            r == match self {
                OutputFormat::Csv => 44u8,
                OutputFormat::Tsv => 9u8,
                OutputFormat::European => 59u8,
            },
    {
        match self {
            OutputFormat::Csv => 44,
            OutputFormat::Tsv => 9,
            OutputFormat::European => 59,
        }
    }
}

/// How rows are written: the delimiter family and the text standing in for
/// empty cells.
#[derive(Debug, Clone, PartialEq)]
pub struct CsvConfig {
    pub format: OutputFormat,
    pub empty_value: String,
}

impl CsvConfig {
    /// The text a cell contributes to its row: the cell's own text, or the
    /// configured stand-in when the cell is empty.
    pub fn cell_text(&self, value: String) -> (r: String)
        ensures
            value@.len() == 0 ==> r@ == self.empty_value@,
            value@.len() > 0 ==> r@ == value@,
    {
        if value.as_str().is_empty() {
            self.empty_value.clone()
        } else {
            value
        }
    }
}

/// A sheet picked by position or by name.
#[derive(Debug, Clone, PartialEq)]
pub enum SheetSelector {
    Index(usize),
    Name(String),
}

/// The numeral reading of a selector string: an optional `+`, then decimal
/// digits whose value fits the platform's index type.
pub open spec fn spec_selector_index(s: Seq<char>) -> Option<int> {
    let body = if s.len() > 0 && s[0] == '+' {
        s.skip(1)
    } else {
        s
    };
    if body.len() >= 1 && all_digit_chars(body) && seq_val(digits_of_chars(body)) <= usize::MAX {
        Some(seq_val(digits_of_chars(body)))
    } else {
        None
    }
}

/// The value of a digit-character prefix never exceeds the whole.
proof fn lemma_digits_prefix_le(s: Seq<u8>, j: int)
    requires
        digits_wf(s),
        0 <= j <= s.len(),
    ensures
        seq_val(s.take(j)) <= seq_val(s),
    decreases s.len() - j,
{
    if j < s.len() {
        lemma_digits_prefix_le(s, j + 1);
        assert(s.take(j + 1).drop_last() =~= s.take(j));
        assert(s.take(j + 1).last() == s[j]);
        assert(digits_wf(s.take(j))) by {
            assert forall|m: int| 0 <= m < j implies s.take(j)[m] < 10 by {
                assert(s.take(j)[m] == s[m]);
            }
        }
        lemma_seq_val_bounds(s.take(j));
        assert(seq_val(s.take(j + 1)) == seq_val(s.take(j)) * 10 + s[j]);
    } else {
        assert(s.take(j) =~= s);
    }
}

/// Reads a sheet selector: a decimal numeral is a position, anything else a
/// name.
pub fn parse_sheet_selector(selector: &str) -> (r: SheetSelector)
    ensures
        match r {
            SheetSelector::Index(k) => spec_selector_index(selector@) == Some(k as int),
            SheetSelector::Name(t) => spec_selector_index(selector@) is None && t@ == selector@,
        },
{
    let chars = str_chars(selector);
    let n = chars.len();
    let start: usize = if n > 0 && chars[0] == '+' {
        1
    } else {
        0
    };
    let ghost body = if start == 1 {
        selector@.skip(1)
    } else {
        selector@
    };
    if n == start {
        proof {
            assert(body.len() == 0);
        }
        return SheetSelector::Name(selector.to_owned());
    }
    let ghost bd = digits_of_chars(body);
    let mut acc: usize = 0;
    let mut i: usize = start;
    while i < n
        invariant
            start <= i <= n,
            n == selector@.len(),
            chars@ == selector@,
            (start == 1) == (selector@.len() > 0 && selector@[0] == '+'),
            start == 0 || start == 1,
            body == if start == 1 {
                selector@.skip(1)
            } else {
                selector@
            },
            bd == digits_of_chars(body),
            forall|m: int| 0 <= m < i - start ==> is_digit_char(body[m]),
            acc == seq_val(bd.take(i - start)),
        decreases n - i,
    {
        let c: char = chars[i];
        if !('0' <= c && c <= '9') {
            proof {
                assert(body[i - start] == selector@[i as int]);
                assert(!is_digit_char(body[i - start]));
            }
            return SheetSelector::Name(selector.to_owned());
        }
        let d: usize = (((c as u32) - 48) as u8) as usize;
        proof {
            assert(body[i - start] == selector@[i as int]);
            assert(bd[i - start] == (body[i - start] as int - 48) as u8);
            assert(d == bd[i - start]);
            assert(bd.take(i - start + 1).drop_last() =~= bd.take(i - start));
            assert(bd.take(i - start + 1).last() == bd[i - start]);
        }
        if acc > (usize::MAX - d) / 10 {
            // the numeral exceeds the index range: treat it as a name
            proof {
                assert(acc * 10 + d > usize::MAX);
                assert(seq_val(bd.take(i - start + 1)) > usize::MAX);
                if all_digit_chars(body) {
                    assert(digits_wf(bd)) by {
                        assert forall|m: int| 0 <= m < bd.len() implies bd[m] < 10 by {
                            assert(is_digit_char(body[m]));
                            assert(bd[m] == (body[m] as int - 48) as u8);
                        }
                    }
                    lemma_digits_prefix_le(bd, i - start + 1);
                }
            }
            return SheetSelector::Name(selector.to_owned());
        }
        acc = acc * 10 + d;
        i += 1;
    }
    proof {
        assert(bd.take(n - start) =~= bd);
        assert(body.len() == n - start);
        assert(all_digit_chars(body));
    }
    SheetSelector::Index(acc)
}

/// An ASCII whitespace character, stripped from cell references.
pub open spec fn is_space(c: char) -> bool {
    c == ' ' || c == '\t' || c == '\n' || c == '\r'
}

/// An ASCII letter, naming a column.
pub open spec fn is_alpha(c: char) -> bool {
    ('A' <= c && c <= 'Z') || ('a' <= c && c <= 'z')
}

/// The column value of one letter, `A` or `a` counting as one.
pub open spec fn letter_val(c: char) -> int {
    if 'A' <= c && c <= 'Z' {
        c as int - 64
    } else {
        c as int - 96
    }
}

/// The bijective base-26 value of a column-letter sequence.
pub open spec fn col_val(s: Seq<char>) -> int
    decreases s.len(),
{
    if s.len() == 0 {
        0
    } else {
        col_val(s.drop_last()) * 26 + letter_val(s.last())
    }
}

/// The value of a digit-character sequence.
pub open spec fn row_val(s: Seq<char>) -> int {
    seq_val(digits_of_chars(s))
}

/// The sequence without its leading whitespace.
pub open spec fn trim_front(s: Seq<char>) -> Seq<char>
    decreases s.len(),
{
    if s.len() > 0 && is_space(s[0]) {
        trim_front(s.skip(1))
    } else {
        s
    }
}

/// The sequence without its trailing whitespace.
pub open spec fn trim_back(s: Seq<char>) -> Seq<char>
    decreases s.len(),
{
    if s.len() > 0 && is_space(s.last()) {
        trim_back(s.drop_last())
    } else {
        s
    }
}

/// The first position at or after `i` holding a digit character; the
/// length when none does.
pub open spec fn first_digit(s: Seq<char>, i: int) -> int
    decreases s.len() - i,
{
    if i < 0 || i >= s.len() {
        s.len() as int
    } else if is_digit_char(s[i]) {
        i
    } else {
        first_digit(s, i + 1)
    }
}

/// The reading of a cell position in A1 notation, whitespace trimmed and
/// letters read in either case: the column letters then the row digits,
/// both values fitting 32 bits.  A reference with no digits, with anything
/// but letters before them or anything but digits after them, or with a
/// value out of range, does not read.
pub open spec fn spec_parse_a1(s: Seq<char>) -> Option<(int, int)> {
    let t = trim_back(trim_front(s));
    let p = first_digit(t, 0);
    if p < t.len() && (forall|m: int| 0 <= m < p ==> is_alpha(t[m])) && (forall|m: int|
        p <= m < t.len() ==> is_digit_char(t[m])) && col_val(t.take(p)) <= u32::MAX && row_val(
        t.skip(p),
    ) <= u32::MAX {
        Some((col_val(t.take(p)), row_val(t.skip(p))))
    } else {
        None
    }
}

/// Dropping leading whitespace up to the first non-space position.
proof fn lemma_trim_front(s: Seq<char>, lo: int)
    requires
        0 <= lo <= s.len(),
        forall|m: int| 0 <= m < lo ==> is_space(s[m]),
        lo == s.len() || !is_space(s[lo]),
    ensures
        trim_front(s) == s.skip(lo),
    decreases lo,
{
    if lo == 0 {
        assert(s.skip(0) =~= s);
    } else {
        assert(is_space(s[0]));
        let s1 = s.skip(1);
        assert forall|m: int| 0 <= m < lo - 1 implies is_space(s1[m]) by {
            assert(s1[m] == s[m + 1]);
        }
        lemma_trim_front(s1, lo - 1);
        assert(s1.skip(lo - 1) =~= s.skip(lo));
    }
}

/// Dropping trailing whitespace down to the last non-space position.
proof fn lemma_trim_back(s: Seq<char>, hi: int)
    requires
        0 <= hi <= s.len(),
        forall|m: int| hi <= m < s.len() ==> is_space(s[m]),
        hi == 0 || !is_space(s[hi - 1]),
    ensures
        trim_back(s) == s.take(hi),
    decreases s.len(),
{
    if hi == s.len() {
        assert(s.take(hi) =~= s);
        if s.len() > 0 {
            assert(!is_space(s.last()));
        }
    } else {
        assert(is_space(s.last()));
        lemma_trim_back(s.drop_last(), hi);
    }
}

/// A digit position with none before it is the first.
proof fn lemma_first_digit_exact(s: Seq<char>, from: int, j: int)
    requires
        0 <= from <= j <= s.len(),
        j == s.len() || is_digit_char(s[j]),
        forall|m: int| from <= m < j ==> !is_digit_char(s[m]),
    ensures
        first_digit(s, from) == j,
    decreases j - from,
{
    if from < j {
        lemma_first_digit_exact(s, from + 1, j);
    }
}

/// Where the first digit search lands: at a digit, with none before it.
proof fn lemma_first_digit_props(s: Seq<char>, from: int)
    requires
        0 <= from <= s.len(),
    ensures
        from <= first_digit(s, from) <= s.len(),
        first_digit(s, from) < s.len() ==> is_digit_char(s[first_digit(s, from)]),
        forall|m: int| from <= m < first_digit(s, from) ==> !is_digit_char(s[m]),
    decreases s.len() - from,
{
    if from < s.len() && !is_digit_char(s[from]) {
        lemma_first_digit_props(s, from + 1);
    }
}

/// Column values are nonnegative over letter sequences.
proof fn lemma_col_val_nonneg(s: Seq<char>)
    requires
        forall|m: int| 0 <= m < s.len() ==> is_alpha(s[m]),
    ensures
        col_val(s) >= 0,
    decreases s.len(),
{
    if s.len() > 0 {
        assert(forall|m: int| 0 <= m < s.len() - 1 ==> is_alpha(s.drop_last()[m]));
        lemma_col_val_nonneg(s.drop_last());
        assert(is_alpha(s.last()));
    }
}

/// The column value of a letter prefix never exceeds the whole.
proof fn lemma_col_val_prefix_le(s: Seq<char>, j: int)
    requires
        forall|m: int| 0 <= m < s.len() ==> is_alpha(s[m]),
        0 <= j <= s.len(),
    ensures
        col_val(s.take(j)) <= col_val(s),
    decreases s.len() - j,
{
    if j < s.len() {
        lemma_col_val_prefix_le(s, j + 1);
        assert(s.take(j + 1).drop_last() =~= s.take(j));
        assert(s.take(j + 1).last() == s[j]);
        assert(forall|m: int| 0 <= m < j ==> is_alpha(#[trigger] s.take(j)[m]));
        lemma_col_val_nonneg(s.take(j));
        assert(is_alpha(s[j]));
        assert(letter_val(s[j]) >= 1);
        assert(col_val(s.take(j + 1)) == col_val(s.take(j)) * 26 + letter_val(s[j]));
    } else {
        assert(s.take(j) =~= s);
    }
}

/// Whether a character is ASCII whitespace.
fn is_space_char(c: char) -> (r: bool)
    ensures
        r == is_space(c),
{
    c == ' ' || c == '\t' || c == '\n' || c == '\r'
}

/// Reads a cell position in A1 notation (`A1`, `bc23`), whitespace
/// trimmed: the one-based column from the letters, the row from the
/// digits.
pub fn parse_a1_notation(cell: &str) -> (r: Option<(u32, u32)>)
    ensures
        match r {
            Some(cr) => spec_parse_a1(cell@) == Some((cr.0 as int, cr.1 as int)),
            None => spec_parse_a1(cell@) is None,
        },
{
    let chars = str_chars(cell);
    let n = chars.len();
    let mut lo: usize = 0;
    while lo < n && is_space_char(chars[lo])
        invariant
            0 <= lo <= n,
            n == cell@.len(),
            chars@ == cell@,
            forall|m: int| 0 <= m < lo ==> is_space(cell@[m]),
        decreases n - lo,
    {
        lo += 1;
    }
    let mut hi: usize = n;
    while hi > lo && is_space_char(chars[hi - 1])
        invariant
            lo <= hi <= n,
            n == cell@.len(),
            chars@ == cell@,
            lo == n || !is_space(cell@[lo as int]),
            forall|m: int| hi <= m < n ==> is_space(cell@[m]),
        decreases hi,
    {
        hi -= 1;
    }
    let ghost t = trim_back(trim_front(cell@));
    proof {
        lemma_trim_front(cell@, lo as int);
        let s1 = cell@.skip(lo as int);
        assert forall|m: int| hi - lo <= m < s1.len() implies is_space(s1[m]) by {
            assert(s1[m] == cell@[m + lo]);
        }
        if hi > lo {
            assert(s1[hi - lo - 1] == cell@[hi - 1]);
        }
        lemma_trim_back(s1, hi - lo);
        assert(t =~= cell@.subrange(lo as int, hi as int));
    }
    // find where the digits begin; everything before must be a letter
    let mut p: usize = lo;
    while p < hi && !('0' <= chars[p] && chars[p] <= '9')
        invariant
            lo <= p <= hi <= n,
            n == cell@.len(),
            chars@ == cell@,
            t == cell@.subrange(lo as int, hi as int),
            t == trim_back(trim_front(cell@)),
            forall|m: int| lo <= m < p ==> !is_digit_char(cell@[m]),
            forall|m: int| lo <= m < p ==> is_alpha(cell@[m]),
        decreases hi - p,
    {
        let c: char = chars[p];
        if !(('A' <= c && c <= 'Z') || ('a' <= c && c <= 'z')) {
            proof {
                assert(t[p - lo] == cell@[p as int]);
                assert(!is_alpha(t[p - lo]) && !is_digit_char(t[p - lo]));
                lemma_first_digit_props(t, 0);
                let fd = first_digit(t, 0);
                assert forall|m: int| 0 <= m <= p - lo implies !is_digit_char(t[m]) by {
                    assert(t[m] == cell@[m + lo]);
                }
                if fd < t.len() {
                    assert(is_digit_char(t[fd]));
                    assert(fd > p - lo);
                    // the non-letter at p - lo stands before the digits
                    assert(!is_alpha(t[p - lo]));
                }
            }
            return None;
        }
        p += 1;
    }
    if p == hi {
        // no digits at all
        proof {
            assert forall|m: int| 0 <= m < t.len() implies !is_digit_char(t[m]) by {
                assert(t[m] == cell@[m + lo]);
            }
            lemma_first_digit_exact(t, 0, t.len() as int);
        }
        return None;
    }
    proof {
        assert(is_digit_char(t[p - lo]));
        assert forall|m: int| 0 <= m < p - lo implies !is_digit_char(t[m]) by {
            assert(t[m] == cell@[m + lo]);
        }
        lemma_first_digit_exact(t, 0, p - lo);
    }
    // everything after must be digits
    let mut q: usize = p;
    while q < hi
        invariant
            p <= q <= hi <= n,
            n == cell@.len(),
            chars@ == cell@,
            t == cell@.subrange(lo as int, hi as int),
            t == trim_back(trim_front(cell@)),
            lo <= p,
            first_digit(t, 0) == p - lo,
            forall|m: int| p <= m < q ==> is_digit_char(cell@[m]),
        decreases hi - q,
    {
        let c: char = chars[q];
        if !('0' <= c && c <= '9') {
            proof {
                assert(t[q - lo] == cell@[q as int]);
                assert(!is_digit_char(t[q - lo]));
            }
            return None;
        }
        q += 1;
    }
    proof {
        assert forall|m: int| p - lo <= m < t.len() implies is_digit_char(t[m]) by {
            assert(t[m] == cell@[m + lo]);
        }
        assert forall|m: int| 0 <= m < p - lo implies is_alpha(t[m]) by {
            assert(t[m] == cell@[m + lo]);
        }
    }
    // the column letters, bijective base 26
    let ghost letters = t.take(p - lo);
    proof {
        assert forall|m: int| 0 <= m < letters.len() implies is_alpha(letters[m]) by {
            assert(letters[m] == t[m]);
        }
    }
    let mut col: u32 = 0;
    let mut j: usize = lo;
    while j < p
        invariant
            lo <= j <= p <= hi <= n,
            n == cell@.len(),
            chars@ == cell@,
            t == cell@.subrange(lo as int, hi as int),
            t == trim_back(trim_front(cell@)),
            letters == t.take(p - lo),
            first_digit(t, 0) == p - lo,
            forall|m: int| 0 <= m < letters.len() ==> is_alpha(letters[m]),
            col == col_val(letters.take(j - lo)),
        decreases p - j,
    {
        let c: char = chars[j];
        let lv: u32 = if 'A' <= c && c <= 'Z' {
            (c as u32) - 64
        } else {
            (c as u32) - 96
        };
        proof {
            assert(letters[j - lo] == cell@[j as int]);
            assert(is_alpha(letters[j - lo]));
            assert(lv == letter_val(letters[j - lo]));
            assert(letters.take(j - lo + 1).drop_last() =~= letters.take(j - lo));
            assert(letters.take(j - lo + 1).last() == letters[j - lo]);
            assert(forall|m: int| 0 <= m < j - lo ==> is_alpha(
                #[trigger] letters.take(j - lo)[m],
            ));
            lemma_col_val_nonneg(letters.take(j - lo));
        }
        if col > (u32::MAX - lv) / 26 {
            // the column value exceeds 32 bits
            proof {
                assert(col * 26 + lv > u32::MAX);
                assert(col_val(letters.take(j - lo + 1)) > u32::MAX);
                lemma_col_val_prefix_le(letters, j - lo + 1);
            }
            return None;
        }
        col = col * 26 + lv;
        j += 1;
    }
    proof {
        assert(letters.take(p - lo) =~= letters);
    }
    // the row digits
    let ghost rowd = digits_of_chars(t.skip(p - lo));
    proof {
        assert(digits_wf(rowd)) by {
            assert forall|m: int| 0 <= m < rowd.len() implies rowd[m] < 10 by {
                assert(is_digit_char(t.skip(p - lo)[m]));
                assert(rowd[m] == (t.skip(p - lo)[m] as int - 48) as u8);
            }
        }
    }
    let mut row: u32 = 0;
    let mut j: usize = p;
    while j < hi
        invariant
            p <= j <= hi <= n,
            n == cell@.len(),
            chars@ == cell@,
            t == cell@.subrange(lo as int, hi as int),
            t == trim_back(trim_front(cell@)),
            lo <= p,
            rowd == digits_of_chars(t.skip(p - lo)),
            first_digit(t, 0) == p - lo,
            digits_wf(rowd),
            forall|m: int| p <= m < hi ==> is_digit_char(cell@[m]),
            row == seq_val(rowd.take(j - p)),
        decreases hi - j,
    {
        let c: char = chars[j];
        proof {
            assert(t.skip(p - lo)[j - p] == cell@[j as int]);
            assert(is_digit_char(cell@[j as int]));
        }
        let d: u32 = (c as u32) - 48;
        proof {
            assert(rowd[j - p] == (t.skip(p - lo)[j - p] as int - 48) as u8);
            assert(d == rowd[j - p]);
            assert(rowd.take(j - p + 1).drop_last() =~= rowd.take(j - p));
            assert(rowd.take(j - p + 1).last() == rowd[j - p]);
            assert(digits_wf(rowd.take(j - p))) by {
                assert forall|m: int| 0 <= m < j - p implies #[trigger] rowd.take(j - p)[m]
                    < 10 by {
                    assert(rowd.take(j - p)[m] == rowd[m]);
                }
            }
            lemma_seq_val_bounds(rowd.take(j - p));
        }
        if row > (u32::MAX - d) / 10 {
            // the row value exceeds 32 bits
            proof {
                assert(row * 10 + d > u32::MAX);
                assert(seq_val(rowd.take(j - p + 1)) > u32::MAX);
                lemma_digits_prefix_le(rowd, j - p + 1);
            }
            return None;
        }
        row = row * 10 + d;
        j += 1;
    }
    proof {
        assert(rowd.take(hi - p) =~= rowd);
        assert(t.skip(p - lo).len() == hi - p);
    }
    Some((col, row))
}

/// Failures of sheet selection and cell addressing.
#[derive(Debug, Clone, PartialEq)]
pub enum SheetError {
    /// No sheet carries the requested name; `available` lists the names
    /// that exist, comma-separated.
    SheetNotFound { name: String, available: String },
    /// The requested position is past the last sheet.
    SheetIndexOutOfRange { index: usize, count: usize },
    /// A cell reference does not read as A1 notation.
    InvalidReference,
}

/// The comma-and-space joining of a name list.
pub open spec fn spec_join(names: Seq<Seq<char>>) -> Seq<char>
    decreases names.len(),
{
    if names.len() == 0 {
        Seq::empty()
    } else if names.len() == 1 {
        names[0]
    } else {
        spec_join(names.drop_last()) + seq![',', ' '] + names.last()
    }
}

/// Joins sheet names with `", "`.
fn join_names(names: &[String]) -> (r: String)
    ensures
        r@ == spec_join(strings_view(names@)),
{
    broadcast use lemma_strings_view_shape;

    let ghost nv = strings_view(names@);
    let mut acc: Vec<char> = Vec::new();
    let mut i: usize = 0;
    while i < names.len()
        invariant
            0 <= i <= names@.len(),
            nv == strings_view(names@),
            nv.len() == names@.len(),
            acc@ =~= spec_join(nv.take(i as int)),
        decreases names@.len() - i,
    {
        broadcast use lemma_strings_view_shape;

        let ghost pre = acc@;
        if i > 0 {
            acc.push(',');
            acc.push(' ');
        }
        let ghost mid = acc@;
        let part = str_chars(names[i].as_str());
        let mut j: usize = 0;
        while j < part.len()
            invariant
                0 <= j <= part@.len(),
                acc@ =~= mid + part@.take(j as int),
            decreases part@.len() - j,
        {
            acc.push(part[j]);
            proof {
                assert(acc@ =~= mid + part@.take(j as int + 1));
            }
            j += 1;
        }
        proof {
            assert(acc@ =~= mid + part@);
            assert(part@ == nv[i as int]);
            let sub = nv.take(i as int + 1);
            assert(sub.drop_last() =~= nv.take(i as int));
            assert(sub.last() == nv[i as int]);
            if i == 0 {
                assert(acc@ =~= spec_join(nv.take(1)));
            } else {
                assert(acc@ =~= spec_join(nv.take(i as int)) + seq![',', ' '] + nv[i as int]);
            }
        }
        i += 1;
    }
    proof {
        assert(nv.take(nv.len() as int) =~= nv);
    }
    chars_to_string(&acc)
}

/// Resolves a selector against the sheet-name list: a position must lie
/// inside the list; a name must match one of the names, the first match
/// winning.  The errors say which sheets would have been available.
pub fn resolve_sheet_index_from_names(selector: &SheetSelector, sheet_names: &[String]) -> (r:
    Result<usize, SheetError>)
    ensures
        match selector {
            SheetSelector::Index(idx) => match r {
                Ok(k) => k == idx && idx < sheet_names@.len(),
                Err(e) => idx >= sheet_names@.len() && e == (SheetError::SheetIndexOutOfRange {
                    index: *idx,
                    count: sheet_names@.len() as usize,
                }),
            },
            SheetSelector::Name(nm) => match r {
                Ok(k) => k < sheet_names@.len() && sheet_names@[k as int]@ == nm@ && (forall|
                    m: int,
                |
                    0 <= m < k ==> sheet_names@[m]@ != nm@),
                Err(e) => (forall|m: int|
                    0 <= m < sheet_names@.len() ==> sheet_names@[m]@ != nm@) && ((e matches
                    SheetError::SheetNotFound { name, available } && name@ == nm@ && available@
                    == spec_join(strings_view(sheet_names@)))),
            },
        },
{
    broadcast use lemma_strings_view_shape;

    match selector {
        SheetSelector::Index(idx) => {
            if *idx < sheet_names.len() {
                Ok(*idx)
            } else {
                Err(
                    SheetError::SheetIndexOutOfRange {
                        index: *idx,
                        count: sheet_names.len(),
                    },
                )
            }
        },
        SheetSelector::Name(nm) => {
            let mut i: usize = 0;
            while i < sheet_names.len()
                invariant
                    0 <= i <= sheet_names@.len(),
                    selector == SheetSelector::Name(*nm),
                    forall|m: int| 0 <= m < i ==> sheet_names@[m]@ != nm@,
                decreases sheet_names@.len() - i,
            {
                if sheet_names[i].eq(nm) {
                    return Ok(i);
                }
                i += 1;
            }
            Err(
                SheetError::SheetNotFound {
                    name: nm.clone(),
                    available: join_names(sheet_names),
                },
            )
        },
    }
}

/// How a cell reference reads: an optional `Sheet!` prefix picks the sheet
/// (the first sheet when absent), and the rest must read as A1 notation.
pub open spec fn spec_cell_sheet(s: Seq<char>) -> Option<Seq<char>> {
    match spec_find(s, 0, '!') {
        Some(j) => Some(s.take(j)),
        None => None,
    }
}

/// The cell part of a reference: what follows the first `!`, or the whole.
pub open spec fn spec_cell_rest(s: Seq<char>) -> Seq<char> {
    match spec_find(s, 0, '!') {
        Some(j) => s.skip(j + 1),
        None => s,
    }
}

/// Splits a cell reference like `Sheet1!A1` or `A1` into its sheet (the
/// first sheet's name when the reference names none) and its one-based
/// column and row.
pub fn parse_cell_reference(cell_ref: &str, sheet_names: &[String]) -> (r: Result<
    (String, u32, u32),
    SheetError,
>)
    ensures
        match r {
            Ok(scr) => {
                &&& match spec_cell_sheet(cell_ref@) {
                    Some(sh) => scr.0@ == sh,
                    None => sheet_names@.len() > 0 && scr.0@ == sheet_names@[0]@,
                }
                &&& spec_parse_a1(spec_cell_rest(cell_ref@)) == Some(
                    (scr.1 as int, scr.2 as int),
                )
            },
            Err(e) => {
                ||| (spec_cell_sheet(cell_ref@) is None && sheet_names@.len() == 0 && (e matches
                    SheetError::SheetNotFound { name, available } && name@ == "default"@
                    && available@ == Seq::<char>::empty()))
                ||| (spec_parse_a1(spec_cell_rest(cell_ref@)) is None && e
                    == SheetError::InvalidReference)
            },
        },
{
    let chars = str_chars(cell_ref);
    let n = chars.len();
    let mut b: usize = 0;
    while b < n && chars[b] != '!'
        invariant
            0 <= b <= n,
            n == cell_ref@.len(),
            chars@ == cell_ref@,
            forall|m: int| 0 <= m < b ==> cell_ref@[m] != '!',
        decreases n - b,
    {
        b += 1;
    }
    let (sheet, rest_start) = if b == n {
        proof {
            lemma_find_none(cell_ref@, 0, '!');
        }
        if sheet_names.len() == 0 {
            return Err(
                SheetError::SheetNotFound {
                    name: String::from_str("default"),
                    available: String::new(),
                },
            );
        }
        (sheet_names[0].clone(), 0)
    } else {
        proof {
            lemma_find_exact(cell_ref@, 0, '!', b as int);
        }
        let mut sh: Vec<char> = Vec::new();
        let mut j: usize = 0;
        while j < b
            invariant
                0 <= j <= b < n,
                n == cell_ref@.len(),
                chars@ == cell_ref@,
                sh@ =~= cell_ref@.take(j as int),
            decreases b - j,
        {
            sh.push(chars[j]);
            proof {
                assert(sh@ =~= cell_ref@.take(j as int + 1));
            }
            j += 1;
        }
        (chars_to_string(&sh), b + 1)
    };
    let rest = crate::text::skip_chars(&chars, rest_start);
    let rest_str = chars_to_string(&rest);
    proof {
        if b == n {
            assert(chars@.skip(0) =~= cell_ref@);
        }
        assert(rest_str@ == spec_cell_rest(cell_ref@));
    }
    match parse_a1_notation(rest_str.as_str()) {
        Some(cr) => Ok((sheet, cr.0, cr.1)),
        None => Err(SheetError::InvalidReference),
    }
}

} // verus!
