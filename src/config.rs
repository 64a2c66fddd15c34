use vstd::prelude::*;
use vstd::string::StringSliceAdditionalSpecFns;

use crate::bytes::{bytes_eq, copy_range, find_byte, find_from, lemma_find_bounds};
use crate::header::all_digits;

verus! {

/// The deepest nesting a configuration file may use.
pub const MAX_DEPTH: usize = 32;

#[derive(Debug, PartialEq, Eq, Structural, Clone, Copy)]
pub enum Error {
    Unknown,
    FieldNameNotFound,
    InvaildOperation,
    MisMatchType,
    MisMatchStructure,
    ParsingProvidedStruct,
}

// ---------------------------------------------------------------------
// Whitespace and values
// ---------------------------------------------------------------------

/// ASCII whitespace: space, tab, line feed, form feed, carriage return.
pub open spec fn is_space(b: u8) -> bool {
    b == 32 || b == 9 || b == 10 || b == 12 || b == 13
}

/// The first index at or after `i` that holds no whitespace.
pub open spec fn skip_space(s: Seq<u8>, i: int) -> int
    decreases s.len() - i,
{
    if i >= s.len() {
        s.len() as int
    } else if is_space(s[i]) {
        skip_space(s, i + 1)
    } else {
        i
    }
}

/// The end of `s[start..j]` once trailing whitespace is dropped.
pub open spec fn trim_end_at(s: Seq<u8>, start: int, j: int) -> int
    decreases j - start,
{
    if j <= start {
        start
    } else if is_space(s[j - 1]) {
        trim_end_at(s, start, j - 1)
    } else {
        j
    }
}

/// `s` without leading and trailing whitespace.
pub open spec fn trim(s: Seq<u8>) -> Seq<u8> {
    let start = skip_space(s, 0);
    s.subrange(start, trim_end_at(s, start, s.len() as int))
}

/// `s` without trailing whitespace.
pub open spec fn trim_end(s: Seq<u8>) -> Seq<u8> {
    s.subrange(0, trim_end_at(s, 0, s.len() as int))
}

/// A decimal number: an optional sign, digits, and optionally a point
/// followed by digits.
pub open spec fn is_number(t: Seq<u8>) -> bool {
    let body = if t.len() > 0 && (t[0] == 45 || t[0] == 43) {
        t.subrange(1, t.len() as int)
    } else {
        t
    };
    let dot = find_from(body, 46, 0);
    &&& dot > 0
    &&& all_digits(body.subrange(0, dot))
    &&& (dot == body.len() || (dot + 1 < body.len() && all_digits(
        body.subrange(dot + 1, body.len() as int),
    )))
}

/// A scalar of the configuration: a string, a boolean, or a decimal
/// number, which is kept as written.
#[derive(Debug, PartialEq)]
pub enum Value {
    String(Vec<u8>),
    Bool(bool),
    Number(Vec<u8>),
}

/// A [`Value`] as the contracts see it.
pub enum ValueView {
    String(Seq<u8>),
    Bool(bool),
    Number(Seq<u8>),
}

impl View for Value {
    type V = ValueView;

    open spec fn view(&self) -> ValueView {
        match self {
            Value::String(s) => ValueView::String(s@),
            Value::Bool(b) => ValueView::Bool(*b),
            Value::Number(n) => ValueView::Number(n@),
        }
    }
}

/// What a scalar's text means, once trimmed: a quoted string, `true`,
/// `True`, `false`, `False`, a decimal number, or else a bare string.
pub open spec fn value_spec(raw: Seq<u8>) -> ValueView {
    let t = trim(raw);
    if t.len() >= 2 && t[0] == 34 && t[t.len() - 1] == 34 {
        ValueView::String(t.subrange(1, t.len() - 1))
    } else if t == "true".spec_bytes() || t == "True".spec_bytes() {
        ValueView::Bool(true)
    } else if t == "false".spec_bytes() || t == "False".spec_bytes() {
        ValueView::Bool(false)
    } else if is_number(t) {
        ValueView::Number(t)
    } else {
        ValueView::String(t)
    }
}

/// The index of the first byte at or after `from` that is not whitespace.
fn skip_space_at(s: &[u8], from: usize) -> (r: usize)
    requires
        from <= s@.len(),
    ensures
        r == skip_space(s@, from as int),
        from <= r <= s@.len(),
{
    let mut i: usize = from;
    while i < s.len() && (s[i] == 32 || s[i] == 9 || s[i] == 10 || s[i] == 12 || s[i] == 13)
        invariant
            from <= i <= s@.len(),
            skip_space(s@, from as int) == skip_space(s@, i as int),
        decreases s@.len() - i,
    {
        i = i + 1;
    }
    i
}

/// The end of `s[start..end]` once trailing whitespace is dropped.
fn trim_end_index(s: &[u8], start: usize, end: usize) -> (r: usize)
    requires
        start <= end <= s@.len(),
    ensures
        r == trim_end_at(s@, start as int, end as int),
        start <= r <= end,
{
    let mut j: usize = end;
    while j > start && (s[j - 1] == 32 || s[j - 1] == 9 || s[j - 1] == 10 || s[j - 1] == 12 || s[j
        - 1] == 13)
        invariant
            start <= j <= end,
            end <= s@.len(),
            trim_end_at(s@, start as int, end as int) == trim_end_at(s@, start as int, j as int),
        decreases j - start,
    {
        j = j - 1;
    }
    j
}

/// Copies `s` without leading and trailing whitespace.
pub fn trim_bytes(s: &[u8]) -> (r: Vec<u8>)
    ensures
        r@ == trim(s@),
{
    let start = skip_space_at(s, 0);
    let end = trim_end_index(s, start, s.len());
    copy_range(s, start, end)
}

fn digits_only(s: &[u8], start: usize, end: usize) -> (r: bool)
    requires
        start <= end <= s@.len(),
    ensures
        r == all_digits(s@.subrange(start as int, end as int)),
{
    let mut i: usize = start;
    while i < end
        invariant
            start <= i <= end,
            end <= s@.len(),
            forall|k: int| start <= k < i ==> 48 <= #[trigger] s@[k] <= 57,
        decreases end - i,
    {
        if s[i] < 48 || s[i] > 57 {
            assert(s@.subrange(start as int, end as int)[i - start] == s@[i as int]);
            return false;
        }
        i = i + 1;
    }
    assert forall|k: int| 0 <= k < end - start implies 48 <= #[trigger] s@.subrange(
        start as int,
        end as int,
    )[k] <= 57 by {
        assert(s@.subrange(start as int, end as int)[k] == s@[start + k]);
    }
    true
}

/// Whether the text is a decimal number.
pub fn number_text(t: &[u8]) -> (r: bool)
    ensures
        r == is_number(t@),
{
    let signed = t.len() > 0 && (t[0] == 45 || t[0] == 43);
    let body = if signed {
        copy_range(t, 1, t.len())
    } else {
        copy_range(t, 0, t.len())
    };
    assert(!signed ==> body@ =~= t@);
    let body = body.as_slice();
    let dot = find_byte(body, 46, 0);
    proof {
        lemma_find_bounds(body@, 46, 0);
    }
    if dot == 0 || !digits_only(body, 0, dot) {
        return false;
    }
    if dot == body.len() {
        return true;
    }
    dot + 1 < body.len() && digits_only(body, dot + 1, body.len())
}

impl Value {
    /// A copy of this value.
    pub fn copy(&self) -> (r: Value)
        ensures
            r@ == self@,
    {
        match self {
            Value::String(s) => {
                let c = copy_range(s.as_slice(), 0, s.len());
                assert(c@ =~= s@);
                Value::String(c)
            },
            Value::Bool(b) => Value::Bool(*b),
            Value::Number(n) => {
                let c = copy_range(n.as_slice(), 0, n.len());
                assert(c@ =~= n@);
                Value::Number(c)
            },
        }
    }

    /// Classifies a scalar's text.
    pub fn parse(raw: &[u8]) -> (r: Value)
        ensures
            r@ == value_spec(raw@),
    {
        let t = trim_bytes(raw);
        let t = t.as_slice();
        let len = t.len();
        if len >= 2 && t[0] == 34 && t[len - 1] == 34 {
            Value::String(copy_range(t, 1, len - 1))
        } else if bytes_eq(t, "true".as_bytes()) || bytes_eq(t, "True".as_bytes()) {
            Value::Bool(true)
        } else if bytes_eq(t, "false".as_bytes()) || bytes_eq(t, "False".as_bytes()) {
            Value::Bool(false)
        } else {
            let all = copy_range(t, 0, len);
            assert(all@ =~= t@);
            if number_text(t) {
                Value::Number(all)
            } else {
                Value::String(all)
            }
        }
    }
}

// ---------------------------------------------------------------------
// Entries: what one line of the file says
// ---------------------------------------------------------------------

/// What one line says: `key:` opens a section, `- value` is a list item,
/// `key: [a, b]` is an inline list and `key: value` a scalar; a line with
/// nothing but whitespace on it is blank.
#[derive(Debug, PartialEq)]
pub enum Entry {
    Blank,
    Section(Vec<u8>),
    Item(Value),
    InlineList(Vec<u8>, Vec<Value>),
    Scalar(Vec<u8>, Value),
}

/// An [`Entry`] as the contracts see it.
pub enum EntryView {
    Blank,
    Section(Seq<u8>),
    Item(ValueView),
    InlineList(Seq<u8>, Seq<ValueView>),
    Scalar(Seq<u8>, ValueView),
}

impl View for Entry {
    type V = EntryView;

    open spec fn view(&self) -> EntryView {
        match self {
            Entry::Blank => EntryView::Blank,
            Entry::Section(n) => EntryView::Section(n@),
            Entry::Item(v) => EntryView::Item(v@),
            Entry::InlineList(n, vs) => EntryView::InlineList(n@, vs@.map_values(|v: Value| v@)),
            Entry::Scalar(n, v) => EntryView::Scalar(n@, v@),
        }
    }
}

/// The pieces of `s[start..]` between commas, scanning from `i`.
pub open spec fn pieces_from(s: Seq<u8>, start: int, i: int) -> Seq<Seq<u8>>
    decreases s.len() - i,
{
    if i >= s.len() {
        seq![s.subrange(start, s.len() as int)]
    } else if s[i] == 44 {
        seq![s.subrange(start, i)] + pieces_from(s, i + 1, i + 1)
    } else {
        pieces_from(s, start, i + 1)
    }
}

/// The text between the brackets of an inline list.
pub open spec fn bracket_body(s: Seq<u8>) -> Seq<u8> {
    let t = trim(s);
    let a = if t.len() > 0 && t[0] == 91 {
        1int
    } else {
        0int
    };
    let b = if t.len() > a && t[t.len() - 1] == 93 {
        t.len() - 1
    } else {
        t.len() as int
    };
    t.subrange(a, b)
}

/// The items of an inline list such as `[a, b, c]`; `[]` has none.
pub open spec fn inline_items(s: Seq<u8>) -> Seq<ValueView> {
    let body = bracket_body(s);
    if trim(body).len() == 0 {
        Seq::empty()
    } else {
        pieces_from(body, 0, 0).map_values(|p: Seq<u8>| value_spec(p))
    }
}

/// What a line says, its indentation removed.
pub open spec fn entry_spec(line: Seq<u8>) -> Result<EntryView, Error> {
    let t = trim_end(line);
    let colon = find_from(line, 58, 0);
    if blank(line) {
        Ok(EntryView::Blank)
    } else if t.len() > 0 && t[t.len() - 1] == 58 {
        Ok(EntryView::Section(t.subrange(0, t.len() - 1)))
    } else if line.len() > 0 && line[0] == 45 {
        Ok(EntryView::Item(value_spec(line.subrange(1, line.len() as int))))
    } else if colon >= line.len() {
        Err(Error::MisMatchStructure)
    } else if t.len() > 0 && t[t.len() - 1] == 93 {
        Ok(
            EntryView::InlineList(
                line.subrange(0, colon),
                inline_items(line.subrange(colon + 1, line.len() as int)),
            ),
        )
    } else {
        Ok(
            EntryView::Scalar(
                line.subrange(0, colon),
                value_spec(line.subrange(colon + 1, line.len() as int)),
            ),
        )
    }
}

/// An entry parse result as the contracts see it.
pub open spec fn entry_result_view(r: Result<Entry, Error>) -> Result<EntryView, Error> {
    match r {
        Ok(e) => Ok(e@),
        Err(e) => Err(e),
    }
}

/// Splits `s` at its commas.
fn split_commas(s: &[u8]) -> (r: Vec<Vec<u8>>)
    ensures
        r@.map_values(|p: Vec<u8>| p@) == pieces_from(s@, 0, 0),
{
    let mut out: Vec<Vec<u8>> = Vec::new();
    let mut start: usize = 0;
    let mut i: usize = 0;
    while i < s.len()
        invariant
            start <= i <= s@.len(),
            out@.map_values(|p: Vec<u8>| p@) + pieces_from(s@, start as int, i as int)
                == pieces_from(s@, 0, 0),
        decreases s@.len() - i,
    {
        if s[i] == 44 {
            let piece = copy_range(s, start, i);
            let ghost before = out@.map_values(|p: Vec<u8>| p@);
            out.push(piece);
            assert(out@.map_values(|p: Vec<u8>| p@) =~= before.push(piece@));
            assert(before.push(piece@) + pieces_from(s@, (i + 1) as int, (i + 1) as int) =~= before
                + (seq![piece@] + pieces_from(s@, (i + 1) as int, (i + 1) as int)));
            start = i + 1;
        }
        i = i + 1;
    }
    let piece = copy_range(s, start, s.len());
    let ghost before = out@.map_values(|p: Vec<u8>| p@);
    out.push(piece);
    assert(out@.map_values(|p: Vec<u8>| p@) =~= before.push(piece@));
    assert(before.push(piece@) =~= before + seq![piece@]);
    out
}

/// The values of an inline list such as `[a, b, c]`.
fn inline_values(s: &[u8]) -> (r: Vec<Value>)
    ensures
        r@.map_values(|v: Value| v@) == inline_items(s@),
{
    let t = trim_bytes(s);
    let t = t.as_slice();
    let a: usize = if t.len() > 0 && t[0] == 91 {
        1
    } else {
        0
    };
    let b: usize = if t.len() > a && t[t.len() - 1] == 93 {
        t.len() - 1
    } else {
        t.len()
    };
    let body = copy_range(t, a, b);
    let body = body.as_slice();
    assert(body@ == bracket_body(s@));
    let inner = trim_bytes(body);
    let mut out: Vec<Value> = Vec::new();
    if inner.len() == 0 {
        assert(out@.map_values(|v: Value| v@) =~= inline_items(s@));
        return out;
    }
    let pieces = split_commas(body);
    let ghost ps = pieces_from(body@, 0, 0);
    let mut k: usize = 0;
    while k < pieces.len()
        invariant
            pieces@.map_values(|p: Vec<u8>| p@) == ps,
            k <= pieces@.len(),
            out@.map_values(|v: Value| v@) == ps.subrange(0, k as int).map_values(
                |p: Seq<u8>| value_spec(p),
            ),
        decreases pieces@.len() - k,
    {
        let v = Value::parse(pieces[k].as_slice());
        assert(pieces@.map_values(|p: Vec<u8>| p@)[k as int] == pieces@[k as int]@);
        let ghost before = out@.map_values(|v: Value| v@);
        out.push(v);
        assert(out@.map_values(|v: Value| v@) =~= before.push(v@));
        assert(ps.subrange(0, k + 1).map_values(|p: Seq<u8>| value_spec(p)) =~= ps.subrange(
            0,
            k as int,
        ).map_values(|p: Seq<u8>| value_spec(p)).push(value_spec(ps[k as int])));
        k = k + 1;
    }
    assert(ps.subrange(0, k as int) =~= ps);
    out
}

impl Entry {
    /// Classifies one line, its indentation removed.
    pub fn parse(line: &[u8]) -> (r: Result<Entry, Error>)
        ensures
            entry_result_view(r) == entry_spec(line@),
    {
        if skip_space_at(line, 0) >= line.len() {
            return Ok(Entry::Blank);
        }
        let end = trim_end_index(line, 0, line.len());
        let colon = find_byte(line, 58, 0);
        proof {
            lemma_find_bounds(line@, 58, 0);
        }
        let ghost t = trim_end(line@);
        assert(t.len() == end);
        assert(end > 0 ==> t[end - 1] == line@[end - 1]);
        if end > 0 && line[end - 1] == 58 {
            let name = copy_range(line, 0, end - 1);
            assert(name@ =~= t.subrange(0, t.len() - 1));
            Ok(Entry::Section(name))
        } else if line.len() > 0 && line[0] == 45 {
            let rest = copy_range(line, 1, line.len());
            Ok(Entry::Item(Value::parse(rest.as_slice())))
        } else if colon >= line.len() {
            Err(Error::MisMatchStructure)
        } else if end > 0 && line[end - 1] == 93 {
            let name = copy_range(line, 0, colon);
            let rest = copy_range(line, colon + 1, line.len());
            Ok(Entry::InlineList(name, inline_values(rest.as_slice())))
        } else {
            let name = copy_range(line, 0, colon);
            let rest = copy_range(line, colon + 1, line.len());
            Ok(Entry::Scalar(name, Value::parse(rest.as_slice())))
        }
    }
}

// ---------------------------------------------------------------------
// Lines and indentation
// ---------------------------------------------------------------------

/// A line without the carriage return before its line feed.
pub open spec fn strip_cr(l: Seq<u8>) -> Seq<u8> {
    if l.len() > 0 && l[l.len() - 1] == 13 {
        l.drop_last()
    } else {
        l
    }
}

/// The lines of `s` from `start`, scanning from `i`: split at line feeds,
/// with no line after a final line feed.
pub open spec fn lines_from(s: Seq<u8>, start: int, i: int) -> Seq<Seq<u8>>
    decreases s.len() - i,
{
    if i >= s.len() {
        if start < s.len() {
            seq![strip_cr(s.subrange(start, s.len() as int))]
        } else {
            Seq::empty()
        }
    } else if s[i] == 10 {
        seq![strip_cr(s.subrange(start, i))] + lines_from(s, i + 1, i + 1)
    } else {
        lines_from(s, start, i + 1)
    }
}

/// The number of spaces that a line starts with, counting from `i`.
pub open spec fn lead_spaces(l: Seq<u8>, i: int) -> int
    decreases l.len() - i,
{
    if i >= l.len() {
        l.len() as int
    } else if l[i] == 32 {
        lead_spaces(l, i + 1)
    } else {
        i
    }
}

/// The indentation of a line.
pub open spec fn indent(l: Seq<u8>) -> int {
    lead_spaces(l, 0)
}

/// A line with nothing but whitespace on it.
pub open spec fn blank(l: Seq<u8>) -> bool {
    skip_space(l, 0) >= l.len()
}

/// The greatest common divisor, by Euclid's algorithm; `gcd(0, b) == b`.
pub open spec fn gcd_spec(a: nat, b: nat) -> nat
    decreases b,
{
    if b == 0 {
        a
    } else {
        gcd_spec(b, a % b)
    }
}

/// The indentation of one level: the greatest common divisor of the
/// non-zero indentations.
pub open spec fn unit_of(ls: Seq<Seq<u8>>) -> nat
    decreases ls.len(),
{
    if ls.len() == 0 {
        0
    } else {
        let u = unit_of(ls.drop_last());
        let p = indent(ls.last());
        if p == 0 {
            u
        } else {
            gcd_spec(u, p as nat)
        }
    }
}

/// The depth of a line, given the indentation of one level.
pub open spec fn depth_of(l: Seq<u8>, unit: nat) -> int {
    if unit == 0 {
        0
    } else {
        indent(l) / (unit as int)
    }
}

/// The lines of a configuration text, each with its depth and its text
/// after the indentation. Every line counts towards the indentation of one
/// level, blank ones included.
pub open spec fn parsed_lines(text: Seq<u8>) -> Seq<(int, Seq<u8>)> {
    let ls = lines_from(text, 0, 0);
    let u = unit_of(ls);
    ls.map_values(|l: Seq<u8>| (depth_of(l, u), l.subrange(indent(l), l.len() as int)))
}

/// The greatest common divisor.
pub fn gcd(a: usize, b: usize) -> (r: usize)
    ensures
        r == gcd_spec(a as nat, b as nat),
{
    let mut x: usize = a;
    let mut y: usize = b;
    while y != 0
        invariant
            gcd_spec(x as nat, y as nat) == gcd_spec(a as nat, b as nat),
        decreases y,
    {
        let t = x % y;
        x = y;
        y = t;
    }
    x
}

fn lead_spaces_at(l: &[u8]) -> (r: usize)
    ensures
        r == indent(l@),
        r <= l@.len(),
{
    let mut i: usize = 0;
    while i < l.len() && l[i] == 32
        invariant
            i <= l@.len(),
            lead_spaces(l@, 0) == lead_spaces(l@, i as int),
        decreases l@.len() - i,
    {
        i = i + 1;
    }
    i
}

fn strip_cr_copy(s: &[u8], start: usize, end: usize) -> (r: Vec<u8>)
    requires
        start <= end <= s@.len(),
    ensures
        r@ == strip_cr(s@.subrange(start as int, end as int)),
{
    if end > start && s[end - 1] == 13 {
        let r = copy_range(s, start, end - 1);
        assert(r@ =~= s@.subrange(start as int, end as int).drop_last());
        r
    } else {
        copy_range(s, start, end)
    }
}

/// Splits a text into lines.
fn split_lines(s: &[u8]) -> (r: Vec<Vec<u8>>)
    ensures
        r@.map_values(|l: Vec<u8>| l@) == lines_from(s@, 0, 0),
{
    let mut out: Vec<Vec<u8>> = Vec::new();
    let mut start: usize = 0;
    let mut i: usize = 0;
    while i < s.len()
        invariant
            start <= i <= s@.len(),
            out@.map_values(|l: Vec<u8>| l@) + lines_from(s@, start as int, i as int)
                == lines_from(s@, 0, 0),
        decreases s@.len() - i,
    {
        if s[i] == 10 {
            let line = strip_cr_copy(s, start, i);
            let ghost before = out@.map_values(|l: Vec<u8>| l@);
            out.push(line);
            assert(out@.map_values(|l: Vec<u8>| l@) =~= before.push(line@));
            assert(before.push(line@) + lines_from(s@, (i + 1) as int, (i + 1) as int) =~= before
                + (seq![line@] + lines_from(s@, (i + 1) as int, (i + 1) as int)));
            start = i + 1;
        }
        i = i + 1;
    }
    if start < s.len() {
        let line = strip_cr_copy(s, start, s.len());
        let ghost before = out@.map_values(|l: Vec<u8>| l@);
        out.push(line);
        assert(out@.map_values(|l: Vec<u8>| l@) =~= before.push(line@));
        assert(before.push(line@) =~= before + seq![line@]);
    } else {
        assert(out@.map_values(|l: Vec<u8>| l@) =~= out@.map_values(|l: Vec<u8>| l@) + Seq::<
            Seq<u8>,
        >::empty());
    }
    out
}

/// One line of a configuration text: its depth and its text after the
/// indentation.
pub struct Line {
    pub offset: usize,
    pub value: Vec<u8>,
}

/// The lines of a configuration text, ready to be arranged into a tree.
pub struct Parser {
    lines: Vec<Line>,
}

impl Parser {
    /// The depth and the text of each line.
    pub closed spec fn lines(&self) -> Seq<(int, Seq<u8>)> {
        self.lines@.map_values(|l: Line| (l.offset as int, l.value@))
    }

    pub closed spec fn wf(&self) -> bool {
        forall|j: int| 0 <= j < self.lines@.len() ==> (#[trigger] self.lines@[j]).offset < MAX_DEPTH
    }

    /// Splits a configuration text into lines and works out each one's
    /// depth; the indentation of one level is the greatest common divisor of
    /// the non-zero indentations of all lines, blank ones included. Blank
    /// lines are kept, one `Line` per line, and left out of the tree later.
    /// A line nested `MAX_DEPTH` levels deep or more is refused.
    pub fn new(text: &[u8]) -> (r: Result<Parser, Error>)
        ensures
            r is Ok <==> forall|j: int|
                0 <= j < parsed_lines(text@).len() ==> #[trigger] parsed_lines(text@)[j].0
                    < MAX_DEPTH,
            r matches Ok(p) ==> p.wf() && p.lines() == parsed_lines(text@),
    {
        let raw = split_lines(text);
        let ghost all = lines_from(text@, 0, 0);
        let lines_in = raw;
        let ghost ls = all;
        let mut unit: usize = 0;
        let mut j: usize = 0;
        while j < lines_in.len()
            invariant
                lines_in@.map_values(|l: Vec<u8>| l@) == ls,
                j <= lines_in@.len(),
                unit == unit_of(ls.subrange(0, j as int)),
            decreases lines_in@.len() - j,
        {
            assert(lines_in@.map_values(|l: Vec<u8>| l@)[j as int] == lines_in@[j as int]@);
            assert(ls.subrange(0, j + 1).drop_last() =~= ls.subrange(0, j as int));
            let p = lead_spaces_at(lines_in[j].as_slice());
            if p != 0 {
                unit = gcd(unit, p);
            }
            j = j + 1;
        }
        assert(ls.subrange(0, j as int) =~= ls);
        let ghost target = parsed_lines(text@);
        let mut lines: Vec<Line> = Vec::new();
        let mut n: usize = 0;
        while n < lines_in.len()
            invariant
                lines_in@.map_values(|l: Vec<u8>| l@) == ls,
                unit == unit_of(ls),
                target == parsed_lines(text@),
                ls == lines_from(text@, 0, 0),
                target == ls.map_values(
                    |l: Seq<u8>| (depth_of(l, unit as nat), l.subrange(indent(l), l.len() as int)),
                ),
                n <= lines_in@.len(),
                lines@.map_values(|l: Line| (l.offset as int, l.value@)) == target.subrange(0, n as int),
                forall|q: int| 0 <= q < lines@.len() ==> (#[trigger] lines@[q]).offset < MAX_DEPTH,
                forall|q: int| 0 <= q < n ==> #[trigger] target[q].0 < MAX_DEPTH,
            decreases lines_in@.len() - n,
        {
            let line = lines_in[n].as_slice();
            assert(lines_in@.map_values(|l: Vec<u8>| l@)[n as int] == line@);
            let p = lead_spaces_at(line);
            let depth: usize = if unit == 0 {
                0
            } else {
                p / unit
            };
            assert(target[n as int].0 == depth);
            if depth >= MAX_DEPTH {
                assert(!(parsed_lines(text@)[n as int].0 < MAX_DEPTH));
                return Err(Error::MisMatchStructure);
            }
            let value = copy_range(line, p, line.len());
            let ghost before = lines@.map_values(|l: Line| (l.offset as int, l.value@));
            lines.push(Line { offset: depth, value });
            assert(lines@.map_values(|l: Line| (l.offset as int, l.value@)) =~= before.push(
                (depth as int, value@),
            ));
            assert(target.subrange(0, n + 1) =~= target.subrange(0, n as int).push(target[n as int]));
            n = n + 1;
        }
        assert(target.subrange(0, n as int) =~= target);
        Ok(Parser { lines })
    }
}

// ---------------------------------------------------------------------
// The tree of lines
// ---------------------------------------------------------------------

/// The most recent line before `k` at depth `d` that is not blank, or -1
/// when there is none.
pub open spec fn last_at(ls: Seq<(int, Seq<u8>)>, d: int, k: int) -> int
    decreases k,
{
    if k <= 0 {
        -1
    } else if ls[k - 1].0 == d && !blank(ls[k - 1].1) {
        k - 1
    } else {
        last_at(ls, d, k - 1)
    }
}

/// The tree node that line `j` hangs under: the node of the most recent
/// line one level up, or the root. Line `j` itself is node `j + 1`; a blank
/// line hangs under nothing.
pub open spec fn parent_node(ls: Seq<(int, Seq<u8>)>, j: int) -> int {
    if ls[j].0 == 0 {
        0
    } else {
        last_at(ls, ls[j].0 - 1, j) + 1
    }
}

/// The children of node `i` among the nodes of the first `k` lines, in
/// order.
pub open spec fn children_upto(ls: Seq<(int, Seq<u8>)>, i: int, k: int) -> Seq<usize>
    decreases k,
{
    if k <= 0 {
        Seq::empty()
    } else {
        children_upto(ls, i, k - 1) + if !blank(ls[k - 1].1) && parent_node(ls, k - 1) == i {
            seq![k as usize]
        } else {
            Seq::<usize>::empty()
        }
    }
}

proof fn lemma_last_at_bounds(ls: Seq<(int, Seq<u8>)>, d: int, k: int)
    ensures
        -1 <= last_at(ls, d, k) < if k > 0 {
            k
        } else {
            0
        },
    decreases k,
{
    if k > 0 {
        lemma_last_at_bounds(ls, d, k - 1);
    }
}

proof fn lemma_no_later_children(ls: Seq<(int, Seq<u8>)>, i: int, k: int)
    requires
        k < i,
        0 <= k <= ls.len(),
    ensures
        children_upto(ls, i, k) == Seq::<usize>::empty(),
    decreases k,
{
    if k > 0 {
        lemma_no_later_children(ls, i, k - 1);
        if ls[k - 1].0 != 0 {
            lemma_last_at_bounds(ls, ls[k - 1].0 - 1, k - 1);
        }
    }
}

/// The name of an entry that has one.
pub open spec fn entry_name(e: EntryView) -> Option<Seq<u8>> {
    match e {
        EntryView::Section(n) => Some(n),
        EntryView::InlineList(n, _) => Some(n),
        EntryView::Scalar(n, _) => Some(n),
        EntryView::Item(_) => None,
        EntryView::Blank => None,
    }
}

/// The first node of `list`, from position `k` on, whose entry is named
/// `name`.
pub open spec fn first_named(
    entries: Seq<EntryView>,
    list: Seq<usize>,
    name: Seq<u8>,
    k: int,
) -> Option<usize>
    decreases list.len() - k,
{
    if k >= list.len() || k < 0 {
        None
    } else if entry_name(entries[list[k] as int]) == Some(name) {
        Some(list[k])
    } else {
        first_named(entries, list, name, k + 1)
    }
}

/// The level named `name` directly inside node `node`.
pub open spec fn next_spec(
    entries: Seq<EntryView>,
    kids: Seq<Seq<usize>>,
    node: int,
    name: Seq<u8>,
) -> Result<int, Error> {
    match entries[node] {
        EntryView::Section(_) => match first_named(entries, kids[node], name, 0) {
            Some(c) => Ok(c as int),
            None => Err(Error::Unknown),
        },
        EntryView::Item(_) => Err(Error::InvaildOperation),
        _ => Err(Error::Unknown),
    }
}

/// The node that a path of names leads to from the root.
pub open spec fn level_spec(entries: Seq<EntryView>, kids: Seq<Seq<usize>>, path: Seq<Seq<u8>>) -> Result<
    int,
    Error,
>
    decreases path.len(),
{
    if path.len() == 0 {
        Ok(0)
    } else {
        match level_spec(entries, kids, path.drop_last()) {
            Ok(n) => next_spec(entries, kids, n, path.last()),
            Err(e) => Err(e),
        }
    }
}

/// The values of the list items among the nodes of `list`, in order.
pub open spec fn items_of(entries: Seq<EntryView>, list: Seq<usize>) -> Seq<ValueView>
    decreases list.len(),
{
    if list.len() == 0 {
        Seq::empty()
    } else {
        items_of(entries, list.drop_last()) + match entries[list.last() as int] {
            EntryView::Item(v) => seq![v],
            _ => Seq::<ValueView>::empty(),
        }
    }
}

/// The list held at a node: a section's items, an inline list's values,
/// nothing for a scalar.
pub open spec fn list_at(entries: Seq<EntryView>, kids: Seq<Seq<usize>>, node: int) -> Result<
    Seq<ValueView>,
    Error,
> {
    match entries[node] {
        EntryView::Section(_) => Ok(items_of(entries, kids[node])),
        EntryView::InlineList(_, vs) => Ok(vs),
        EntryView::Scalar(_, _) => Ok(Seq::empty()),
        EntryView::Item(_) => Err(Error::MisMatchStructure),
        EntryView::Blank => Err(Error::MisMatchStructure),
    }
}

/// The strings of a list, unless one of its values is not a string.
pub open spec fn strings_of(vs: Seq<ValueView>) -> Option<Seq<Seq<u8>>>
    decreases vs.len(),
{
    if vs.len() == 0 {
        Some(Seq::empty())
    } else {
        match (strings_of(vs.drop_last()), vs.last()) {
            (Some(ss), ValueView::String(s)) => Some(ss.push(s)),
            _ => None,
        }
    }
}

/// A host of the configuration: its name and its `routing` list.
pub open spec fn host_spec(entries: Seq<EntryView>, kids: Seq<Seq<usize>>, node: int) -> Option<
    (Seq<u8>, Seq<Seq<u8>>),
> {
    match entry_name(entries[node]) {
        None => None,
        Some(name) => match next_spec(entries, kids, node, "routing".spec_bytes()) {
            Err(_) => None,
            Ok(r) => match list_at(entries, kids, r) {
                Err(_) => None,
                Ok(vs) => match strings_of(vs) {
                    None => None,
                    Some(ss) => Some((name, ss)),
                },
            },
        },
    }
}

/// The hosts of a list of nodes, unless one of them is malformed.
pub open spec fn hosts_of(entries: Seq<EntryView>, kids: Seq<Seq<usize>>, list: Seq<usize>) -> Option<
    Seq<(Seq<u8>, Seq<Seq<u8>>)>,
>
    decreases list.len(),
{
    if list.len() == 0 {
        Some(Seq::empty())
    } else {
        match (hosts_of(entries, kids, list.drop_last()), host_spec(entries, kids, list.last() as int)) {
            (Some(hs), Some(h)) => Some(hs.push(h)),
            _ => None,
        }
    }
}

/// A host name and the `host:port` texts it is routed to.
pub struct HostRoutes {
    pub name: Vec<u8>,
    pub routing: Vec<Vec<u8>>,
}

/// A parsed configuration: the tree of lines, and what each line says.
/// Node 0 is the root section.
pub struct Config {
    tree: crate::tree::Tree<Vec<u8>>,
    entries: Vec<Entry>,
}

impl Parser {
    /// Arranges the lines into a tree: each line hangs under the most recent
    /// line one level up, or under the root. A blank line gets its node but
    /// hangs under nothing and takes no line under it.
    pub fn tree(&self) -> (r: crate::tree::Tree<Vec<u8>>)
        requires
            self.wf(),
        ensures
            r.wf(),
            r.values().len() == self.lines().len() + 1,
            forall|j: int|
                0 <= j < self.lines().len() ==> #[trigger] r.values()[j + 1]@ == self.lines()[j].1,
            r.kids().len() == self.lines().len() + 1,
            forall|i: int|
                0 <= i <= self.lines().len() ==> #[trigger] r.kids()[i] == children_upto(
                    self.lines(),
                    i,
                    self.lines().len() as int,
                ),
    {
        let ghost ls = self.lines();
        let root_text = "root:".as_bytes();
        let root = copy_range(root_text, 0, root_text.len());
        let mut tree = crate::tree::Tree::new(root);
        let mut parents: Vec<usize> = Vec::new();
        let mut d: usize = 0;
        while d <= MAX_DEPTH
            invariant
                d <= MAX_DEPTH + 1,
                parents@.len() == d,
                forall|q: int| 0 <= q < d ==> #[trigger] parents@[q] == 0,
            decreases MAX_DEPTH + 1 - d,
        {
            parents.push(0);
            d = d + 1;
        }
        let mut k: usize = 0;
        while k < self.lines.len()
            invariant
                ls == self.lines(),
                self.wf(),
                k <= ls.len(),
                ls.len() == self.lines@.len(),
                tree.wf(),
                tree.values().len() == k + 1,
                tree.kids().len() == k + 1,
                forall|j: int| 0 <= j < k ==> #[trigger] tree.values()[j + 1]@ == ls[j].1,
                forall|i: int| 0 <= i <= k ==> #[trigger] tree.kids()[i] == children_upto(ls, i, k as int),
                parents@.len() == MAX_DEPTH + 1,
                parents@[0] == 0,
                forall|q: int|
                    1 <= q <= MAX_DEPTH ==> #[trigger] parents@[q] == last_at(ls, q - 1, k as int)
                        + 1,
            decreases ls.len() - k,
        {
            let line = &self.lines[k];
            assert(ls[k as int] == (line.offset as int, line.value@));
            assert(line.offset < MAX_DEPTH);
            let value = copy_range(line.value.as_slice(), 0, line.value.len());
            assert(value@ =~= line.value@);
            let ghost before = tree;
            let node = tree.add_node(value);
            let says_something = skip_space_at(line.value.as_slice(), 0) < line.value.len();
            if says_something {
                let parent = crate::tree::Node { index: parents[line.offset] };
                proof {
                    if line.offset > 0 {
                        lemma_last_at_bounds(ls, line.offset - 1, k as int);
                    }
                    assert(parent.index == parent_node(ls, k as int));
                }
                parent.add_child(&mut tree, node);
                parents.set(line.offset + 1, node.index);
            }
            proof {
                lemma_no_later_children(ls, k + 1, k as int);
                assert forall|i: int| 0 <= i <= k + 1 implies #[trigger] tree.kids()[i]
                    == children_upto(ls, i, k + 1) by {
                    if i <= k {
                        assert(before.kids()[i] == children_upto(ls, i, k as int));
                    }
                }
                assert forall|j: int| 0 <= j < k + 1 implies #[trigger] tree.values()[j + 1]@ == ls[j].1 by {
                    if j < k {
                        assert(before.values()[j + 1]@ == ls[j].1);
                    }
                }
            }
            k = k + 1;
        }
        tree
    }

    /// Parses every line and arranges them into a tree. A line that says
    /// nothing this format knows is refused.
    pub fn parse(&self) -> (r: Result<Config, Error>)
        requires
            self.wf(),
        ensures
            r is Ok <==> forall|j: int|
                0 <= j < self.lines().len() ==> #[trigger] entry_spec(self.lines()[j].1) is Ok,
            r matches Ok(c) ==> {
                &&& c.wf()
                &&& c.entries().len() == self.lines().len() + 1
                &&& c.entries()[0] == EntryView::Section("root".spec_bytes())
                &&& forall|j: int|
                    0 <= j < self.lines().len() ==> Ok::<EntryView, Error>(
                        #[trigger] c.entries()[j + 1],
                    ) == entry_spec(self.lines()[j].1)
                &&& forall|i: int|
                    0 <= i <= self.lines().len() ==> #[trigger] c.kids()[i] == children_upto(
                        self.lines(),
                        i,
                        self.lines().len() as int,
                    )
            },
    {
        let ghost ls = self.lines();
        let mut entries: Vec<Entry> = Vec::new();
        let root_name = "root".as_bytes();
        let name = copy_range(root_name, 0, root_name.len());
        assert(name@ =~= "root".spec_bytes());
        entries.push(Entry::Section(name));
        let mut k: usize = 0;
        while k < self.lines.len()
            invariant
                ls == self.lines(),
                ls.len() == self.lines@.len(),
                k <= ls.len(),
                entries@.len() == k + 1,
                entries@[0]@ == EntryView::Section("root".spec_bytes()),
                forall|j: int|
                    0 <= j < k ==> Ok::<EntryView, Error>(#[trigger] entries@[j + 1]@) == entry_spec(
                        ls[j].1,
                    ),
                forall|j: int| 0 <= j < k ==> #[trigger] entry_spec(ls[j].1) is Ok,
            decreases ls.len() - k,
        {
            assert(ls[k as int] == (self.lines@[k as int].offset as int, self.lines@[k as int].value@));
            match Entry::parse(self.lines[k].value.as_slice()) {
                Ok(e) => {
                    entries.push(e);
                },
                Err(e) => {
                    assert(!(entry_spec(ls[k as int].1) is Ok));
                    return Err(e);
                },
            }
            k = k + 1;
        }
        let tree = self.tree();
        let c = Config { tree, entries };
        assert forall|j: int| 0 <= j < ls.len() implies Ok::<EntryView, Error>(
            #[trigger] c.entries()[j + 1],
        ) == entry_spec(ls[j].1) by {
            assert(c.entries()[j + 1] == c.entries@[j + 1]@);
        }
        Ok(c)
    }
}

impl Config {
    pub closed spec fn wf(&self) -> bool {
        &&& self.tree.wf()
        &&& self.entries@.len() == self.tree.values().len()
    }

    /// What each node says, by index.
    pub closed spec fn entries(&self) -> Seq<EntryView> {
        self.entries@.map_values(|e: Entry| e@)
    }

    /// The children of each node, by index.
    pub closed spec fn kids(&self) -> Seq<Seq<usize>> {
        self.tree.kids()
    }

    proof fn lemma_bounds(&self)
        requires
            self.wf(),
        ensures
            self.kids().len() == self.entries().len(),
            self.entries().len() > 0,
            forall|i: int, k: int|
                0 <= i < self.kids().len() && 0 <= k < self.kids()[i].len() ==> #[trigger] self.kids()[i][k]
                    < self.entries().len(),
    {
        self.tree.lemma_kids_bounded();
    }

    /// The level named `name` directly inside `node`.
    pub fn next_level(&self, node: usize, name: &[u8]) -> (r: Result<usize, Error>)
        requires
            self.wf(),
            node < self.entries().len(),
        ensures
            match r {
                Ok(c) => next_spec(self.entries(), self.kids(), node as int, name@) == Ok::<
                    int,
                    Error,
                >(c as int) && c < self.entries().len(),
                Err(e) => next_spec(self.entries(), self.kids(), node as int, name@) == Err::<
                    int,
                    Error,
                >(e),
            },
    {
        proof {
            self.lemma_bounds();
        }
        let ghost es = self.entries();
        assert(self.entries@[node as int]@ == es[node as int]);
        match &self.entries[node] {
            Entry::Section(_) => {},
            Entry::Item(_) => {
                return Err(Error::InvaildOperation);
            },
            _ => {
                return Err(Error::Unknown);
            },
        }
        assert(es[node as int] is Section);
        let list = crate::tree::Node { index: node }.children(&self.tree);
        let ghost kl = self.kids()[node as int];
        let mut k: usize = 0;
        while k < list.len()
            invariant
                self.wf(),
                es == self.entries(),
                kl == self.kids()[node as int],
                node < es.len(),
                list@.len() == kl.len(),
                forall|q: int| 0 <= q < list@.len() ==> #[trigger] list@[q].index == kl[q],
                forall|q: int| 0 <= q < kl.len() ==> #[trigger] kl[q] < es.len(),
                k <= list@.len(),
                first_named(es, kl, name@, 0) == first_named(es, kl, name@, k as int),
                es[node as int] is Section,
            decreases list@.len() - k,
        {
            let c = list[k].index;
            assert(c == kl[k as int]);
            assert(self.entries@[c as int]@ == es[c as int]);
            let named = match &self.entries[c] {
                Entry::Section(n) => bytes_eq(n.as_slice(), name),
                Entry::InlineList(n, _) => bytes_eq(n.as_slice(), name),
                Entry::Scalar(n, _) => bytes_eq(n.as_slice(), name),
                Entry::Item(_) => false,
                Entry::Blank => false,
            };
            if named {
                assert(first_named(es, kl, name@, k as int) == Some(c));
                return Ok(c);
            }
            k = k + 1;
        }
        Err(Error::Unknown)
    }

    /// The node that a path of names leads to from the root.
    pub fn level(&self, path: &[&str]) -> (r: Result<usize, Error>)
        requires
            self.wf(),
        ensures
            match r {
                Ok(n) => level_spec(
                    self.entries(),
                    self.kids(),
                    path@.map_values(|s: &str| s.spec_bytes()),
                ) == Ok::<int, Error>(n as int) && n < self.entries().len(),
                Err(e) => level_spec(
                    self.entries(),
                    self.kids(),
                    path@.map_values(|s: &str| s.spec_bytes()),
                ) == Err::<int, Error>(e),
            },
    {
        proof {
            self.lemma_bounds();
        }
        let ghost names = path@.map_values(|s: &str| s.spec_bytes());
        let mut current: usize = 0;
        let mut i: usize = 0;
        while i < path.len()
            invariant
                self.wf(),
                self.entries().len() > 0,
                names == path@.map_values(|s: &str| s.spec_bytes()),
                i <= path@.len(),
                current < self.entries().len(),
                level_spec(self.entries(), self.kids(), names.subrange(0, i as int)) == Ok::<
                    int,
                    Error,
                >(current as int),
            decreases path@.len() - i,
        {
            assert(names.subrange(0, i + 1).drop_last() =~= names.subrange(0, i as int));
            assert(names[i as int] == path@[i as int].spec_bytes());
            let name = path[i].as_bytes();
            match self.next_level(current, name) {
                Ok(c) => {
                    current = c;
                },
                Err(e) => {
                    proof {
                        lemma_level_stays_failed(self.entries(), self.kids(), names, i + 1);
                    }
                    assert(names.subrange(0, names.len() as int) =~= names);
                    return Err(e);
                },
            }
            i = i + 1;
        }
        assert(names.subrange(0, i as int) =~= names);
        Ok(current)
    }

    /// The scalar at the end of a path.
    pub fn value(&self, path: &[&str]) -> (r: Result<Value, Error>)
        requires
            self.wf(),
        ensures
            match level_spec(self.entries(), self.kids(), path@.map_values(|s: &str| s.spec_bytes())) {
                Err(e) => r == Err::<Value, Error>(e),
                Ok(n) => match self.entries()[n] {
                    EntryView::Scalar(_, v) => r matches Ok(x) && x@ == v,
                    _ => r == Err::<Value, Error>(Error::MisMatchStructure),
                },
            },
    {
        let node = match self.level(path) {
            Ok(n) => n,
            Err(e) => {
                return Err(e);
            },
        };
        assert(self.entries@[node as int]@ == self.entries()[node as int]);
        match &self.entries[node] {
            Entry::Scalar(_, v) => Ok(v.copy()),
            _ => Err(Error::MisMatchStructure),
        }
    }

    fn list_at_node(&self, node: usize) -> (r: Result<Vec<Value>, Error>)
        requires
            self.wf(),
            node < self.entries().len(),
        ensures
            match list_at(self.entries(), self.kids(), node as int) {
                Err(e) => r == Err::<Vec<Value>, Error>(e),
                Ok(vs) => r matches Ok(x) && x@.map_values(|v: Value| v@) == vs,
            },
    {
        proof {
            self.lemma_bounds();
        }
        let ghost es = self.entries();
        assert(self.entries@[node as int]@ == es[node as int]);
        match &self.entries[node] {
            Entry::Section(_) => {},
            Entry::InlineList(_, vs) => {
                let mut out: Vec<Value> = Vec::new();
                let mut k: usize = 0;
                while k < vs.len()
                    invariant
                        k <= vs@.len(),
                        out@.map_values(|v: Value| v@) == vs@.map_values(|v: Value| v@).subrange(
                            0,
                            k as int,
                        ),
                    decreases vs@.len() - k,
                {
                    let ghost before = out@.map_values(|v: Value| v@);
                    assert(vs@.map_values(|v: Value| v@)[k as int] == vs@[k as int]@);
                    let item = vs[k].copy();
                    out.push(item);
                    assert(out@.map_values(|v: Value| v@) =~= before.push(item@));
                    assert(vs@.map_values(|v: Value| v@).subrange(0, k + 1) =~= vs@.map_values(
                        |v: Value| v@,
                    ).subrange(0, k as int).push(vs@.map_values(|v: Value| v@)[k as int]));
                    k = k + 1;
                }
                assert(vs@.map_values(|v: Value| v@).subrange(0, k as int) =~= vs@.map_values(
                    |v: Value| v@,
                ));
                return Ok(out);
            },
            Entry::Scalar(_, _) => {
                let out: Vec<Value> = Vec::new();
                assert(out@.map_values(|v: Value| v@) =~= Seq::<ValueView>::empty());
                return Ok(out);
            },
            Entry::Item(_) | Entry::Blank => {
                return Err(Error::MisMatchStructure);
            },
        }
        let list = crate::tree::Node { index: node }.children(&self.tree);
        let ghost kl = self.kids()[node as int];
        let mut out: Vec<Value> = Vec::new();
        let mut k: usize = 0;
        while k < list.len()
            invariant
                self.wf(),
                es == self.entries(),
                kl == self.kids()[node as int],
                list@.len() == kl.len(),
                forall|q: int| 0 <= q < list@.len() ==> #[trigger] list@[q].index == kl[q],
                forall|q: int| 0 <= q < kl.len() ==> #[trigger] kl[q] < es.len(),
                k <= list@.len(),
                out@.map_values(|v: Value| v@) == items_of(es, kl.subrange(0, k as int)),
            decreases list@.len() - k,
        {
            let c = list[k].index;
            assert(c == kl[k as int]);
            assert(self.entries@[c as int]@ == es[c as int]);
            assert(kl.subrange(0, k + 1).drop_last() =~= kl.subrange(0, k as int));
            let ghost before = out@.map_values(|v: Value| v@);
            match &self.entries[c] {
                Entry::Item(v) => {
                    out.push(v.copy());
                    assert(out@.map_values(|v: Value| v@) =~= before + seq![v@]);
                },
                _ => {
                    assert(before =~= before + Seq::<ValueView>::empty());
                },
            }
            k = k + 1;
        }
        assert(kl.subrange(0, k as int) =~= kl);
        Ok(out)
    }

    /// The list at the end of a path: a section's items, an inline list's
    /// values, nothing for a scalar.
    pub fn list(&self, path: &[&str]) -> (r: Result<Vec<Value>, Error>)
        requires
            self.wf(),
        ensures
            match level_spec(self.entries(), self.kids(), path@.map_values(|s: &str| s.spec_bytes())) {
                Err(e) => r == Err::<Vec<Value>, Error>(e),
                Ok(n) => match list_at(self.entries(), self.kids(), n) {
                    Err(e) => r == Err::<Vec<Value>, Error>(e),
                    Ok(vs) => r matches Ok(x) && x@.map_values(|v: Value| v@) == vs,
                },
            },
    {
        let node = match self.level(path) {
            Ok(n) => n,
            Err(e) => {
                return Err(e);
            },
        };
        self.list_at_node(node)
    }

    /// The name of the level at `node`.
    pub fn field_name(&self, node: usize) -> (r: Result<Vec<u8>, Error>)
        requires
            self.wf(),
            node < self.entries().len(),
        ensures
            match entry_name(self.entries()[node as int]) {
                Some(n) => r matches Ok(x) && x@ == n,
                None => r == Err::<Vec<u8>, Error>(Error::MisMatchStructure),
            },
    {
        assert(self.entries@[node as int]@ == self.entries()[node as int]);
        match &self.entries[node] {
            Entry::Section(n) => Ok(copy_range(n.as_slice(), 0, n.len())),
            Entry::InlineList(n, _) => Ok(copy_range(n.as_slice(), 0, n.len())),
            Entry::Scalar(n, _) => Ok(copy_range(n.as_slice(), 0, n.len())),
            Entry::Item(_) | Entry::Blank => Err(Error::MisMatchStructure),
        }
    }
}

/// The scalar at the end of a path.
pub open spec fn scalar_at(entries: Seq<EntryView>, kids: Seq<Seq<usize>>, path: Seq<Seq<u8>>) -> Result<
    ValueView,
    Error,
> {
    match level_spec(entries, kids, path) {
        Err(e) => Err(e),
        Ok(n) => match entries[n] {
            EntryView::Scalar(_, v) => Ok(v),
            _ => Err(Error::MisMatchStructure),
        },
    }
}

/// The server's settings: `server.addr`, a string, and `server.thread`, a
/// whole number of at least one.
pub open spec fn server_spec(entries: Seq<EntryView>, kids: Seq<Seq<usize>>) -> Result<
    (Seq<u8>, usize),
    Error,
> {
    let addr = scalar_at(entries, kids, seq!["server".spec_bytes(), "addr".spec_bytes()]);
    let thread = scalar_at(entries, kids, seq!["server".spec_bytes(), "thread".spec_bytes()]);
    match addr {
        Err(e) => Err(e),
        Ok(ValueView::String(a)) => match thread {
            Err(e) => Err(e),
            Ok(ValueView::Number(t)) => match crate::header::decimal_result(t) {
                Ok(n) => if n > 0 {
                    Ok((a, n))
                } else {
                    Err(Error::MisMatchType)
                },
                Err(_) => Err(Error::MisMatchType),
            },
            Ok(_) => Err(Error::MisMatchType),
        },
        Ok(_) => Err(Error::MisMatchType),
    }
}

/// A host as the contracts see it.
pub open spec fn host_routes_view(h: HostRoutes) -> (Seq<u8>, Seq<Seq<u8>>) {
    (h.name@, h.routing@.map_values(|r: Vec<u8>| r@))
}

proof fn lemma_strings_stay_none(vs: Seq<ValueView>, i: int)
    requires
        1 <= i <= vs.len(),
        strings_of(vs.subrange(0, i)) is None,
    ensures
        strings_of(vs) is None,
    decreases vs.len() - i,
{
    if i < vs.len() {
        assert(vs.subrange(0, i + 1).drop_last() =~= vs.subrange(0, i));
        lemma_strings_stay_none(vs, i + 1);
    } else {
        assert(vs.subrange(0, i) =~= vs);
    }
}

proof fn lemma_hosts_stay_none(
    entries: Seq<EntryView>,
    kids: Seq<Seq<usize>>,
    list: Seq<usize>,
    i: int,
)
    requires
        1 <= i <= list.len(),
        hosts_of(entries, kids, list.subrange(0, i)) is None,
    ensures
        hosts_of(entries, kids, list) is None,
    decreases list.len() - i,
{
    if i < list.len() {
        assert(list.subrange(0, i + 1).drop_last() =~= list.subrange(0, i));
        lemma_hosts_stay_none(entries, kids, list, i + 1);
    } else {
        assert(list.subrange(0, i) =~= list);
    }
}

impl Value {
    /// The number, when the value is a whole decimal number that fits.
    pub fn to_usize(&self) -> (r: Result<usize, Error>)
        ensures
            r == match self@ {
                ValueView::Number(t) => match crate::header::decimal_result(t) {
                    Ok(n) => Ok::<usize, Error>(n),
                    Err(_) => Err(Error::MisMatchType),
                },
                _ => Err(Error::MisMatchType),
            },
    {
        match self {
            Value::Number(t) => match crate::header::parse_numeric(t.as_slice()) {
                Ok(n) => Ok(n),
                Err(_) => Err(Error::MisMatchType),
            },
            _ => Err(Error::MisMatchType),
        }
    }

    /// The text, when the value is a string.
    pub fn to_text(&self) -> (r: Result<Vec<u8>, Error>)
        ensures
            match self@ {
                ValueView::String(t) => r matches Ok(x) && x@ == t,
                _ => r == Err::<Vec<u8>, Error>(Error::MisMatchType),
            },
    {
        match self {
            Value::String(t) => Ok(copy_range(t.as_slice(), 0, t.len())),
            _ => Err(Error::MisMatchType),
        }
    }
}

impl Config {
    fn host_at(&self, node: usize) -> (r: Option<HostRoutes>)
        requires
            self.wf(),
            node < self.entries().len(),
        ensures
            match host_spec(self.entries(), self.kids(), node as int) {
                None => r is None,
                Some(h) => r matches Some(x) && host_routes_view(x) == h,
            },
    {
        let name = match self.field_name(node) {
            Ok(n) => n,
            Err(_) => {
                return None;
            },
        };
        let routing_node = match self.next_level(node, "routing".as_bytes()) {
            Ok(r) => r,
            Err(_) => {
                return None;
            },
        };
        let values = match self.list_at_node(routing_node) {
            Ok(vs) => vs,
            Err(_) => {
                return None;
            },
        };
        let ghost vv = values@.map_values(|v: Value| v@);
        let ghost name_view = name@;
        assert(host_spec(self.entries(), self.kids(), node as int) == match strings_of(vv) {
            None => None,
            Some(ss) => Some((name_view, ss)),
        });
        let mut routing: Vec<Vec<u8>> = Vec::new();
        let mut k: usize = 0;
        while k < values.len()
            invariant
                vv == values@.map_values(|v: Value| v@),
                name_view == name@,
                host_spec(self.entries(), self.kids(), node as int) == match strings_of(vv) {
                    None => None,
                    Some(ss) => Some((name_view, ss)),
                },
                k <= values@.len(),
                strings_of(vv.subrange(0, k as int)) == Some(
                    routing@.map_values(|r: Vec<u8>| r@),
                ),
            decreases values@.len() - k,
        {
            assert(vv[k as int] == values@[k as int]@);
            assert(vv.subrange(0, k + 1).drop_last() =~= vv.subrange(0, k as int));
            match &values[k] {
                Value::String(t) => {
                    let ghost before = routing@.map_values(|r: Vec<u8>| r@);
                    let text = copy_range(t.as_slice(), 0, t.len());
                    assert(text@ =~= t@);
                    routing.push(text);
                    assert(routing@.map_values(|r: Vec<u8>| r@) =~= before.push(t@));
                },
                _ => {
                    proof {
                        lemma_strings_stay_none(vv, k + 1);
                    }
                    return None;
                },
            }
            k = k + 1;
        }
        assert(vv.subrange(0, k as int) =~= vv);
        Some(HostRoutes { name, routing })
    }

    /// The server's listen address and number of workers.
    pub fn server(&self) -> (r: Result<(Vec<u8>, usize), Error>)
        requires
            self.wf(),
        ensures
            match server_spec(self.entries(), self.kids()) {
                Ok((a, n)) => r matches Ok(x) && x.0@ == a && x.1 == n,
                Err(e) => r == Err::<(Vec<u8>, usize), Error>(e),
            },
    {
        let addr_path: [&str; 2] = ["server", "addr"];
        assert(addr_path@.map_values(|s: &str| s.spec_bytes()) =~= seq![
            "server".spec_bytes(),
            "addr".spec_bytes(),
        ]);
        let thread_path: [&str; 2] = ["server", "thread"];
        assert(thread_path@.map_values(|s: &str| s.spec_bytes()) =~= seq![
            "server".spec_bytes(),
            "thread".spec_bytes(),
        ]);
        let addr = match self.value(addr_path.as_slice()) {
            Ok(v) => v,
            Err(e) => {
                return Err(e);
            },
        };
        let addr = match addr.to_text() {
            Ok(a) => a,
            Err(e) => {
                return Err(e);
            },
        };
        let thread = match self.value(thread_path.as_slice()) {
            Ok(v) => v,
            Err(e) => {
                return Err(e);
            },
        };
        let thread = match thread.to_usize() {
            Ok(n) => n,
            Err(e) => {
                return Err(e);
            },
        };
        if thread == 0 {
            return Err(Error::MisMatchType);
        }
        Ok((addr, thread))
    }

    /// The hosts of the `hosts` section, in order: each one's name and its
    /// `routing` list of strings. A host without one is refused.
    pub fn hosts(&self) -> (r: Result<Vec<HostRoutes>, Error>)
        requires
            self.wf(),
        ensures
            match level_spec(self.entries(), self.kids(), seq!["hosts".spec_bytes()]) {
                Err(e) => r == Err::<Vec<HostRoutes>, Error>(e),
                Ok(n) => match self.entries()[n] {
                    EntryView::Section(_) => match hosts_of(self.entries(), self.kids(), self.kids()[n]) {
                        None => r == Err::<Vec<HostRoutes>, Error>(Error::ParsingProvidedStruct),
                        Some(hs) => r matches Ok(x) && x@.map_values(|h: HostRoutes| host_routes_view(h))
                            == hs,
                    },
                    _ => r == Err::<Vec<HostRoutes>, Error>(Error::MisMatchStructure),
                },
            },
    {
        proof {
            self.lemma_bounds();
        }
        let path: [&str; 1] = ["hosts"];
        assert(path@.map_values(|s: &str| s.spec_bytes()) =~= seq!["hosts".spec_bytes()]);
        let node = match self.level(path.as_slice()) {
            Ok(n) => n,
            Err(e) => {
                return Err(e);
            },
        };
        let ghost es = self.entries();
        assert(self.entries@[node as int]@ == es[node as int]);
        match &self.entries[node] {
            Entry::Section(_) => {},
            _ => {
                return Err(Error::MisMatchStructure);
            },
        }
        assert(es[node as int] is Section);
        let list = crate::tree::Node { index: node }.children(&self.tree);
        let ghost kl = self.kids()[node as int];
        let mut out: Vec<HostRoutes> = Vec::new();
        let mut k: usize = 0;
        while k < list.len()
            invariant
                self.wf(),
                es == self.entries(),
                kl == self.kids()[node as int],
                list@.len() == kl.len(),
                forall|q: int| 0 <= q < list@.len() ==> #[trigger] list@[q].index == kl[q],
                forall|q: int| 0 <= q < kl.len() ==> #[trigger] kl[q] < es.len(),
                k <= list@.len(),
                level_spec(es, self.kids(), seq!["hosts".spec_bytes()]) == Ok::<int, Error>(
                    node as int,
                ),
                node < es.len(),
                es[node as int] is Section,
                hosts_of(es, self.kids(), kl.subrange(0, k as int)) == Some(
                    out@.map_values(|h: HostRoutes| host_routes_view(h)),
                ),
            decreases list@.len() - k,
        {
            let c = list[k].index;
            assert(c == kl[k as int]);
            assert(kl.subrange(0, k + 1).drop_last() =~= kl.subrange(0, k as int));
            match self.host_at(c) {
                Some(h) => {
                    let ghost before = out@.map_values(|h: HostRoutes| host_routes_view(h));
                    let ghost hv = host_routes_view(h);
                    out.push(h);
                    assert(out@.map_values(|h: HostRoutes| host_routes_view(h)) =~= before.push(hv));
                },
                None => {
                    proof {
                        lemma_hosts_stay_none(es, self.kids(), kl, k + 1);
                    }
                    return Err(Error::ParsingProvidedStruct);
                },
            }
            k = k + 1;
        }
        assert(kl.subrange(0, k as int) =~= kl);
        Ok(out)
    }
}

proof fn lemma_level_stays_failed(
    entries: Seq<EntryView>,
    kids: Seq<Seq<usize>>,
    path: Seq<Seq<u8>>,
    i: int,
)
    requires
        1 <= i <= path.len(),
        level_spec(entries, kids, path.subrange(0, i)) is Err,
    ensures
        level_spec(entries, kids, path.subrange(0, path.len() as int)) == level_spec(
            entries,
            kids,
            path.subrange(0, i),
        ),
    decreases path.len() - i,
{
    if i < path.len() {
        assert(path.subrange(0, i + 1).drop_last() =~= path.subrange(0, i));
        lemma_level_stays_failed(entries, kids, path, i + 1);
    }
}

} // verus!
