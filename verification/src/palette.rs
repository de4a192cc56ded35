//! The palette sheet: a grid of colour cells above a footer that shows the
//! logo. This module holds the grid's geometry and prepares the logo's
//! markup for embedding.

use crate::number::{format_number, natural_text, number_text, push_natural};
use crate::text::{char_is_whitespace, chars_of, is_whitespace, push_text};
use std::collections::BTreeMap;
use vstd::prelude::*;

verus! {

/// The side of a cell.
pub const CELL: i32 = 100;

/// The margin around the grid.
pub const PAD: i32 = 24;

/// The number of columns.
pub const COLS: i32 = 4;

/// The number of rows.
pub const ROWS: i32 = 4;

/// The height of the footer below the grid.
pub const EXTRA: i32 = 96;

/// The number of cells, and so of colours in a palette.
pub const CELLS: usize = 16;

/// The width and the height of the sheet.
pub fn canvas_size() -> (size: (i32, i32))
    ensures
        size.0 == CELL * COLS + PAD * 2,
        size.1 == CELL * ROWS + PAD * 2 + EXTRA,
{
    (CELL * COLS + PAD * 2, CELL * ROWS + PAD * 2 + EXTRA)
}

/// The vertical position of the grid's lower edge.
pub fn grid_bottom() -> (y: i32)
    ensures
        y == PAD + ROWS * CELL,
{
    PAD + ROWS * CELL
}

/// The upper left corner of the `i`-th cell; the cells fill the grid row by
/// row.
pub fn cell_origin(i: usize) -> (at: (i32, i32))
    requires
        i < CELLS,
    ensures
        at.0 == PAD + (i % 4) * CELL,
        at.1 == PAD + (i / 4) * CELL,
{
    (PAD + ((i % 4) as i32) * CELL, PAD + ((i / 4) as i32) * CELL)
}

/// A line without the carriage return that may end it.
pub open spec fn without_cr(line: Seq<char>) -> Seq<char> {
    if line.len() > 0 && line.last() == '\r' {
        line.drop_last()
    } else {
        line
    }
}

/// The lines of `s` that follow once `current` has been read as the start
/// of a line. A line feed ends a line, together with a carriage return
/// before it; what follows the last line feed is a line unless it is empty.
pub open spec fn lines_after(s: Seq<char>, current: Seq<char>) -> Seq<Seq<char>>
    decreases s.len(),
{
    if s.len() == 0 {
        if current.len() > 0 {
            seq![current]
        } else {
            Seq::empty()
        }
    } else if s[0] == '\n' {
        seq![without_cr(current)] + lines_after(s.drop_first(), Seq::empty())
    } else {
        lines_after(s.drop_first(), current.push(s[0]))
    }
}

/// The lines of `s`.
pub open spec fn lines_of(s: Seq<char>) -> Seq<Seq<char>> {
    lines_after(s, Seq::empty())
}

/// The number of whitespace characters that `line` starts with.
pub open spec fn indent(line: Seq<char>) -> int
    decreases line.len(),
{
    if line.len() == 0 || !is_whitespace(line[0]) {
        0
    } else {
        1 + indent(line.drop_first())
    }
}

/// Whether `s` starts with `p`.
pub open spec fn has_prefix(s: Seq<char>, p: Seq<char>) -> bool {
    s.len() >= p.len() && s.take(p.len() as int) == p
}

/// How an XML declaration starts.
pub open spec fn declaration_start() -> Seq<char> {
    seq!['<', '?', 'x', 'm', 'l']
}

/// How a document type declaration starts.
pub open spec fn doctype_start() -> Seq<char> {
    seq!['<', '!', 'D', 'O', 'C', 'T', 'Y', 'P', 'E']
}

/// Whether a line belongs to the prolog: after its indentation it starts an
/// XML declaration or a document type declaration.
pub open spec fn is_prolog_line(line: Seq<char>) -> bool {
    has_prefix(line.skip(indent(line)), declaration_start()) || has_prefix(
        line.skip(indent(line)),
        doctype_start(),
    )
}

/// The lines that are kept, joined by line feeds.
pub open spec fn joined_body(lines: Seq<Seq<char>>) -> Seq<char>
    decreases lines.len(),
{
    if lines.len() == 0 {
        Seq::empty()
    } else if is_prolog_line(lines.last()) {
        joined_body(lines.drop_last())
    } else if kept_count(lines.drop_last()) == 0 {
        lines.last()
    } else {
        joined_body(lines.drop_last()) + seq!['\n'] + lines.last()
    }
}

/// The number of lines that do not belong to the prolog.
pub open spec fn kept_count(lines: Seq<Seq<char>>) -> nat
    decreases lines.len(),
{
    if lines.len() == 0 {
        0
    } else if is_prolog_line(lines.last()) {
        kept_count(lines.drop_last())
    } else {
        kept_count(lines.drop_last()) + 1
    }
}

/// The markup without its prolog: every line but those that start an XML
/// declaration or a document type declaration, joined by line feeds.
pub open spec fn body_of(markup: Seq<char>) -> Seq<char> {
    joined_body(lines_of(markup))
}

proof fn lemma_indent(line: Seq<char>, k: int)
    requires
        0 <= k <= line.len(),
        forall|j: int| 0 <= j < k ==> is_whitespace(#[trigger] line[j]),
        k == line.len() || !is_whitespace(line[k]),
    ensures
        indent(line) == k,
    decreases line.len(),
{
    if line.len() == 0 || !is_whitespace(line[0]) {
    } else {
        let rest = line.drop_first();
        assert forall|j: int| 0 <= j < k - 1 implies is_whitespace(#[trigger] rest[j]) by {
            assert(rest[j] == line[j + 1]);
        }
        lemma_indent(rest, k - 1);
    }
}

fn starts_at(v: &Vec<char>, from: usize, to: usize, p: &Vec<char>) -> (r: bool)
    requires
        from <= to <= v.len(),
    ensures
        r == has_prefix(v@.subrange(from as int, to as int), p@),
{
    let ghost s = v@.subrange(from as int, to as int);
    if to - from < p.len() {
        return false;
    }
    let mut i: usize = 0;
    while i < p.len()
        invariant
            i <= p.len(),
            from <= to <= v.len(),
            to - from >= p.len(),
            s == v@.subrange(from as int, to as int),
            forall|j: int| 0 <= j < i ==> s[j] == p@[j],
        decreases p.len() - i,
    {
        if v[from + i] != p[i] {
            assert(s.take(p.len() as int)[i as int] == s[i as int]);
            return false;
        }
        i += 1;
    }
    assert(s.take(p.len() as int) =~= p@);
    true
}

fn line_is_prolog(v: &Vec<char>, from: usize, to: usize) -> (r: bool)
    requires
        from <= to <= v.len(),
    ensures
        r == is_prolog_line(v@.subrange(from as int, to as int)),
{
    let ghost line = v@.subrange(from as int, to as int);
    let mut start: usize = from;
    while start < to && char_is_whitespace(v[start])
        invariant
            from <= start <= to <= v.len(),
            line == v@.subrange(from as int, to as int),
            forall|j: int| 0 <= j < start - from ==> is_whitespace(#[trigger] line[j]),
        decreases to - start,
    {
        start += 1;
    }
    proof {
        lemma_indent(line, start - from);
        assert(line.skip(start - from) =~= v@.subrange(start as int, to as int));
    }
    let mut declaration: Vec<char> = Vec::new();
    declaration.push('<');
    declaration.push('?');
    declaration.push('x');
    declaration.push('m');
    declaration.push('l');
    assert(declaration@ =~= declaration_start());
    let mut doctype: Vec<char> = Vec::new();
    doctype.push('<');
    doctype.push('!');
    doctype.push('D');
    doctype.push('O');
    doctype.push('C');
    doctype.push('T');
    doctype.push('Y');
    doctype.push('P');
    doctype.push('E');
    assert(doctype@ =~= doctype_start());
    starts_at(v, start, to, &declaration) || starts_at(v, start, to, &doctype)
}

/// Appends the line `v[from..to]` to `out` unless it belongs to the prolog;
/// a line feed goes before it unless it is the first that is kept.
fn keep_line(out: &mut String, kept: &mut usize, v: &Vec<char>, from: usize, to: usize)
    requires
        from <= to <= v.len(),
        *old(kept) < usize::MAX,
    ensures
        is_prolog_line(v@.subrange(from as int, to as int)) ==> final(out)@ == old(out)@,
        is_prolog_line(v@.subrange(from as int, to as int)) ==> *final(kept) == *old(kept),
        !is_prolog_line(v@.subrange(from as int, to as int)) ==> *final(kept) == *old(kept) + 1
            && final(out)@ == (if *old(kept) == 0 {
            old(out)@ + v@.subrange(from as int, to as int)
        } else {
            old(out)@ + seq!['\n'] + v@.subrange(from as int, to as int)
        }),
{
    if line_is_prolog(v, from, to) {
        return ;
    }
    if *kept > 0 {
        out.push('\n');
    }
    let ghost base = out@;
    let mut i: usize = from;
    assert(out@ =~= base + v@.subrange(from as int, from as int));
    while i < to
        invariant
            from <= i <= to <= v.len(),
            out@ == base + v@.subrange(from as int, i as int),
        decreases to - i,
    {
        out.push(v[i]);
        assert(out@ =~= base + v@.subrange(from as int, i + 1));
        i += 1;
    }
    *kept = *kept + 1;
}

/// Strips the prolog from the logo's markup, so that it can stand inside
/// another document.
pub fn without_prolog(markup: &str) -> (out: String)
    ensures
        out@ == body_of(markup@),
{
    let v = chars_of(markup);
    let n = v.len();
    let mut out = String::new();
    let mut kept: usize = 0;
    let mut start: usize = 0;
    let mut i: usize = 0;
    let ghost mut done: Seq<Seq<char>> = Seq::empty();
    proof {
        assert(v@.skip(0) =~= v@);
        assert(v@.subrange(0, 0) =~= Seq::<char>::empty());
        assert(done + lines_of(v@) =~= lines_of(v@));
    }
    while i < n
        invariant
            start <= i <= n,
            n == v.len(),
            kept <= start,
            kept == kept_count(done),
            kept == 0 ==> out@.len() == 0,
            out@ == joined_body(done),
            done + lines_after(v@.skip(i as int), v@.subrange(start as int, i as int)) == lines_of(
                v@,
            ),
        decreases n - i,
    {
        let ghost rest = v@.skip(i as int);
        let ghost current = v@.subrange(start as int, i as int);
        assert(rest.drop_first() =~= v@.skip(i + 1));
        assert(rest[0] == v@[i as int]);
        if v[i] == '\n' {
            let end: usize = if start < i && v[i - 1] == '\r' {
                i - 1
            } else {
                i
            };
            let ghost line = without_cr(current);
            assert(line =~= v@.subrange(start as int, end as int));
            keep_line(&mut out, &mut kept, &v, start, end);
            proof {
                let next = done.push(line);
                assert(next.drop_last() =~= done);
                assert(next.last() == line);
                assert(out@ =~= joined_body(next));
                assert(done + (seq![line] + lines_after(rest.drop_first(), Seq::empty())) =~= next
                    + lines_after(rest.drop_first(), Seq::empty()));
                done = next;
            }
            start = i + 1;
            assert(v@.subrange(start as int, i + 1) =~= Seq::<char>::empty());
        } else {
            assert(current.push(rest[0]) =~= v@.subrange(start as int, i + 1));
        }
        i += 1;
    }
    assert(v@.skip(n as int) =~= Seq::<char>::empty());
    if start < n {
        let ghost line = v@.subrange(start as int, n as int);
        keep_line(&mut out, &mut kept, &v, start, n);
        proof {
            let next = done.push(line);
            assert(next.drop_last() =~= done);
            assert(next.last() == line);
            assert(out@ =~= joined_body(next));
            assert(done + seq![line] =~= next);
        }
    } else {
        assert(done + Seq::<Seq<char>>::empty() =~= done);
    }
    out
}

/// The height of the logo as it is drawn, in pixels.
pub const LOGO_HEIGHT: i32 = 32;

/// How far the logo is lifted above the middle of the footer, in pixels.
pub const LOGO_RISE: i32 = 15;

/// Why a palette sheet could not be drawn.
#[derive(Clone, Copy, Debug, PartialEq, Eq, Structural)]
pub enum PaletteError {
    /// The palette is no JSON object.
    Json,
    /// The palette does not hold sixteen colours.
    Count,
    /// A colour of the palette is no string.
    Colour,
}

impl PaletteError {
    /// A line for the diagnostic stream.
    pub fn message(&self) -> (s: String)
        ensures
            s@ == match *self {
                PaletteError::Json => "the palette is no JSON object"@,
                PaletteError::Count => "need 16 colours"@,
                PaletteError::Colour => "bad hex"@,
            },
    {
        match self {
            PaletteError::Json => "the palette is no JSON object".to_owned(),
            PaletteError::Count => "need 16 colours".to_owned(),
            PaletteError::Colour => "bad hex".to_owned(),
        }
    }
}

/// `serde_json::Error`, why the palette could not be read: carried through,
/// never looked into.
#[verifier::external_type_specification]
#[verifier::external_body]
pub struct ExJsonError(serde_json::Error);

/// The values of the JSON object that `serde_json::from_str` reads from
/// `text`, in the order of their keys, each as its string or `None` where it
/// is no string; `None` where `text` is no JSON object.
pub uninterp spec fn parsed_values(text: Seq<char>) -> Option<Seq<Option<Seq<char>>>>;

/// The views of a run of values.
pub open spec fn values_view(v: Seq<Option<String>>) -> Seq<Option<Seq<char>>> {
    Seq::new(
        v.len(),
        |i: int|
            match v[i] {
                Some(s) => Some(s@),
                None => None,
            },
    )
}

/// The views of a run of strings.
pub open spec fn fills_view(v: Seq<String>) -> Seq<Seq<char>> {
    Seq::new(v.len(), |i: int| v[i]@)
}

/// `serde_json::from_str` into a map from keys to values, ordered by key;
/// the values are handed over in that order, a string value as its string.
/// The contract gives the call's outcome its name and claims no more: the
/// same text gives the same values, or is rejected.
#[verifier::external_body]
fn json_values(text: &str) -> (r: Result<Vec<Option<String>>, serde_json::Error>)
    ensures
        r matches Ok(v) ==> parsed_values(text@) == Some(values_view(v@)),
        r is Err ==> parsed_values(text@) is None,
{
    serde_json::from_str::<BTreeMap<String, serde_json::Value>>(text).map(
        |m| m.into_values().map(|v| v.as_str().map(str::to_owned)).collect(),
    )
}

/// The fills of the sixteen cells: the values, where there are sixteen and
/// each is a string.
pub open spec fn fills_outcome(values: Seq<Option<Seq<char>>>) -> Result<Seq<Seq<char>>, PaletteError> {
    if values.len() != CELLS {
        Err(PaletteError::Count)
    } else if exists|i: int| 0 <= i < values.len() && values[i] is None {
        Err(PaletteError::Colour)
    } else {
        Ok(Seq::new(values.len(), |i: int| values[i].unwrap()))
    }
}

/// Checks the values of a palette: fails with `Count` unless there are
/// sixteen, and with `Colour` where one of them is no string.
pub fn fills_of(values: &Vec<Option<String>>) -> (r: Result<Vec<String>, PaletteError>)
    ensures
        (match r {
            Ok(v) => Ok(fills_view(v@)),
            Err(e) => Err(e),
        }) == fills_outcome(values_view(values@)),
{
    if values.len() != CELLS {
        return Err(PaletteError::Count);
    }
    let ghost model = values_view(values@);
    let mut out: Vec<String> = Vec::new();
    let mut i: usize = 0;
    while i < values.len()
        invariant
            i <= values.len(),
            values.len() == CELLS,
            model == values_view(values@),
            out.len() == i,
            forall|k: int| 0 <= k < i ==> model[k] == Some((#[trigger] out@[k])@),
        decreases values.len() - i,
    {
        match &values[i] {
            Some(s) => {
                out.push(s.clone());
            },
            None => {
                assert(model[i as int] is None);
                return Err(PaletteError::Colour);
            },
        }
        i += 1;
    }
    assert forall|k: int| 0 <= k < model.len() implies model[k] is Some by {
        assert(model[k] == Some(out@[k]@));
    }
    assert(fills_view(out@) =~= Seq::new(model.len(), |i: int| model[i].unwrap()));
    Ok(out)
}

/// The height of the footer: what the sheet leaves below the grid.
pub open spec fn footer_height() -> int {
    CELL * ROWS + PAD * 2 + EXTRA - (PAD + ROWS * CELL)
}

/// The factor by which the logo is scaled, in millionths: two fifths of the
/// footer's height over the logo's height.
pub open spec fn logo_scale_units() -> int {
    footer_height() * 1_000_000 * 2 / 5 / (LOGO_HEIGHT as int)
}

/// The vertical position of the logo, in units: centred in the footer as it
/// is scaled, then lifted by the rise.
pub open spec fn logo_top_units() -> int {
    (PAD + ROWS * CELL - LOGO_RISE) * 1_000_000 + (footer_height() * 1_000_000 - LOGO_HEIGHT
        * logo_scale_units()) / 2
}

/// The factor by which the logo is scaled, in millionths.
pub fn logo_scale() -> (s: i64)
    ensures
        s == logo_scale_units(),
        s == 1_500_000,
{
    let size = canvas_size();
    let footer: i64 = (size.1 - grid_bottom()) as i64;
    footer * 1_000_000 * 2 / 5 / (LOGO_HEIGHT as i64)
}

/// The vertical position of the logo, in units.
pub fn logo_top() -> (y: i64)
    ensures
        y == logo_top_units(),
        y == 445_000_000,
{
    let size = canvas_size();
    let footer: i64 = (size.1 - grid_bottom()) as i64;
    ((grid_bottom() - LOGO_RISE) as i64) * 1_000_000 + (footer * 1_000_000 - (LOGO_HEIGHT as i64)
        * logo_scale()) / 2
}

/// `before`, then the opening of the sheet: the document element with the
/// size of the canvas, and the black ground.
pub open spec fn with_header(before: Seq<char>) -> Seq<char> {
    before + "<svg xmlns=\"http://www.w3.org/2000/svg\" width=\""@ + natural_text(
        CELL * COLS + PAD * 2,
    ) + "\" height=\""@ + natural_text(CELL * ROWS + PAD * 2 + EXTRA) + "\" viewBox=\"0 0 "@
        + natural_text(CELL * COLS + PAD * 2) + " "@ + natural_text(CELL * ROWS + PAD * 2 + EXTRA)
        + "\">\n<rect width=\"100%\" height=\"100%\" fill=\"#000\"/>\n"@
}

/// `before`, then the `i`-th cell of the grid, filled with `fill`.
pub open spec fn with_cell(before: Seq<char>, i: int, fill: Seq<char>) -> Seq<char> {
    before + "<rect x=\""@ + natural_text(PAD + (i % 4) * CELL) + "\" y=\""@ + natural_text(
        PAD + (i / 4) * CELL,
    ) + "\" width=\""@ + natural_text(CELL as int) + "\" height=\""@ + natural_text(CELL as int)
        + "\" fill=\""@ + fill + "\"/>\n"@
}

/// `before`, then the first `n` cells of the grid.
pub open spec fn with_cells(before: Seq<char>, fills: Seq<Seq<char>>, n: int) -> Seq<char>
    decreases n,
{
    if n <= 0 {
        before
    } else {
        with_cell(with_cells(before, fills, n - 1), n - 1, fills[n - 1])
    }
}

/// `before`, then the footer: the logo, moved into place and scaled, and the
/// end of the document.
pub open spec fn with_footer(before: Seq<char>, logo: Seq<char>) -> Seq<char> {
    before + "<g transform=\"translate("@ + natural_text(PAD as int) + ","@ + number_text(
        logo_top_units(),
    ) + ") scale("@ + number_text(logo_scale_units()) + ")\">\n"@ + logo + "\n</g>\n</svg>"@
}

/// The palette sheet for sixteen fills and a logo without prolog.
pub open spec fn sheet_text(fills: Seq<Seq<char>>, logo: Seq<char>) -> Seq<char> {
    with_footer(with_cells(with_header(Seq::empty()), fills, CELLS as int), logo)
}

/// What drawing a sheet returns for the values of a palette and the markup
/// of the logo.
pub open spec fn sheet_outcome(values: Seq<Option<Seq<char>>>, logo: Seq<char>) -> Result<
    Seq<char>,
    PaletteError,
> {
    match fills_outcome(values) {
        Ok(fills) => Ok(sheet_text(fills, body_of(logo))),
        Err(e) => Err(e),
    }
}

/// What drawing a sheet returns once the JSON reader has made `parsed` of
/// the palette.
pub open spec fn drawn(parsed: Option<Seq<Option<Seq<char>>>>, logo: Seq<char>) -> Result<
    Seq<char>,
    PaletteError,
> {
    match parsed {
        Some(values) => sheet_outcome(values, logo),
        None => Err(PaletteError::Json),
    }
}

fn push_header(out: &mut String)
    ensures
        final(out)@ == with_header(old(out)@),
{
    let size = canvas_size();
    push_text(out, "<svg xmlns=\"http://www.w3.org/2000/svg\" width=\"");
    push_natural(out, size.0 as u64);
    push_text(out, "\" height=\"");
    push_natural(out, size.1 as u64);
    push_text(out, "\" viewBox=\"0 0 ");
    push_natural(out, size.0 as u64);
    push_text(out, " ");
    push_natural(out, size.1 as u64);
    push_text(out, "\">\n<rect width=\"100%\" height=\"100%\" fill=\"#000\"/>\n");
}

fn push_cell(out: &mut String, i: usize, fill: &str)
    requires
        i < CELLS,
    ensures
        final(out)@ == with_cell(old(out)@, i as int, fill@),
{
    let at = cell_origin(i);
    push_text(out, "<rect x=\"");
    push_natural(out, at.0 as u64);
    push_text(out, "\" y=\"");
    push_natural(out, at.1 as u64);
    push_text(out, "\" width=\"");
    push_natural(out, CELL as u64);
    push_text(out, "\" height=\"");
    push_natural(out, CELL as u64);
    push_text(out, "\" fill=\"");
    push_text(out, fill);
    push_text(out, "\"/>\n");
}

fn push_footer(out: &mut String, logo: &str)
    ensures
        final(out)@ == with_footer(old(out)@, logo@),
{
    let top = format_number(logo_top());
    let scale = format_number(logo_scale());
    push_text(out, "<g transform=\"translate(");
    push_natural(out, PAD as u64);
    push_text(out, ",");
    push_text(out, top.as_str());
    push_text(out, ") scale(");
    push_text(out, scale.as_str());
    push_text(out, ")\">\n");
    push_text(out, logo);
    push_text(out, "\n</g>\n</svg>");
}

/// Draws the sheet for the values of a palette: the sixteen cells filled
/// with its colours, and the logo, stripped of its prolog, in the footer.
/// Fails as `fills_of` does.
pub fn sheet_of(values: &Vec<Option<String>>, logo: &str) -> (r: Result<String, PaletteError>)
    ensures
        (match r {
            Ok(s) => Ok(s@),
            Err(e) => Err(e),
        }) == sheet_outcome(values_view(values@), logo@),
{
    let fills = match fills_of(values) {
        Ok(f) => f,
        Err(e) => {
            return Err(e);
        },
    };
    assert(fills_view(fills@).len() == CELLS);
    let body = without_prolog(logo);
    let mut out = String::new();
    push_header(&mut out);
    let mut i: usize = 0;
    while i < CELLS
        invariant
            i <= CELLS,
            fills.len() == CELLS,
            out@ == with_cells(with_header(Seq::empty()), fills_view(fills@), i as int),
        decreases CELLS - i,
    {
        assert(fills_view(fills@)[i as int] == fills@[i as int]@);
        push_cell(&mut out, i, fills[i].as_str());
        i += 1;
    }
    push_footer(&mut out, body.as_str());
    Ok(out)
}

/// Draws the sheet for a palette given as JSON text: an object of sixteen
/// colours, drawn in the order of their keys. Fails with `Json` where the
/// text is no JSON object, and as `sheet_of` does.
pub fn sheet(palette: &str, logo: &str) -> (r: Result<String, PaletteError>)
    ensures
        (match r {
            Ok(s) => Ok(s@),
            Err(e) => Err(e),
        }) == drawn(parsed_values(palette@), logo@),
{
    match json_values(palette) {
        Ok(values) => sheet_of(&values, logo),
        Err(_) => Err(PaletteError::Json),
    }
}

} // verus!
