//! The parts of an answer written in a small dialect of Markdown.

use vstd::prelude::*;
use vstd::slice::slice_subrange;
use vstd::string::StringExecFns;

use crate::text::{
    all_digits, ascii_lower, ascii_upper, blank, chars, contains, find, find_chars, has, is_blank, join, law_split_rebuilds, lemma_find,
    lemma_span, lines, matches_at, occurs_at, only_digits, pieces, replace, replaced, run_together, same_ignoring_ascii_case, span,
    span_len, split, starts_with, str_views, string, strip_prefix, text_lines, to_ascii_upper, trim, trim_class, trim_start,
    trimmed, trimmed_class, trimmed_start, views, CharClass,
};

verus! {

// ------------------------------------------------------------------ inline text

/// How a stretch of text is drawn.
#[derive(Debug, Clone, Copy, PartialEq, Eq, Structural)]
pub enum Style {
    Normal,
    Strong,
    Code,
    Italic,
}

/// A stretch of text in one style.
#[derive(Debug, PartialEq, Eq)]
pub struct Span {
    pub style: Style,
    pub text: String,
}

/// What a `Span` holds.
pub struct SpanView {
    pub style: Style,
    pub text: Seq<char>,
}

impl View for Span {
    type V = SpanView;

    open spec fn view(&self) -> SpanView {
        SpanView { style: self.style, text: self.text@ }
    }
}

/// The views of a list of stretches.
pub open spec fn span_views(v: Seq<Span>) -> Seq<SpanView> {
    v.map_values(|s: Span| s@)
}

impl Style {
    /// The mark on both sides of text in the style.
    pub open spec fn mark(self) -> Seq<char> {
        match self {
            Style::Normal => seq![],
            Style::Strong => seq!['*', '*'],
            Style::Code => seq!['`'],
            Style::Italic => seq!['*'],
        }
    }
}

/// Where, behind the opening mark of a style, the text is closed.
pub open spec fn closing(text: Seq<char>, style: Style) -> Option<int> {
    if style.mark().is_prefix_of(text) {
        find(text.skip(style.mark().len() as int), style.mark())
    } else {
        None
    }
}

/// The characters that can begin a mark.
pub open spec fn marks() -> CharClass {
    CharClass::Three('*', '`', '`')
}

/// The length of the text before the next mark, not counting the first character.
pub open spec fn plain_len(text: Seq<char>) -> int {
    1 + span(text.skip(1), marks()) as int
}

/// The first style, of the strong, the code and the italic one, that opens the
/// text and is closed in it.
pub open spec fn leading_style(text: Seq<char>) -> Style {
    if closing(text, Style::Strong) is Some {
        Style::Strong
    } else if closing(text, Style::Code) is Some {
        Style::Code
    } else if closing(text, Style::Italic) is Some {
        Style::Italic
    } else {
        Style::Normal
    }
}

/// The first stretch of a text that is not empty.
pub open spec fn leading_span(text: Seq<char>) -> SpanView {
    let style = leading_style(text);
    if style == Style::Normal {
        SpanView { style, text: text.take(plain_len(text)) }
    } else {
        let m = style.mark().len() as int;
        SpanView { style, text: text.subrange(m, m + closing(text, style)->0) }
    }
}

/// How much of the text its first stretch takes, the marks with it.
pub open spec fn leading_len(text: Seq<char>) -> int {
    leading_span(text).text.len() as int + 2 * leading_style(text).mark().len()
}

/// The stretches of a text.
pub open spec fn inline(text: Seq<char>) -> Seq<SpanView>
    decreases text.len()
        via inline_decreases
{
    if text.len() == 0 {
        seq![]
    } else {
        seq![leading_span(text)] + inline(text.skip(leading_len(text)))
    }
}

#[via_fn]
proof fn inline_decreases(text: Seq<char>) {
    if text.len() > 0 {
        lemma_leading(text);
    }
}

/// The first stretch with its marks is where the text begins.
proof fn lemma_leading(text: Seq<char>)
    requires
        text.len() > 0,
    ensures
        0 < leading_len(text) <= text.len(),
        leading_style(text) == Style::Normal ==> leading_len(text) == plain_len(text),
        leading_style(text) != Style::Normal ==> closing(text, leading_style(text)) is Some
            && leading_len(text) == 2 * leading_style(text).mark().len() + closing(
            text,
            leading_style(text),
        )->0,
        text.take(leading_len(text)) == leading_style(text).mark() + leading_span(text).text
            + leading_style(text).mark(),
{
    let style = leading_style(text);
    let m = style.mark();
    lemma_span(text.skip(1), marks());
    if style == Style::Normal {
        assert(text.take(plain_len(text)).len() == plain_len(text));
        assert(text.take(leading_len(text)) =~= m + leading_span(text).text + m);
    } else {
        let after = text.skip(m.len() as int);
        lemma_find(after, m);
        let end = find(after, m)->0;
        assert(occurs_at(after, m, end));
        assert(leading_span(text).text.len() == end);
        assert(leading_len(text) == 2 * m.len() + end);
        assert forall|i: int| 0 <= i < leading_len(text) implies #[trigger] text[i] == (m
            + leading_span(text).text + m)[i] by {
            if i < m.len() {
            } else if i < m.len() + end {
            } else {
                let j = i - m.len() - end;
                assert(after.subrange(end, end + m.len())[j] == m[j]);
            }
        }
        assert(text.take(leading_len(text)) =~= m + leading_span(text).text + m);
    }
}

/// Where the closing mark of a style stands, behind the opening one.
fn find_closing(rest: &[char], style: Style) -> (r: Option<usize>)
    ensures
        match r {
            Some(end) => closing(rest@, style) == Some(end as int) && 2 * style.mark().len() + end
                <= rest.len(),
            None => closing(rest@, style) is None,
        },
{
    let mark: Vec<char> = match style {
        Style::Normal => Vec::new(),
        Style::Strong => vec!['*', '*'],
        Style::Code => vec!['`'],
        Style::Italic => vec!['*'],
    };
    assert(mark@ =~= style.mark());
    if !matches_at(rest, &mark, 0) {
        return None;
    }
    let after = slice_subrange(rest, mark.len(), rest.len());
    assert(after@ =~= rest@.skip(mark@.len() as int));
    find_chars(after, &mark)
}

/// The first stretch of a text and how much of the text it takes.
fn first_span(rest: &[char]) -> (r: (Span, usize))
    requires
        rest@.len() > 0,
    ensures
        r.0@ == leading_span(rest@),
        r.1 == leading_len(rest@),
        0 < r.1 <= rest.len(),
{
    proof {
        lemma_leading(rest@);
    }
    match find_closing(rest, Style::Strong) {
        Some(end) => {
            let text = string(slice_subrange(rest, 2, 2 + end));
            return (Span { style: Style::Strong, text }, 4 + end);
        },
        None => {},
    }
    match find_closing(rest, Style::Code) {
        Some(end) => {
            let text = string(slice_subrange(rest, 1, 1 + end));
            return (Span { style: Style::Code, text }, 2 + end);
        },
        None => {},
    }
    match find_closing(rest, Style::Italic) {
        Some(end) => {
            let text = string(slice_subrange(rest, 1, 1 + end));
            return (Span { style: Style::Italic, text }, 2 + end);
        },
        None => {},
    }
    let tail = slice_subrange(rest, 1, rest.len());
    assert(tail@ =~= rest@.skip(1));
    let n = 1 + span_len(tail, CharClass::Three('*', '`', '`'));
    let text = string(slice_subrange(rest, 0, n));
    assert(text@ =~= rest@.take(n as int));
    (Span { style: Style::Normal, text }, n)
}

/// The stretches of a text: between two pairs of asterisks, between backquotes,
/// between asterisks, and what is left.
pub fn inline_spans(text: &str) -> (r: Vec<Span>)
    ensures
        span_views(r@) == inline(text@),
{
    let c = chars(text);
    let mut r: Vec<Span> = Vec::new();
    let mut pos: usize = 0;
    assert(text@.skip(0) =~= text@);
    assert(span_views(r@) + inline(text@) =~= inline(text@));
    while pos < c.len()
        invariant
            c@ == text@,
            pos <= c.len(),
            span_views(r@) + inline(text@.skip(pos as int)) == inline(text@),
        decreases c.len() - pos,
    {
        let rest = slice_subrange(&c, pos, c.len());
        let ghost whole = rest@;
        assert(whole =~= text@.skip(pos as int));
        let (piece, taken) = first_span(rest);
        let ghost before = span_views(r@);
        r.push(piece);
        proof {
            assert(span_views(r@) =~= before.push(piece@));
            assert(whole.skip(taken as int) =~= text@.skip(pos + taken));
            assert(span_views(r@) + inline(text@.skip(pos + taken)) =~= before + (seq![piece@]
                + inline(text@.skip(pos + taken))));
        }
        pos += taken;
    }
    assert(text@.skip(pos as int).len() == 0);
    assert(span_views(r@) + inline(text@.skip(pos as int)) =~= span_views(r@));
    r
}

/// The stretches with their marks, one after the other.
pub open spec fn marked(spans: Seq<SpanView>) -> Seq<char>
    decreases spans.len(),
{
    if spans.len() == 0 {
        seq![]
    } else {
        spans[0].style.mark() + spans[0].text + spans[0].style.mark() + marked(spans.skip(1))
    }
}

/// No character of a text is lost or added: the stretches with their marks are
/// the text again.
pub proof fn law_inline_keeps_text(text: Seq<char>)
    ensures
        marked(inline(text)) == text,
    decreases text.len(),
{
    if text.len() > 0 {
        lemma_leading(text);
        let n = leading_len(text);
        law_inline_keeps_text(text.skip(n));
        assert(inline(text).skip(1) =~= inline(text.skip(n)));
        assert(marked(inline(text)) =~= text.take(n) + text.skip(n));
        assert(text.take(n) + text.skip(n) =~= text);
    } else {
        assert(marked(inline(text)) =~= text);
    }
}

// ------------------------------------------------------------------------ links

/// A line of text, or one with a link in it.
#[derive(Debug, PartialEq, Eq)]
pub enum LinkedLine {
    Plain(String),
    Link { before: String, label: String, address: String, after: String },
}

/// What a `LinkedLine` holds.
pub enum LinkedView {
    Plain(Seq<char>),
    Link { before: Seq<char>, label: Seq<char>, address: Seq<char>, after: Seq<char> },
}

impl View for LinkedLine {
    type V = LinkedView;

    open spec fn view(&self) -> LinkedView {
        match self {
            LinkedLine::Plain(s) => LinkedView::Plain(s@),
            LinkedLine::Link { before, label, address, after } => LinkedView::Link {
                before: before@,
                label: label@,
                address: address@,
                after: after@,
            },
        }
    }
}

/// The first link of a line: a label in square brackets and, right behind it, an
/// address in round ones.
pub open spec fn linked(line: Seq<char>) -> LinkedView {
    match find(line, seq!['[']) {
        None => LinkedView::Plain(line),
        Some(open) => {
            let inner = line.skip(open + 1);
            match find(inner, seq![']', '(']) {
                None => LinkedView::Plain(line),
                Some(close) => {
                    let tail = inner.skip(close + 2);
                    match find(tail, seq![')']) {
                        None => LinkedView::Plain(line),
                        Some(end) => LinkedView::Link {
                            before: line.take(open),
                            label: inner.take(close),
                            address: tail.take(end),
                            after: tail.skip(end + 1),
                        },
                    }
                },
            }
        },
    }
}

/// The first link of a line, if it has one.
pub fn linked_line(line: &str) -> (r: LinkedLine)
    ensures
        r@ == linked(line@),
{
    let c = chars(line);
    let opening: Vec<char> = vec!['['];
    let middle: Vec<char> = vec![']', '('];
    let ending: Vec<char> = vec![')'];
    assert(opening@ =~= seq!['[']);
    assert(middle@ =~= seq![']', '(']);
    assert(ending@ =~= seq![')']);
    let open = match find_chars(&c, &opening) {
        Some(open) => open,
        None => {
            return LinkedLine::Plain(line.to_owned());
        },
    };
    let inner = slice_subrange(&c, open + 1, c.len());
    assert(inner@ =~= line@.skip(open + 1));
    let close = match find_chars(inner, &middle) {
        Some(close) => close,
        None => {
            return LinkedLine::Plain(line.to_owned());
        },
    };
    let tail = slice_subrange(inner, close + 2, inner.len());
    assert(tail@ =~= inner@.skip(close + 2));
    let end = match find_chars(tail, &ending) {
        Some(end) => end,
        None => {
            return LinkedLine::Plain(line.to_owned());
        },
    };
    let before = string(slice_subrange(&c, 0, open));
    let label = string(slice_subrange(inner, 0, close));
    let address = string(slice_subrange(tail, 0, end));
    let after = string(slice_subrange(tail, end + 1, tail.len()));
    assert(before@ =~= line@.take(open as int));
    assert(label@ =~= inner@.take(close as int));
    assert(address@ =~= tail@.take(end as int));
    assert(after@ =~= tail@.skip(end + 1));
    LinkedLine::Link { before, label, address, after }
}

/// A line with a link is its parts with the brackets between them.
pub proof fn law_linked_keeps_text(line: Seq<char>)
    ensures
        match linked(line) {
            LinkedView::Plain(text) => text == line,
            LinkedView::Link { before, label, address, after } => before + seq!['['] + label
                + seq![']', '('] + address + seq![')'] + after == line,
        },
{
    if let Some(open) = find(line, seq!['[']) {
        lemma_cut(line, seq!['[']);
        let inner = line.skip(open + 1);
        if let Some(close) = find(inner, seq![']', '(']) {
            lemma_cut(inner, seq![']', '(']);
            let tail = inner.skip(close + 2);
            if let Some(end) = find(tail, seq![')']) {
                lemma_cut(tail, seq![')']);
                let (a, b, c, d) = (
                    line.take(open),
                    inner.take(close),
                    tail.take(end),
                    tail.skip(end + 1),
                );
                assert(a + seq!['['] + b + seq![']', '('] + c + seq![')'] + d =~= a + seq!['['] + (
                b + seq![']', '('] + (c + seq![')'] + d)));
            }
        }
    }
}

/// A text is what stands before the first `p`, then `p`, then the rest.
proof fn lemma_cut(s: Seq<char>, p: Seq<char>)
    requires
        find(s, p) is Some,
    ensures
        s == s.take(find(s, p)->0) + p + s.skip(find(s, p)->0 + p.len()),
{
    lemma_find(s, p);
    let i = find(s, p)->0;
    assert(s =~= s.take(i) + s.subrange(i, i + p.len()) + s.skip(i + p.len()));
}

// ----------------------------------------------------------------------- tables

/// The cells of a line of a table.
pub open spec fn cells(line: Seq<char>) -> Seq<Seq<char>> {
    split(trim_class(trim(line), CharClass::One('|')), CharClass::One('|')).map_values(
        |cell: Seq<char>| trim(cell),
    )
}

/// The cells of a line of a table, without the blanks around them.
pub fn table_cells(line: &str) -> (r: Vec<String>)
    ensures
        views(r@) == cells(line@),
{
    let bare = trimmed_class(trimmed(line).as_str(), CharClass::One('|'));
    let raw = pieces(bare.as_str(), CharClass::One('|'));
    let mut r: Vec<String> = Vec::new();
    let mut i: usize = 0;
    let ghost goal = cells(line@);
    while i < raw.len()
        invariant
            i <= raw.len(),
            goal == views(raw@).map_values(|cell: Seq<char>| trim(cell)),
            views(r@) == goal.take(i as int),
        decreases raw.len() - i,
    {
        let ghost before = views(r@);
        let cell = trimmed(raw[i].as_str());
        r.push(cell);
        assert(views(r@) =~= before.push(cell@));
        assert(views(r@) =~= goal.take(i + 1));
        i += 1;
    }
    assert(goal.take(i as int) =~= goal);
    r
}

/// A line of dashes between bars: what separates the head of a table from its
/// rows.
pub open spec fn is_separator(line: Seq<char>) -> bool {
    let compact = replace(
        replace(trim_class(trim(line), CharClass::One('|')), seq![':'], seq![]),
        seq![' '],
        seq![],
    );
    compact.len() > 0 && forall|i: int|
        0 <= i < compact.len() ==> #[trigger] compact[i] == '-' || compact[i] == '|'
}

/// Whether a line separates the head of a table from its rows.
pub fn is_table_separator(line: &str) -> (r: bool)
    ensures
        r == is_separator(line@),
{
    proof {
        reveal_strlit(":");
        reveal_strlit(" ");
        reveal_strlit("");
        assert(":"@ =~= seq![':']);
        assert(" "@ =~= seq![' ']);
        assert(""@ =~= Seq::<char>::empty());
    }
    let bare = trimmed_class(trimmed(line).as_str(), CharClass::One('|'));
    let ghost goal = replace(replace(bare@, seq![':'], seq![]), seq![' '], seq![]);
    let compact = chars(replaced(replaced(bare.as_str(), ":", "").as_str(), " ", "").as_str());
    if compact.len() == 0 {
        return false;
    }
    let mut i: usize = 0;
    while i < compact.len()
        invariant
            i <= compact.len(),
            compact@ == goal,
            goal == replace(
                replace(trim_class(trim(line@), CharClass::One('|')), seq![':'], seq![]),
                seq![' '],
                seq![],
            ),
            forall|j: int| 0 <= j < i ==> #[trigger] compact@[j] == '-' || compact@[j] == '|',
        decreases compact.len() - i,
    {
        if compact[i] != '-' && compact[i] != '|' {
            assert(!(goal[i as int] == '-' || goal[i as int] == '|'));
            return false;
        }
        i += 1;
    }
    true
}

/// The number and the text of a line of a numbered list.
pub open spec fn numbered(line: Seq<char>) -> Option<(Seq<char>, Seq<char>)> {
    match find(line, seq!['.', ' ']) {
        Some(i) => if all_digits(line.take(i)) {
            Some((line.take(i), line.skip(i + 2)))
        } else {
            None
        },
        None => None,
    }
}

/// The number and the text of a line of a numbered list.
pub fn numbered_item(line: &str) -> (r: Option<(String, String)>)
    ensures
        match r {
            Some((number, item)) => numbered(line@) == Some((number@, item@)),
            None => numbered(line@) is None,
        },
{
    let c = chars(line);
    let mark: Vec<char> = vec!['.', ' '];
    assert(mark@ =~= seq!['.', ' ']);
    match find_chars(&c, &mark) {
        Some(i) => {
            let number = string(slice_subrange(&c, 0, i));
            assert(number@ =~= line@.take(i as int));
            if only_digits(number.as_str()) {
                let item = string(slice_subrange(&c, i + 2, c.len()));
                assert(item@ =~= line@.skip(i + 2));
                Some((number, item))
            } else {
                None
            }
        },
        None => None,
    }
}

// ----------------------------------------------------------------------- blocks

/// A part of an answer. A block of code and a table carry the line on which they
/// end.
#[derive(Debug, PartialEq, Eq)]
pub enum Block {
    Code { language: String, code: String, index: usize },
    Table { headers: Vec<String>, rows: Vec<Vec<String>>, index: usize },
    Heading { level: u8, text: String },
    Quote(String),
    Bullet(String),
    Numbered { number: String, text: String },
    Space,
    Line(String),
}

/// What a `Block` holds.
pub enum BlockView {
    Code { language: Seq<char>, code: Seq<char>, index: int },
    Table { headers: Seq<Seq<char>>, rows: Seq<Seq<Seq<char>>>, index: int },
    Heading { level: u8, text: Seq<char> },
    Quote(Seq<char>),
    Bullet(Seq<char>),
    Numbered { number: Seq<char>, text: Seq<char> },
    Space,
    Line(Seq<char>),
}

/// The texts of the rows of a table.
pub open spec fn row_views(v: Seq<Vec<String>>) -> Seq<Seq<Seq<char>>> {
    v.map_values(|row: Vec<String>| views(row@))
}

impl View for Block {
    type V = BlockView;

    open spec fn view(&self) -> BlockView {
        match self {
            Block::Code { language, code, index } => BlockView::Code {
                language: language@,
                code: code@,
                index: *index as int,
            },
            Block::Table { headers, rows, index } => BlockView::Table {
                headers: views(headers@),
                rows: row_views(rows@),
                index: *index as int,
            },
            Block::Heading { level, text } => BlockView::Heading { level: *level, text: text@ },
            Block::Quote(text) => BlockView::Quote(text@),
            Block::Bullet(text) => BlockView::Bullet(text@),
            Block::Numbered { number, text } => BlockView::Numbered {
                number: number@,
                text: text@,
            },
            Block::Space => BlockView::Space,
            Block::Line(text) => BlockView::Line(text@),
        }
    }
}

/// The views of a list of blocks.
pub open spec fn block_views(v: Seq<Block>) -> Seq<BlockView> {
    v.map_values(|b: Block| b@)
}

/// The line opens or closes a block of code.
pub open spec fn is_fence(line: Seq<char>) -> bool {
    "```"@.is_prefix_of(trim(line))
}

/// The line can be a row of a table.
pub open spec fn is_row(line: Seq<char>) -> bool {
    contains(line, "|"@) && !is_blank(line)
}

/// The first line from `i` on that closes a block of code, or the end.
pub open spec fn code_end(lines: Seq<Seq<char>>, i: int) -> int
    decreases lines.len() - i,
{
    if i >= lines.len() || is_fence(lines[i]) {
        i
    } else {
        code_end(lines, i + 1)
    }
}

/// The first line from `i` on that is not a row of a table, or the end.
pub open spec fn table_end(lines: Seq<Seq<char>>, i: int) -> int
    decreases lines.len() - i,
{
    if i >= lines.len() || !is_row(lines[i]) {
        i
    } else {
        table_end(lines, i + 1)
    }
}

/// Lines, each with the line feed that ends it.
pub open spec fn ended_lines(lines: Seq<Seq<char>>) -> Seq<char>
    decreases lines.len(),
{
    if lines.len() == 0 {
        seq![]
    } else {
        ended_lines(lines.drop_last()) + lines.last().push('\n')
    }
}

/// What a line is by itself.
pub open spec fn simple_block(line: Seq<char>) -> BlockView {
    if "### "@.is_prefix_of(line) {
        BlockView::Heading { level: 3, text: line.skip(4) }
    } else if "## "@.is_prefix_of(line) {
        BlockView::Heading { level: 2, text: line.skip(3) }
    } else if "# "@.is_prefix_of(line) {
        BlockView::Heading { level: 1, text: line.skip(2) }
    } else if "> "@.is_prefix_of(line) {
        BlockView::Quote(line.skip(2))
    } else if "- "@.is_prefix_of(line) || "* "@.is_prefix_of(line) {
        BlockView::Bullet(line.skip(2))
    } else if let Some((number, text)) = numbered(line) {
        BlockView::Numbered { number, text }
    } else if is_blank(line) {
        BlockView::Space
    } else {
        BlockView::Line(line)
    }
}

/// The block that begins at line `i`, and the line behind it.
pub open spec fn block_at(lines: Seq<Seq<char>>, i: int) -> (BlockView, int) {
    if is_fence(lines[i]) {
        let end = code_end(lines, i + 1);
        (
            BlockView::Code {
                language: trim(trim(lines[i]).skip(3)),
                code: ended_lines(lines.subrange(i + 1, end)),
                index: end,
            },
            if end < lines.len() {
                end + 1
            } else {
                end
            },
        )
    } else if i + 1 < lines.len() && is_separator(lines[i + 1]) {
        let end = table_end(lines, i + 2);
        (
            BlockView::Table {
                headers: cells(lines[i]),
                rows: lines.subrange(i + 2, end).map_values(|line: Seq<char>| cells(line)),
                index: end,
            },
            end,
        )
    } else {
        (simple_block(lines[i]), i + 1)
    }
}

/// The blocks from line `i` on.
pub open spec fn blocks_from(lines: Seq<Seq<char>>, i: int) -> Seq<BlockView>
    decreases lines.len() - i
        via blocks_decreases
{
    if i >= lines.len() {
        seq![]
    } else {
        seq![block_at(lines, i).0] + blocks_from(lines, block_at(lines, i).1)
    }
}

#[via_fn]
proof fn blocks_decreases(lines: Seq<Seq<char>>, i: int) {
    lemma_ends(lines, i + 1);
    lemma_ends(lines, i + 2);
}

/// A block ends at or behind the line on which it is looked for.
proof fn lemma_ends(lines: Seq<Seq<char>>, i: int)
    ensures
        code_end(lines, i) >= i,
        table_end(lines, i) >= i,
        i <= lines.len() ==> code_end(lines, i) <= lines.len() && table_end(lines, i)
            <= lines.len(),
    decreases lines.len() - i,
{
    if i < lines.len() {
        lemma_ends(lines, i + 1);
    }
}

/// The block that a line is by itself.
fn line_block(line: &str) -> (r: Block)
    ensures
        r@ == simple_block(line@),
{
    proof {
        reveal_strlit("### ");
        reveal_strlit("## ");
        reveal_strlit("# ");
        reveal_strlit("> ");
        reveal_strlit("- ");
        reveal_strlit("* ");
    }
    if let Some(text) = strip_prefix(line, "### ") {
        return Block::Heading { level: 3, text };
    }
    if let Some(text) = strip_prefix(line, "## ") {
        return Block::Heading { level: 2, text };
    }
    if let Some(text) = strip_prefix(line, "# ") {
        return Block::Heading { level: 1, text };
    }
    if let Some(text) = strip_prefix(line, "> ") {
        return Block::Quote(text);
    }
    if let Some(text) = strip_prefix(line, "- ") {
        return Block::Bullet(text);
    }
    if let Some(text) = strip_prefix(line, "* ") {
        return Block::Bullet(text);
    }
    if let Some((number, text)) = numbered_item(line) {
        return Block::Numbered { number, text };
    }
    if blank(line) {
        return Block::Space;
    }
    Block::Line(line.to_owned())
}

/// The block of code that begins at line `i`, and the line on which it ends.
fn code_from(lines: &Vec<String>, i: usize) -> (r: (String, usize))
    requires
        i <= lines@.len(),
    ensures
        i <= r.1 <= lines@.len(),
        r.1 == code_end(views(lines@), i as int),
        r.0@ == ended_lines(views(lines@).subrange(i as int, r.1 as int)),
{
    let ghost all = views(lines@);
    let mut code = String::new();
    let mut end: usize = i;
    assert(all.subrange(i as int, i as int) =~= seq![]);
    while end < lines.len() && !starts_with(trimmed(lines[end].as_str()).as_str(), "```")
        invariant
            i <= end <= lines.len(),
            all == views(lines@),
            code_end(all, i as int) == code_end(all, end as int),
            code@ == ended_lines(all.subrange(i as int, end as int)),
        decreases lines.len() - end,
    {
        proof {
            assert(all[end as int] == lines@[end as int]@);
            let next = all.subrange(i as int, end + 1);
            assert(next.drop_last() =~= all.subrange(i as int, end as int));
            assert(next.last() == all[end as int]);
            assert(ended_lines(next) =~= code@ + all[end as int] + seq!['\n']);
        }
        code.append(lines[end].as_str());
        code.push('\n');
        end += 1;
    }
    assert(end < lines.len() ==> all[end as int] == lines@[end as int]@);
    (code, end)
}

/// The rows of the table that begin at line `i`, and the line behind them.
fn rows_from(lines: &Vec<String>, i: usize) -> (r: (Vec<Vec<String>>, usize))
    requires
        i <= lines@.len(),
    ensures
        i <= r.1 <= lines@.len(),
        r.1 == table_end(views(lines@), i as int),
        row_views(r.0@) == views(lines@).subrange(i as int, r.1 as int).map_values(
            |line: Seq<char>| cells(line),
        ),
{
    let ghost all = views(lines@);
    let mut rows: Vec<Vec<String>> = Vec::new();
    let mut end: usize = i;
    while end < lines.len() && has(lines[end].as_str(), "|") && !blank(lines[end].as_str())
        invariant
            i <= end <= lines.len(),
            all == views(lines@),
            table_end(all, i as int) == table_end(all, end as int),
            row_views(rows@) =~= all.subrange(i as int, end as int).map_values(
                |line: Seq<char>| cells(line),
            ),
        decreases lines.len() - end,
    {
        assert(all[end as int] == lines@[end as int]@);
        let ghost before = row_views(rows@);
        let row = table_cells(lines[end].as_str());
        rows.push(row);
        assert(row_views(rows@) =~= before.push(views(row@)));
        assert(all.subrange(i as int, end + 1) =~= all.subrange(i as int, end as int).push(
            all[end as int],
        ));
        end += 1;
    }
    assert(end < lines.len() ==> all[end as int] == lines@[end as int]@);
    (rows, end)
}

/// The blocks of an answer.
pub fn markdown_blocks(text: &str) -> (r: Vec<Block>)
    ensures
        block_views(r@) == blocks_from(lines(text@), 0),
{
    let rows = text_lines(text);
    let ghost all = lines(text@);
    let mut r: Vec<Block> = Vec::new();
    let mut index: usize = 0;
    assert(block_views(r@) + blocks_from(all, 0) =~= blocks_from(all, 0));
    while index < rows.len()
        invariant
            all == lines(text@),
            views(rows@) == all,
            index <= rows.len(),
            block_views(r@) + blocks_from(all, index as int) == blocks_from(all, 0),
        decreases rows.len() - index,
    {
        let (block, next) = next_block(&rows, index);
        let ghost before = block_views(r@);
        r.push(block);
        proof {
            assert(block_views(r@) =~= before.push(block@));
            assert(block_views(r@) + blocks_from(all, next as int) =~= before + (seq![block@]
                + blocks_from(all, next as int)));
        }
        index = next;
    }
    assert(block_views(r@) + blocks_from(all, index as int) =~= block_views(r@));
    r
}

/// The block that begins at line `index`, and the line behind it.
fn next_block(rows: &Vec<String>, index: usize) -> (r: (Block, usize))
    requires
        index < rows@.len(),
    ensures
        (r.0@, r.1 as int) == block_at(views(rows@), index as int),
        index < r.1 <= rows@.len(),
{
    let ghost all = views(rows@);
    let count = rows.len();
    proof {
        reveal_strlit("```");
        lemma_ends(all, index + 1);
        lemma_ends(all, index + 2);
        assert(all[index as int] == rows@[index as int]@);
    }
    let line = rows[index].as_str();
    if let Some(language) = strip_prefix(trimmed(line).as_str(), "```") {
        let (code, end) = code_from(rows, index + 1);
        let language = trimmed(language.as_str());
        let next = if end < count {
            end + 1
        } else {
            end
        };
        return (Block::Code { language, code, index: end }, next);
    }
    if index + 1 < count {
        assert(all[index + 1] == rows@[index + 1]@);
        if is_table_separator(rows[index + 1].as_str()) {
            let headers = table_cells(line);
            let (table, end) = rows_from(rows, index + 2);
            return (Block::Table { headers, rows: table, index: end }, end);
        }
    }
    (line_block(line), index + 1)
}

// ------------------------------------------------------------------ source code

/// How a stretch of source code is drawn.
#[derive(Debug, Clone, Copy, PartialEq, Eq, Structural)]
pub enum Shade {
    Plain,
    Keyword,
    Quoted,
    Comment,
}

/// A stretch of source code in one shade.
#[derive(Debug, PartialEq, Eq)]
pub struct CodeSpan {
    pub shade: Shade,
    pub text: String,
}

/// What a `CodeSpan` holds.
pub struct CodeSpanView {
    pub shade: Shade,
    pub text: Seq<char>,
}

impl View for CodeSpan {
    type V = CodeSpanView;

    open spec fn view(&self) -> CodeSpanView {
        CodeSpanView { shade: self.shade, text: self.text@ }
    }
}

/// The views of a list of stretches of source code.
pub open spec fn code_span_views(v: Seq<CodeSpan>) -> Seq<CodeSpanView> {
    v.map_values(|s: CodeSpan| s@)
}

/// What ends a word of source code.
pub open spec fn word_ends() -> CharClass {
    CharClass::NonAlphanumericBut('_')
}

/// The words of a line, each with the character that ends it.
pub open spec fn ended_words(s: Seq<char>) -> Seq<Seq<char>>
    decreases s.len(),
{
    if s.len() == 0 {
        seq![]
    } else if span(s, word_ends()) >= s.len() {
        seq![s]
    } else {
        let n = span(s, word_ends()) as int + 1;
        seq![s.take(n)] + ended_words(s.skip(n))
    }
}

/// The words that are drawn as keywords of a language.
pub open spec fn keywords(language: Seq<char>) -> Seq<Seq<char>> {
    if ascii_lower(language) == ascii_lower("sql"@) {
        seq![
            "SELECT"@, "FROM"@, "WHERE"@, "JOIN"@, "LEFT"@, "RIGHT"@, "ON"@, "GROUP"@, "BY"@,
            "ORDER"@, "AS"@, "WITH"@, "INSERT"@, "UPDATE"@, "DELETE"@,
        ]
    } else if ascii_lower(language) == ascii_lower("python"@) {
        seq![
            "def"@, "class"@, "return"@, "import"@, "from"@, "if"@, "else"@, "for"@, "while"@,
            "in"@, "True"@, "False"@, "None"@,
        ]
    } else {
        seq![
            "fn"@, "let"@, "mut"@, "pub"@, "struct"@, "impl"@, "use"@, "return"@, "if"@, "else"@,
            "match"@, "for"@, "while"@, "async"@, "await"@,
        ]
    }
}

/// The word is a keyword of the language, whatever the case.
pub open spec fn is_keyword(word: Seq<char>, language: Seq<char>) -> bool {
    exists|i: int|
        0 <= i < keywords(language).len() && ascii_lower(#[trigger] keywords(language)[i])
            == ascii_lower(word)
}

/// How a word with the character that ends it is drawn.
pub open spec fn word_shade(word: Seq<char>, language: Seq<char>) -> Shade {
    if is_keyword(trim_class(word, word_ends()), language) {
        Shade::Keyword
    } else if contains(word, "\""@) || contains(word, "'"@) {
        Shade::Quoted
    } else {
        Shade::Plain
    }
}

/// The line is a comment in one of the usual languages.
pub open spec fn is_comment(line: Seq<char>) -> bool {
    let bare = trim_start(line, CharClass::White);
    "//"@.is_prefix_of(bare) || "#"@.is_prefix_of(bare) || "--"@.is_prefix_of(bare)
}

/// The stretches of a line of source code.
pub open spec fn shaded(line: Seq<char>, language: Seq<char>) -> Seq<CodeSpanView> {
    if is_comment(line) {
        seq![CodeSpanView { shade: Shade::Comment, text: line }]
    } else {
        ended_words(line).map_values(
            |word: Seq<char>| CodeSpanView { shade: word_shade(word, language), text: word },
        )
    }
}

/// The words that are drawn as keywords of a language.
fn keyword_list(language: &str) -> (r: Vec<&'static str>)
    ensures
        str_views(r@) == keywords(language@),
{
    let r: Vec<&'static str> = if same_ignoring_ascii_case(language, "sql") {
        vec![
            "SELECT", "FROM", "WHERE", "JOIN", "LEFT", "RIGHT", "ON", "GROUP", "BY", "ORDER", "AS",
            "WITH", "INSERT", "UPDATE", "DELETE",
        ]
    } else if same_ignoring_ascii_case(language, "python") {
        vec![
            "def", "class", "return", "import", "from", "if", "else", "for", "while", "in", "True",
            "False", "None",
        ]
    } else {
        vec![
            "fn", "let", "mut", "pub", "struct", "impl", "use", "return", "if", "else", "match",
            "for", "while", "async", "await",
        ]
    };
    assert(str_views(r@) =~= keywords(language@));
    r
}

/// How a word with the character that ends it is drawn.
fn shade_of(word: &str, language: &str) -> (r: Shade)
    ensures
        r == word_shade(word@, language@),
{
    let list = keyword_list(language);
    let bare = trimmed_class(word, CharClass::NonAlphanumericBut('_'));
    let mut i: usize = 0;
    while i < list.len()
        invariant
            i <= list.len(),
            str_views(list@) == keywords(language@),
            bare@ == trim_class(word@, word_ends()),
            forall|j: int|
                0 <= j < i ==> ascii_lower(#[trigger] keywords(language@)[j]) != ascii_lower(bare@),
        decreases list.len() - i,
    {
        assert(keywords(language@)[i as int] == str_views(list@)[i as int]);
        if same_ignoring_ascii_case(list[i], bare.as_str()) {
            return Shade::Keyword;
        }
        i += 1;
    }
    if has(word, "\"") || has(word, "'") {
        Shade::Quoted
    } else {
        Shade::Plain
    }
}

/// The stretches of a line of source code: a comment is one stretch, and each
/// word of another line is drawn by what it is.
pub fn code_spans(line: &str, language: &str) -> (r: Vec<CodeSpan>)
    ensures
        code_span_views(r@) == shaded(line@, language@),
{
    let bare = trimmed_start(line, CharClass::White);
    if starts_with(bare.as_str(), "//") || starts_with(bare.as_str(), "#") || starts_with(
        bare.as_str(),
        "--",
    ) {
        let only = CodeSpan { shade: Shade::Comment, text: line.to_owned() };
        let r = vec![only];
        assert(code_span_views(r@) =~= shaded(line@, language@));
        return r;
    }
    let c = chars(line);
    let ghost draw = |word: Seq<char>| CodeSpanView { shade: word_shade(word, language@), text: word };
    let mut r: Vec<CodeSpan> = Vec::new();
    let mut pos: usize = 0;
    assert(line@.skip(0) =~= line@);
    assert(code_span_views(r@) + ended_words(line@).map_values(draw) =~= ended_words(
        line@,
    ).map_values(draw));
    while pos < c.len()
        invariant
            c@ == line@,
            pos <= c.len(),
            draw == (|word: Seq<char>|
                CodeSpanView { shade: word_shade(word, language@), text: word }),
            code_span_views(r@) + ended_words(line@.skip(pos as int)).map_values(draw)
                == ended_words(line@).map_values(draw),
        decreases c.len() - pos,
    {
        let rest = slice_subrange(&c, pos, c.len());
        let ghost whole = rest@;
        assert(whole =~= line@.skip(pos as int));
        let plain = span_len(rest, CharClass::NonAlphanumericBut('_'));
        let taken = if plain < rest.len() {
            plain + 1
        } else {
            plain
        };
        let word = string(slice_subrange(rest, 0, taken));
        assert(word@ =~= whole.take(taken as int));
        let shade = shade_of(word.as_str(), language);
        let ghost before = code_span_views(r@);
        let piece = CodeSpan { shade, text: word };
        r.push(piece);
        proof {
            assert(whole.take(whole.len() as int) =~= whole);
            assert(code_span_views(r@) =~= before.push(piece@));
            assert(whole.skip(taken as int) =~= line@.skip(pos + taken));
            let tail = ended_words(line@.skip(pos + taken));
            assert(ended_words(whole) =~= seq![piece@.text] + tail);
            assert(ended_words(whole).map_values(draw) =~= seq![piece@] + tail.map_values(draw));
            assert(code_span_views(r@) + tail.map_values(draw) =~= before + (seq![piece@]
                + tail.map_values(draw)));
        }
        pos += taken;
    }
    assert(code_span_views(r@) + ended_words(line@.skip(pos as int)).map_values(draw)
        =~= code_span_views(r@));
    r
}

/// The texts of the stretches, one after the other.
pub open spec fn code_text(spans: Seq<CodeSpanView>) -> Seq<char>
    decreases spans.len(),
{
    if spans.len() == 0 {
        seq![]
    } else {
        spans[0].text + code_text(spans.skip(1))
    }
}

/// No character of a line of source code is lost or added.
pub proof fn law_shades_keep_code(line: Seq<char>, language: Seq<char>)
    ensures
        code_text(shaded(line, language)) == line,
{
    let draw = |word: Seq<char>| CodeSpanView { shade: word_shade(word, language), text: word };
    if is_comment(line) {
        let all = shaded(line, language);
        assert(all.skip(1) =~= seq![]);
        assert(code_text(all.skip(1)) =~= seq![]);
        assert(code_text(all) =~= line);
    } else {
        lemma_words_keep_code(line, language);
    }
}

proof fn lemma_words_keep_code(line: Seq<char>, language: Seq<char>)
    ensures
        code_text(
            ended_words(line).map_values(
                |word: Seq<char>| CodeSpanView { shade: word_shade(word, language), text: word },
            ),
        ) == line,
    decreases line.len(),
{
    let draw = |word: Seq<char>| CodeSpanView { shade: word_shade(word, language), text: word };
    let all = ended_words(line).map_values(draw);
    if line.len() == 0 {
        assert(code_text(all) =~= line);
    } else if span(line, word_ends()) >= line.len() {
        assert(all.skip(1) =~= seq![]);
        assert(code_text(all.skip(1)) =~= seq![]);
        assert(code_text(all) =~= line);
    } else {
        let n = span(line, word_ends()) as int + 1;
        lemma_words_keep_code(line.skip(n), language);
        assert(all.skip(1) =~= ended_words(line.skip(n)).map_values(draw));
        assert(code_text(all) =~= line.take(n) + line.skip(n));
        assert(line.take(n) + line.skip(n) =~= line);
    }
}

/// The title of a block of code.
pub fn code_title(language: &str) -> (r: String)
    ensures
        r@ == if language@.len() == 0 {
            "CODIGO"@
        } else {
            ascii_upper(language@)
        },
{
    if language.is_empty() {
        "CODIGO".to_owned()
    } else {
        to_ascii_upper(language)
    }
}

// ------------------------------------------------------- every line is in a block

/// The block shows these lines, from one up to another: a block of code all lines between
/// its fences as they are; a table the cells of its head and of its rows; any other block
/// its one line, which is its mark and its text.
pub open spec fn shows(block: BlockView, l: Seq<Seq<char>>, from: int, to: int) -> bool {
    &&& 0 <= from < to <= l.len()
    &&& match block {
        BlockView::Code { language, code, index } => {
            let end = if to == l.len() && (to == from + 1 || !is_fence(l[to - 1])) {
                to
            } else {
                to - 1
            };
            &&& is_fence(l[from])
            &&& "```"@ + trim(l[from]).skip(3) == trim(l[from])
            &&& language == trim(trim(l[from]).skip(3))
            &&& code == run_together(l.subrange(from + 1, end).map_values(|x: Seq<char>| x.push('\n')))
            &&& forall|i: int| from < i < end ==> !is_fence(#[trigger] l[i])
        },
        BlockView::Table { headers, rows, index } => {
            &&& from + 2 <= to
            &&& !is_fence(l[from])
            &&& is_separator(l[from + 1])
            &&& headers == cells(l[from])
            &&& rows.len() == to - from - 2
            &&& forall|i: int|
                0 <= i < rows.len() ==> #[trigger] rows[i] == cells(l[from + 2 + i]) && is_row(
                    l[from + 2 + i],
                )
            &&& to < l.len() ==> !is_row(l[to])
        },
        BlockView::Heading { level, text } => {
            &&& to == from + 1
            &&& match level {
                1u8 => "# "@ + text == l[from],
                2u8 => "## "@ + text == l[from],
                3u8 => "### "@ + text == l[from],
                _ => false,
            }
        },
        BlockView::Quote(text) => to == from + 1 && "> "@ + text == l[from],
        BlockView::Bullet(text) => to == from + 1 && ("- "@ + text == l[from] || "* "@ + text
            == l[from]),
        BlockView::Numbered { number, text } => {
            to == from + 1 && all_digits(number) && number + seq!['.', ' '] + text == l[from]
        },
        BlockView::Space => to == from + 1 && is_blank(l[from]),
        BlockView::Line(text) => {
            to == from + 1 && text == l[from] && !is_fence(l[from]) && !is_blank(l[from])
        },
    }
}

/// The blocks show all lines from one on, each line once and in their order.
pub open spec fn show_all(blocks: Seq<BlockView>, l: Seq<Seq<char>>, i: int) -> bool
    decreases blocks.len(),
{
    if blocks.len() == 0 {
        i == l.len()
    } else {
        exists|next: int| #[trigger]
            shows(blocks[0], l, i, next) && show_all(blocks.skip(1), l, next)
    }
}

proof fn lemma_code_end(l: Seq<Seq<char>>, i: int)
    requires
        0 <= i <= l.len(),
    ensures
        i <= code_end(l, i) <= l.len(),
        code_end(l, i) < l.len() ==> is_fence(l[code_end(l, i)]),
        forall|j: int| i <= j < code_end(l, i) ==> !is_fence(#[trigger] l[j]),
    decreases l.len() - i,
{
    if i < l.len() && !is_fence(l[i]) {
        lemma_code_end(l, i + 1);
    }
}

proof fn lemma_table_end(l: Seq<Seq<char>>, i: int)
    requires
        0 <= i <= l.len(),
    ensures
        i <= table_end(l, i) <= l.len(),
        table_end(l, i) < l.len() ==> !is_row(l[table_end(l, i)]),
        forall|j: int| i <= j < table_end(l, i) ==> is_row(#[trigger] l[j]),
    decreases l.len() - i,
{
    if i < l.len() && is_row(l[i]) {
        lemma_table_end(l, i + 1);
    }
}

proof fn lemma_ended_lines(l: Seq<Seq<char>>)
    ensures
        ended_lines(l) == run_together(l.map_values(|x: Seq<char>| x.push('\n'))),
    decreases l.len(),
{
    let ended = l.map_values(|x: Seq<char>| x.push('\n'));
    if l.len() > 0 {
        lemma_ended_lines(l.drop_last());
        assert(ended.drop_last() =~= l.drop_last().map_values(|x: Seq<char>| x.push('\n')));
    }
}

proof fn lemma_prefix_and_rest(s: Seq<char>, p: Seq<char>, n: int)
    requires
        p.is_prefix_of(s),
        n == p.len(),
    ensures
        p + s.skip(n) == s,
{
    assert(p =~= s.subrange(0, n));
    assert(p + s.skip(n) =~= s);
}

proof fn lemma_simple_block(l: Seq<Seq<char>>, i: int)
    requires
        0 <= i < l.len(),
        !is_fence(l[i]),
    ensures
        shows(simple_block(l[i]), l, i, i + 1),
{
    let line = l[i];
    reveal_strlit("### ");
    reveal_strlit("## ");
    reveal_strlit("# ");
    reveal_strlit("> ");
    reveal_strlit("- ");
    reveal_strlit("* ");
    if "### "@.is_prefix_of(line) {
        lemma_prefix_and_rest(line, "### "@, 4);
    } else if "## "@.is_prefix_of(line) {
        lemma_prefix_and_rest(line, "## "@, 3);
    } else if "# "@.is_prefix_of(line) {
        lemma_prefix_and_rest(line, "# "@, 2);
    } else if "> "@.is_prefix_of(line) {
        lemma_prefix_and_rest(line, "> "@, 2);
    } else if "- "@.is_prefix_of(line) {
        lemma_prefix_and_rest(line, "- "@, 2);
    } else if "* "@.is_prefix_of(line) {
        lemma_prefix_and_rest(line, "* "@, 2);
    } else if let Some((number, text)) = numbered(line) {
        lemma_find(line, seq!['.', ' ']);
        let at = find(line, seq!['.', ' ']).unwrap();
        assert(number + seq!['.', ' '] + text =~= line) by {
            assert(line.subrange(at, at + 2) == seq!['.', ' ']);
            assert(line.subrange(at, at + 2)[0] == line[at]);
            assert(line.subrange(at, at + 2)[1] == line[at + 1]);
        }
    }
}

proof fn lemma_block_shows(l: Seq<Seq<char>>, i: int)
    requires
        0 <= i < l.len(),
    ensures
        shows(block_at(l, i).0, l, i, block_at(l, i).1),
{
    if is_fence(l[i]) {
        let end = code_end(l, i + 1);
        lemma_code_end(l, i + 1);
        lemma_ended_lines(l.subrange(i + 1, end));
        reveal_strlit("```");
        lemma_prefix_and_rest(trim(l[i]), "```"@, 3);
    } else if i + 1 < l.len() && is_separator(l[i + 1]) {
        lemma_table_end(l, i + 2);
    } else {
        lemma_simple_block(l, i);
    }
}

/// No line of an answer is lost when it is shown: the blocks show every line, once and in
/// their order, with the text as it stands.
pub proof fn law_blocks_show_every_line(l: Seq<Seq<char>>, i: int)
    requires
        0 <= i <= l.len(),
    ensures
        show_all(blocks_from(l, i), l, i),
    decreases l.len() - i,
{
    let b = blocks_from(l, i);
    if i < l.len() {
        let next = block_at(l, i).1;
        lemma_block_shows(l, i);
        law_blocks_show_every_line(l, next);
        assert(b.skip(1) =~= blocks_from(l, next));
        assert(shows(b[0], l, i, next));
    }
}

/// The cells of a line of a table are what stands between its bars, without the blanks
/// around.
pub proof fn law_cells(line: Seq<char>)
    ensures
        exists|pieces: Seq<Seq<char>>|
            {
                &&& #[trigger] join(pieces, seq!['|']) == trim_class(
                    trim(line),
                    CharClass::One('|'),
                )
                &&& pieces.len() == cells(line).len()
                &&& forall|i: int|
                    0 <= i < pieces.len() ==> cells(line)[i] == trim(#[trigger] pieces[i])
                        && !pieces[i].contains('|')
            },
{
    let inner = trim_class(trim(line), CharClass::One('|'));
    law_split_rebuilds(inner, '|');
    let pieces = split(inner, CharClass::One('|'));
    assert(join(pieces, seq!['|']) == inner);
}

/// The text has none of the characters that can begin a mark.
pub open spec fn is_unmarked(text: Seq<char>) -> bool {
    !text.contains('*') && !text.contains('`')
}

proof fn lemma_closed(inner: Seq<char>, style: Style, rest: Seq<char>)
    requires
        style != Style::Normal,
        is_unmarked(inner),
    ensures
        find(inner + style.mark() + rest, style.mark()) == Some(inner.len() as int),
{
    let m = style.mark();
    let s = inner + m + rest;
    let n = inner.len() as int;
    assert(s.subrange(n, n + m.len()) =~= m);
    assert(occurs_at(s, m, n));
    assert forall|j: int| 0 <= j < n implies !occurs_at(s, m, j) by {
        if occurs_at(s, m, j) {
            assert(s.subrange(j, j + m.len())[0] == m[0]);
            assert(s[j] == inner[j]);
            assert(inner.contains(inner[j]));
        }
    }
    assert(crate::text::is_first(s, m, n));
    lemma_find(s, m);
}

/// Text between two marks is shown in the style of the marks, and what follows them by
/// itself; text without marks is shown as it is, in one stretch.
pub proof fn law_marked_text_is_styled(inner: Seq<char>, style: Style, rest: Seq<char>)
    requires
        inner.len() > 0,
        is_unmarked(inner),
    ensures
        style != Style::Normal ==> inline(style.mark() + inner + style.mark() + rest) == seq![
            SpanView { style, text: inner },
        ] + inline(rest),
        inline(inner) == seq![SpanView { style: Style::Normal, text: inner }],
{
    assert(inner.contains(inner[0]));
    if style != Style::Normal {
        let m = style.mark();
        let text = m + inner + m + rest;
        lemma_closed(inner, style, rest);
        assert(text.skip(m.len() as int) =~= inner + m + rest);
        assert(text.subrange(0, m.len() as int) =~= m);
        assert(m.is_prefix_of(text));
        assert(closing(text, style) == Some(inner.len() as int));
        assert(text[0] == m[0]);
        if style != Style::Strong {
            assert(text[1] == inner[0]);
            assert(!Style::Strong.mark().is_prefix_of(text)) by {
                assert(Style::Strong.mark()[1] == '*');
            }
        }
        if style == Style::Italic {
            assert(!Style::Code.mark().is_prefix_of(text)) by {
                assert(Style::Code.mark()[0] == '`');
            }
        }
        assert(leading_style(text) == style);
        assert(leading_span(text).text =~= inner);
        assert(text.skip(leading_len(text)) =~= rest);
        assert(inline(text) =~= seq![SpanView { style, text: inner }] + inline(rest));
    }
    lemma_unmarked(inner);
}

proof fn lemma_unmarked(inner: Seq<char>)
    requires
        inner.len() > 0,
        is_unmarked(inner),
    ensures
        inline(inner) == seq![SpanView { style: Style::Normal, text: inner }],
{
    assert(inner.contains(inner[0]));
    assert(!Style::Strong.mark().is_prefix_of(inner)) by {
        assert(Style::Strong.mark()[0] == '*');
    }
    assert(!Style::Code.mark().is_prefix_of(inner)) by {
        assert(Style::Code.mark()[0] == '`');
    }
    assert(!Style::Italic.mark().is_prefix_of(inner)) by {
        assert(Style::Italic.mark()[0] == '*');
    }
    let t = inner.skip(1);
    lemma_span(t, marks());
    let n = span(t, marks()) as int;
    if n < t.len() {
        assert(t[n] == inner[n + 1]);
        assert(inner.contains(inner[n + 1]));
    }
    assert(inner.take(plain_len(inner)) =~= inner);
    assert(inner.skip(leading_len(inner)) =~= seq![]);
    assert(inline(Seq::<char>::empty()) =~= seq![]);
    assert(inline(inner) =~= seq![SpanView { style: Style::Normal, text: inner }]);
}

/// A comment is one stretch. Elsewhere every word that stands by itself as a keyword is
/// drawn as one, and other words are drawn as quoted exactly where they hold a quote.
pub proof fn law_shades(line: Seq<char>, language: Seq<char>, i: int)
    requires
        0 <= i < shaded(line, language).len(),
    ensures
        is_comment(line) ==> shaded(line, language) == seq![
            CodeSpanView { shade: Shade::Comment, text: line },
        ],
        !is_comment(line) ==> {
            let s = shaded(line, language)[i];
            &&& s.shade != Shade::Comment
            &&& s.shade == Shade::Keyword <==> exists|k: int|
                0 <= k < keywords(language).len() && ascii_lower(#[trigger] keywords(language)[k])
                    == ascii_lower(trim_class(s.text, word_ends()))
            &&& s.shade == Shade::Quoted ==> s.text.contains('"') || s.text.contains('\'')
            &&& s.shade == Shade::Plain ==> !s.text.contains('"') && !s.text.contains('\'')
        },
{
    if !is_comment(line) {
        let s = shaded(line, language)[i];
        reveal_strlit("\"");
        reveal_strlit("'");
        lemma_one_char(s.text, '"');
        lemma_one_char(s.text, '\'');
        assert("\""@ =~= seq!['"']);
        assert("'"@ =~= seq!['\'']);
    }
}

proof fn lemma_one_char(s: Seq<char>, c: char)
    ensures
        contains(s, seq![c]) <==> s.contains(c),
{
    if contains(s, seq![c]) {
        let i = choose|i: int| occurs_at(s, seq![c], i);
        assert(s.subrange(i, i + 1)[0] == s[i]);
        assert(seq![c][0] == c);
    }
    if s.contains(c) {
        let i = choose|i: int| 0 <= i < s.len() && s[i] == c;
        assert(s.subrange(i, i + 1) =~= seq![c]);
        assert(occurs_at(s, seq![c], i));
    }
}

} // verus!
