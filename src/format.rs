//! Display of items and documents as trees of styled lines, with urgency from due dates.
use vstd::prelude::*;

use crate::date::{date_text, day_distance, Date};
use crate::document::Document;
use crate::error::{CodeComponent, Error};
use crate::item::{height, heights, item_view, items_view, lemma_height_bounds, lemma_items_view, Item, ItemView};
use crate::output::{plain_style, Color, OutputBuffer, OutputLine, OutputSegment, Style};
use crate::text::{append, append_str, int_chars, int_text, string_from_chars};

verus! {

broadcast use vstd::std_specs::vec::group_vec_axioms;

/// A segment as a mathematical value.
pub struct SegmentView {
    pub text: Seq<char>,
    pub color: Color,
    pub style: Style,
}

pub open spec fn seg(text: Seq<char>, color: Color, style: Style) -> SegmentView {
    SegmentView { text, color, style }
}

pub open spec fn seg_view(s: OutputSegment) -> SegmentView {
    SegmentView { text: s.content@, color: s.color, style: s.style }
}

pub open spec fn line_view(l: OutputLine) -> Seq<SegmentView> {
    l.content@.map_values(|s: OutputSegment| seg_view(s))
}

/// The lines of a buffer, each a sequence of segments.
pub open spec fn buffer_view(b: OutputBuffer) -> Seq<Seq<SegmentView>> {
    b.lines@.map_values(|l: OutputLine| line_view(l))
}

pub open spec fn dim_style() -> Style {
    Style { dim: true, ..plain_style() }
}

pub open spec fn done_style() -> Style {
    Style { dim: true, strikethrough: true, ..plain_style() }
}

/// Color for a displayed priority: green for low, through blue, cyan, none, yellow and
/// magenta, to red for high.
pub open spec fn priority_color(p: int) -> Color {
    if p <= -5 {
        Color::Green
    } else if p <= -3 {
        Color::Blue
    } else if p <= -1 {
        Color::Cyan
    } else if p == 0 {
        Color::Default
    } else if p <= 2 {
        Color::Yellow
    } else if p <= 4 {
        Color::Magenta
    } else {
        Color::Red
    }
}

/// Tree guides for the levels above an item: blank where that level ended, a bar otherwise.
pub open spec fn guides(lines: Seq<bool>) -> Seq<SegmentView>
    decreases lines.len(),
{
    if lines.len() == 0 {
        Seq::empty()
    } else {
        guides(lines.drop_last()).push(
            if lines.last() {
                seg("  "@, Color::Default, plain_style())
            } else {
                seg("│ "@, Color::Default, dim_style())
            },
        )
    }
}

pub open spec fn branch(end: bool) -> SegmentView {
    seg(
        if end {
            "╰ "@
        } else {
            "├ "@
        },
        Color::Default,
        dim_style(),
    )
}

pub open spec fn fits_i64(n: int) -> bool {
    i64::MIN <= n <= i64::MAX
}

/// How urgent a due date is: `Some(7 - d)` when it is `d <= 7` days away (more than 7 once
/// it has passed), `None` without a date or when it is further away. The outer `None` is for
/// a distance whose urgency does not fit an `i64`.
pub open spec fn urgency_of(date: Option<Date>, today: Date) -> Option<Option<int>> {
    match date {
        None => Some(None),
        Some(d) => {
            let dist = day_distance(
                d.year as int,
                d.month as int,
                d.day as int,
                today.year as int,
                today.month as int,
                today.day as int,
            );
            if dist > 7 {
                Some(None)
            } else if fits_i64(7 - dist) {
                Some(Some(7 - dist))
            } else {
                None
            }
        },
    }
}

/// The priority shown: open items gain their urgency.
pub open spec fn shown_priority(v: ItemView, u: Option<int>) -> int {
    if v.completed {
        v.priority
    } else {
        v.priority + match u {
            Some(x) => x,
            None => 0,
        }
    }
}

pub open spec fn box_text(v: ItemView) -> Seq<char> {
    if v.archived {
        "\u{24d0}"@
    } else if v.completed {
        "▣"@
    } else {
        "□"@
    }
}

pub open spec fn days_text(n: int) -> Seq<char> {
    int_text(n) + " day"@ + (if n == 1 {
        Seq::empty()
    } else {
        "s"@
    })
}

pub open spec fn date_label(v: ItemView, u: Option<int>) -> Seq<char> {
    match u {
        Some(x) => days_text(7 - x),
        None => match v.date {
            Some(d) => date_text(d),
            None => Seq::empty(),
        },
    }
}

pub open spec fn item_style(v: ItemView) -> Style {
    if v.completed {
        done_style()
    } else {
        plain_style()
    }
}

/// The text of an item's line in the full tree.
pub open spec fn head_text(v: ItemView, u: Option<int>) -> Seq<char> {
    let p = int_text(shown_priority(v, u));
    if v.date is None {
        box_text(v) + " "@ + p + " "@ + v.name
    } else {
        box_text(v) + " "@ + p + " ("@ + date_label(v, u) + ") "@ + v.name
    }
}

/// An item and its children as lines of the full tree, or `None` where a shown priority does
/// not fit an `i64`.
pub open spec fn tree_lines(v: ItemView, end: bool, lines: Seq<bool>, today: Date) -> Option<
    Seq<Seq<SegmentView>>,
>
    decreases v, 0int,
{
    match urgency_of(v.date, today) {
        None => None,
        Some(u) => if !fits_i64(shown_priority(v, u)) {
            None
        } else {
            let head = guides(lines) + seq![
                branch(end),
                seg(head_text(v, u), priority_color(shown_priority(v, u)), item_style(v)),
            ];
            match forest_lines(v.items, v.items.len() as int, lines.push(end), today) {
                None => None,
                Some(rest) => Some(seq![head] + rest),
            }
        },
    }
}

/// The first `n` items of `s` as lines of the full tree, the last item of `s` drawn as the end.
pub open spec fn forest_lines(s: Seq<ItemView>, n: int, lines: Seq<bool>, today: Date) -> Option<
    Seq<Seq<SegmentView>>,
>
    decreases s, n,
{
    if n <= 0 || n > s.len() {
        Some(Seq::empty())
    } else {
        match forest_lines(s, n - 1, lines, today) {
            None => None,
            Some(before) => match tree_lines(s[n - 1], n - 1 == s.len() - 1, lines, today) {
                None => None,
                Some(mine) => Some(before + mine),
            },
        }
    }
}

pub open spec fn agrees_buffer(r: Result<OutputBuffer, Error>, o: Option<Seq<Seq<SegmentView>>>) -> bool {
    match r {
        Ok(b) => o == Some(buffer_view(b)),
        Err(_) => o is None,
    }
}

fn dim() -> (r: Style)
    ensures
        r == dim_style(),
{
    let mut s = Style::new();
    s.dim();
    s
}

fn add_text(line: &mut OutputLine, text: &Vec<char>, color: Color, style: Style)
    ensures
        line_view(*final(line)) == line_view(*old(line)).push(seg(text@, color, style)),
{
    let s = string_from_chars(text);
    let ghost before = line.content@;
    line.add(OutputSegment::new(s.as_str(), color, style));
    assert(line_view(*line) =~= line_view(*old(line)).push(seg(text@, color, style)));
}

fn add_str(line: &mut OutputLine, text: &str, color: Color, style: Style)
    ensures
        line_view(*final(line)) == line_view(*old(line)).push(seg(text@, color, style)),
{
    let ghost before = line.content@;
    let segment = OutputSegment::new(text, color, style);
    line.add(segment);
    assert(line_view(*line) =~= line_view(*old(line)).push(seg(text@, color, style)));
}

fn guide_line(lines: &Vec<bool>) -> (r: OutputLine)
    ensures
        line_view(r) == guides(lines@),
{
    let mut out = OutputLine::new();
    let mut i: usize = 0;
    while i < lines.len()
        invariant
            i <= lines@.len(),
            line_view(out) == guides(lines@.subrange(0, i as int)),
        decreases lines@.len() - i,
    {
        if lines[i] {
            add_str(&mut out, "  ", Color::Default, Style::normal());
        } else {
            add_str(&mut out, "│ ", Color::Default, dim());
        }
        assert(lines@.subrange(0, i + 1).drop_last() == lines@.subrange(0, i as int));
        i += 1;
    }
    assert(lines@.subrange(0, i as int) == lines@);
    out
}

fn priority_color_of(p: i64) -> (r: Color)
    ensures
        r == priority_color(p as int),
{
    if p <= -5 {
        Color::Green
    } else if p <= -3 {
        Color::Blue
    } else if p <= -1 {
        Color::Cyan
    } else if p == 0 {
        Color::Default
    } else if p <= 2 {
        Color::Yellow
    } else if p <= 4 {
        Color::Magenta
    } else {
        Color::Red
    }
}

fn push_line(out: &mut OutputBuffer, line: OutputLine)
    ensures
        buffer_view(*final(out)) == buffer_view(*old(out)).push(line_view(line)),
{
    out.add(line);
    assert(buffer_view(*out) =~= buffer_view(*old(out)).push(line_view(line)));
}

fn push_all(out: &mut OutputBuffer, more: OutputBuffer)
    ensures
        buffer_view(*final(out)) == buffer_view(*old(out)) + buffer_view(more),
{
    out.append(more);
    assert(buffer_view(*out) =~= buffer_view(*old(out)) + buffer_view(more));
}

fn box_of(it: &Item) -> (r: &'static str)
    ensures
        r@ == box_text(it@),
{
    if it.archived {
        "\u{24d0}"
    } else if it.completed {
        "▣"
    } else {
        "□"
    }
}

fn days_chars(n: i64) -> (r: Vec<char>)
    ensures
        r@ == days_text(n as int),
{
    let mut out = int_chars(n as i128);
    append_str(&mut out, " day");
    if n != 1 {
        append_str(&mut out, "s");
    }
    out
}

impl Item {
    /// How urgent the item's due date is, against `today`: `Some(7 - d)` when it is `d <= 7`
    /// days away, `None` without a date or when it is further away.
    pub fn urgency(&self, today: &Date) -> (r: Result<Option<i64>, Error>)
        requires
            self.date matches Some(d) ==> d.wf(),
            today.wf(),
        ensures
            match r {
                Ok(u) => urgency_of(self.date, *today) == Some(
                    match u {
                        Some(x) => Some(x as int),
                        None => None,
                    },
                ),
                Err(_) => urgency_of(self.date, *today) is None,
            },
    {
        match &self.date {
            None => Ok(None),
            Some(d) => {
                let dist = match d.distance(*today) {
                    Ok(n) => n,
                    Err(e) => return Err(Error::wrap(CodeComponent::TodoItem, "No distance.", e)),
                };
                if dist > 7 {
                    Ok(None)
                } else if dist < -9223372036854775800 {
                    Err(Error::new(CodeComponent::TodoItem, "The due date is too far back."))
                } else {
                    Ok(Some(7 - dist))
                }
            },
        }
    }

    fn shown(&self, today: &Date) -> (r: Result<(Option<i64>, i64), Error>)
        requires
            self.date matches Some(d) ==> d.wf(),
            today.wf(),
        ensures
            match r {
                Ok((u, p)) => urgency_of(self.date, *today) == Some(
                    match u {
                        Some(x) => Some(x as int),
                        None => None,
                    },
                ) && p as int == shown_priority(
                    self@,
                    match u {
                        Some(x) => Some(x as int),
                        None => None,
                    },
                ),
                Err(_) => match urgency_of(self.date, *today) {
                    None => true,
                    Some(u) => !fits_i64(shown_priority(self@, u)),
                },
            },
    {
        let u = self.urgency(today)?;
        if self.completed {
            return Ok((u, self.priority));
        }
        let extra: i64 = match u {
            Some(x) => x,
            None => 0,
        };
        if (extra > 0 && self.priority > i64::MAX - extra) || (extra < 0 && self.priority < i64::MIN
            - extra) {
            return Err(Error::new(CodeComponent::TodoItem, "The priority is out of range."));
        }
        Ok((u, self.priority + extra))
    }

    fn head_chars(&self, u: Option<i64>, p: i64) -> (r: Vec<char>)
        requires
            self.date matches Some(d) ==> d.wf(),
            p as int == shown_priority(
                self@,
                match u {
                    Some(x) => Some(x as int),
                    None => None,
                },
            ),
            u matches Some(x) ==> x >= 0,
        ensures
            r@ == head_text(
                self@,
                match u {
                    Some(x) => Some(x as int),
                    None => None,
                },
            ),
    {
        let mut out: Vec<char> = Vec::new();
        append_str(&mut out, box_of(self));
        append_str(&mut out, " ");
        let pc = int_chars(p as i128);
        append(&mut out, &pc);
        match &self.date {
            None => {
                append_str(&mut out, " ");
            },
            Some(d) => {
                append_str(&mut out, " (");
                let label = match u {
                    Some(x) => days_chars(7 - x),
                    None => crate::text::chars_of(d.display().as_str()),
                };
                append(&mut out, &label);
                append_str(&mut out, ") ");
            },
        }
        append_str(&mut out, self.name.as_str());
        assert(out@ =~= head_text(
            self@,
            match u {
                Some(x) => Some(x as int),
                None => None,
            },
        ));
        out
    }
}

/// The text of an item's line in the overview: its box and name.
pub open spec fn overview_text(v: ItemView) -> Seq<char> {
    if v.archived {
        "\u{24d0}  "@ + v.name
    } else {
        box_text(v) + " "@ + v.name
    }
}

/// An item as a line of the overview, with its children where `show_children`.
pub open spec fn overview_lines(
    v: ItemView,
    show_children: bool,
    end: bool,
    lines: Seq<bool>,
    today: Date,
) -> Option<Seq<Seq<SegmentView>>>
    decreases v, 0int,
{
    match urgency_of(v.date, today) {
        None => None,
        Some(u) => if !fits_i64(shown_priority(v, u)) {
            None
        } else {
            let head = guides(lines) + seq![
                branch(end),
                seg(overview_text(v), priority_color(shown_priority(v, u)), item_style(v)),
            ];
            if show_children {
                match overview_forest(v.items, v.items.len() as int, lines.push(end), today) {
                    None => None,
                    Some(rest) => Some(seq![head] + rest),
                }
            } else {
                Some(seq![head])
            }
        },
    }
}

/// The first `n` items of `s` in the overview, each with its children.
pub open spec fn overview_forest(s: Seq<ItemView>, n: int, lines: Seq<bool>, today: Date) -> Option<
    Seq<Seq<SegmentView>>,
>
    decreases s, n,
{
    if n <= 0 || n > s.len() {
        Some(Seq::empty())
    } else {
        match overview_forest(s, n - 1, lines, today) {
            None => None,
            Some(before) => match overview_lines(s[n - 1], true, n - 1 == s.len() - 1, lines, today) {
                None => None,
                Some(mine) => Some(before + mine),
            },
        }
    }
}

proof fn lemma_forest_none(s: Seq<ItemView>, i: int, n: int, lines: Seq<bool>, today: Date, full: bool)
    requires
        1 <= i <= n <= s.len(),
        full ==> forest_lines(s, i, lines, today) is None,
        !full ==> overview_forest(s, i, lines, today) is None,
    ensures
        full ==> forest_lines(s, n, lines, today) is None,
        !full ==> overview_forest(s, n, lines, today) is None,
    decreases n - i,
{
    if i < n {
        lemma_forest_none(s, i, n - 1, lines, today, full);
    }
}

fn bools_with(lines: &Vec<bool>, last: bool) -> (r: Vec<bool>)
    ensures
        r@ == lines@.push(last),
{
    let mut r: Vec<bool> = Vec::new();
    let mut i: usize = 0;
    while i < lines.len()
        invariant
            i <= lines@.len(),
            r@ == lines@.subrange(0, i as int),
        decreases lines@.len() - i,
    {
        r.push(lines[i]);
        i += 1;
        assert(r@ == lines@.subrange(0, i as int));
    }
    r.push(last);
    assert(lines@.subrange(0, i as int) == lines@);
    r
}

fn item_style_of(it: &Item) -> (r: Style)
    ensures
        r == item_style(it@),
{
    if it.completed {
        let mut s = Style::new();
        s.dim();
        s.strikethrough();
        s
    } else {
        Style::normal()
    }
}

fn overview_chars(it: &Item) -> (r: Vec<char>)
    ensures
        r@ == overview_text(it@),
{
    let mut out: Vec<char> = Vec::new();
    if it.archived {
        append_str(&mut out, "\u{24d0}  ");
    } else {
        append_str(&mut out, box_of(it));
        append_str(&mut out, " ");
    }
    append_str(&mut out, it.name.as_str());
    out
}

fn format_tree(
    it: &Item,
    full: bool,
    show_children: bool,
    end: bool,
    lines: &Vec<bool>,
    today: &Date,
    Ghost(bound): Ghost<nat>,
) -> (r: Result<OutputBuffer, Error>)
    requires
        today.wf(),
        crate::item::item_dates_ok(it@),
        height(it@) <= bound,
        full ==> show_children,
    ensures
        full ==> agrees_buffer(r, tree_lines(it@, end, lines@, *today)),
        !full ==> agrees_buffer(r, overview_lines(it@, show_children, end, lines@, *today)),
    decreases bound, 1int,
{
    let (u, p) = match it.shown(today) {
        Ok(x) => x,
        Err(e) => return Err(Error::wrap(CodeComponent::TodoItem, "Could not format the item.", e)),
    };
    let mut line = guide_line(lines);
    if end {
        add_str(&mut line, "╰ ", Color::Default, dim());
    } else {
        add_str(&mut line, "├ ", Color::Default, dim());
    }
    let text = if full {
        it.head_chars(u, p)
    } else {
        overview_chars(it)
    };
    add_text(&mut line, &text, priority_color_of(p), item_style_of(it));
    assert(line_view(line) =~= guides(lines@) + seq![
        branch(end),
        seg(text@, priority_color(p as int), item_style(it@)),
    ]);
    let mut out = OutputBuffer::new();
    let ghost head = line_view(line);
    push_line(&mut out, line);
    assert(buffer_view(out) =~= seq![head]);
    if show_children {
        let new_lines = bools_with(lines, end);
        proof {
            lemma_height_bounds(it@.items);
        }
        proof {
            lemma_items_view(it.items@);
        }
        let rest = match format_forest(&it.items, full, &new_lines, today, Ghost((bound - 1) as nat)) {
            Ok(b) => b,
            Err(e) => {
                return Err(e);
            },
        };
        push_all(&mut out, rest);
    }
    Ok(out)
}

fn format_forest(
    items: &Vec<Item>,
    full: bool,
    lines: &Vec<bool>,
    today: &Date,
    Ghost(bound): Ghost<nat>,
) -> (r: Result<OutputBuffer, Error>)
    requires
        today.wf(),
        crate::item::dates_ok(items_view(items@)),
        heights(items_view(items@)) <= bound,
    ensures
        full ==> agrees_buffer(
            r,
            forest_lines(items_view(items@), items@.len() as int, lines@, *today),
        ),
        !full ==> agrees_buffer(
            r,
            overview_forest(items_view(items@), items@.len() as int, lines@, *today),
        ),
    decreases bound, 2int,
{
    let ghost sv = items_view(items@);
    proof {
        lemma_items_view(items@);
        lemma_height_bounds(sv);
    }
    let n = items.len();
    let mut out = OutputBuffer::new();
    let mut i: usize = 0;
    while i < n
        invariant
            n == items@.len(),
            sv == items_view(items@),
            sv.len() == n,
            forall|k: int| 0 <= k < n ==> #[trigger] sv[k] == item_view(items@[k]),
            forall|k: int| 0 <= k < n ==> height(#[trigger] sv[k]) <= heights(sv),
            crate::item::dates_ok(sv),
            heights(sv) <= bound,
            today.wf(),
            i <= n,
            full ==> forest_lines(sv, i as int, lines@, *today) == Some(buffer_view(out)),
            !full ==> overview_forest(sv, i as int, lines@, *today) == Some(buffer_view(out)),
        decreases n - i,
    {
        assert(sv[i as int] == item_view(items@[i as int]));
        assert(height(sv[i as int]) <= heights(sv));
        let sub = match format_tree(&items[i], full, true, i == n - 1, lines, today, Ghost(bound)) {
            Ok(b) => b,
            Err(e) => {
                proof {
                    lemma_forest_none(sv, i + 1, n as int, lines@, *today, full);
                }
                return Err(e);
            },
        };
        push_all(&mut out, sub);
        i += 1;
    }
    Ok(out)
}

impl Item {
    /// The item and its children as lines of the tree, drawn below the guides in `lines`
    /// (`true` where that level has ended), with priorities raised by urgency.
    pub fn format(&self, end: bool, lines: Vec<bool>, today: &Date) -> (r: Result<OutputBuffer, Error>)
        requires
            today.wf(),
            crate::item::item_dates_ok(self@),
        ensures
            agrees_buffer(r, tree_lines(self@, end, lines@, *today)),
    {
        format_tree(self, true, true, end, &lines, today, Ghost(height(self@)))
    }

    /// The item's box and name as a line of the tree, with its children where `show_children`.
    pub fn format_overview(&self, show_children: bool, end: bool, lines: Vec<bool>, today: &Date) -> (r:
        Result<OutputBuffer, Error>)
        requires
            today.wf(),
            crate::item::item_dates_ok(self@),
        ensures
            agrees_buffer(r, overview_lines(self@, show_children, end, lines@, *today)),
    {
        format_tree(self, false, show_children, end, &lines, today, Ghost(height(self@)))
    }

    /// Priority, date and name on lines of their own, then the children's overview where
    /// `show_children`.
    pub fn format_detail(&self, show_children: bool, today: &Date) -> (r: Result<OutputBuffer, Error>)
        requires
            today.wf(),
            crate::item::item_dates_ok(self@),
        ensures
            agrees_buffer(r, detail_lines(self@, show_children, *today)),
    {
        let (u, p) = match self.shown(today) {
            Ok(x) => x,
            Err(e) => return Err(Error::wrap(CodeComponent::TodoItem, "Could not format the item.", e)),
        };
        let mut priority_line = OutputLine::new();
        let mut pt = crate::text::chars_of("Priority: ");
        let pc = int_chars(p as i128);
        append(&mut pt, &pc);
        add_text(&mut priority_line, &pt, priority_color_of(p), Style::new());
        let mut date_line = OutputLine::new();
        match &self.date {
            Some(d) => {
                let dist = match d.distance(*today) {
                    Ok(n) => n,
                    Err(e) => return Err(Error::wrap(CodeComponent::TodoItem, "No distance.", e)),
                };
                let mut dt = crate::text::chars_of("Date: ");
                append_str(&mut dt, d.display().as_str());
                append_str(&mut dt, " (");
                let days = days_chars(dist);
                append(&mut dt, &days);
                append_str(&mut dt, " days from now)");
                add_text(&mut date_line, &dt, Color::Default, Style::new());
                assert(line_view(date_line) =~= seq![seg(dt@, Color::Default, plain_style())]);
            },
            None => {
                add_str(&mut date_line, "Date: None", Color::Default, Style::new());
                assert(line_view(date_line) =~= seq![seg("Date: None"@, Color::Default, plain_style())]);
            },
        }
        let mut name_line = OutputLine::new();
        let mut nt = crate::text::chars_of("Name: ");
        append_str(&mut nt, self.name.as_str());
        add_text(&mut name_line, &nt, Color::Default, Style::new());
        let mut out = OutputBuffer::new();
        let ghost l1 = line_view(priority_line);
        let ghost l2 = line_view(date_line);
        let ghost l3 = line_view(name_line);
        assert(l1 =~= seq![seg(pt@, priority_color(p as int), plain_style())]);
        assert(l3 =~= seq![seg(nt@, Color::Default, plain_style())]);
        push_line(&mut out, priority_line);
        push_line(&mut out, date_line);
        push_line(&mut out, name_line);
        assert(buffer_view(out) =~= seq![l1, l2, l3]);
        if show_children {
            let none: Vec<bool> = Vec::new();
            proof {
                lemma_height_bounds(self@.items);
                lemma_items_view(self.items@);
            }
            let rest = format_forest(&self.items, false, &none, today, Ghost(heights(self@.items)))?;
            push_all(&mut out, rest);
        }
        Ok(out)
    }
}

/// The detail view: priority line, date line, name line, then the children's overview.
pub open spec fn detail_lines(v: ItemView, show_children: bool, today: Date) -> Option<
    Seq<Seq<SegmentView>>,
> {
    match urgency_of(v.date, today) {
        None => None,
        Some(u) => if !fits_i64(shown_priority(v, u)) {
            None
        } else {
            let p = shown_priority(v, u);
            let first = seq![seg("Priority: "@ + int_text(p), priority_color(p), plain_style())];
            let date_line = match v.date {
                Some(d) => seq![
                    seg(
                        "Date: "@ + date_text(d) + " ("@ + days_text(
                            day_distance(
                                d.year as int,
                                d.month as int,
                                d.day as int,
                                today.year as int,
                                today.month as int,
                                today.day as int,
                            ),
                        ) + " days from now)"@,
                        Color::Default,
                        plain_style(),
                    ),
                ],
                None => seq![seg("Date: None"@, Color::Default, plain_style())],
            };
            let name_line = seq![seg("Name: "@ + v.name, Color::Default, plain_style())];
            let head = seq![first, date_line, name_line];
            if show_children {
                match overview_forest(v.items, v.items.len() as int, Seq::empty(), today) {
                    None => None,
                    Some(rest) => Some(head + rest),
                }
            } else {
                Some(head)
            }
        },
    }
}

/// A document's heading (title, date, path), a guide line, then its item tree.
pub open spec fn document_lines(d: Document, today: Date) -> Option<Seq<Seq<SegmentView>>> {
    let title = match d.date {
        Some(x) => d.name@ + " - "@ + date_text(x) + " "@,
        None => d.name@ + " "@,
    };
    let first = seq![
        seg("╭ # "@, Color::Default, dim_style()),
        seg(title, Color::Default, plain_style()),
        seg("("@ + d.path@ + ")"@, Color::Default, dim_style()),
    ];
    let second = seq![seg("│"@, Color::Default, dim_style())];
    match forest_lines(items_view(d.items@), d.items@.len() as int, Seq::empty(), today) {
        None => None,
        Some(rest) => Some(seq![first, second] + rest),
    }
}

impl Document {
    /// The document's heading and its items as a tree, with priorities raised by urgency.
    pub fn format(&self, today: &Date) -> (r: Result<OutputBuffer, Error>)
        requires
            today.wf(),
            self.date matches Some(d) ==> d.wf(),
            crate::item::dates_ok(items_view(self.items@)),
        ensures
            agrees_buffer(r, document_lines(*self, *today)),
    {
        let mut first_line = OutputLine::new();
        add_str(&mut first_line, "╭ # ", Color::Default, dim());
        let mut title = crate::text::chars_of(self.name.as_str());
        match &self.date {
            Some(d) => {
                append_str(&mut title, " - ");
                append_str(&mut title, d.display().as_str());
                append_str(&mut title, " ");
            },
            None => {
                append_str(&mut title, " ");
            },
        }
        add_text(&mut first_line, &title, Color::Default, Style::normal());
        let mut path = crate::text::chars_of("(");
        append_str(&mut path, self.path.as_str());
        append_str(&mut path, ")");
        add_text(&mut first_line, &path, Color::Default, dim());
        let mut second = OutputLine::new();
        add_str(&mut second, "│", Color::Default, dim());
        let mut out = OutputBuffer::new();
        let ghost l1 = line_view(first_line);
        let ghost l2 = line_view(second);
        assert(l1 =~= seq![
            seg("╭ # "@, Color::Default, dim_style()),
            seg(title@, Color::Default, plain_style()),
            seg(path@, Color::Default, dim_style()),
        ]);
        assert(l2 =~= seq![seg("│"@, Color::Default, dim_style())]);
        push_line(&mut out, first_line);
        push_line(&mut out, second);
        assert(buffer_view(out) =~= seq![l1, l2]);
        let none: Vec<bool> = Vec::new();
        let rest = format_forest(&self.items, true, &none, today, Ghost(heights(items_view(self.items@))))?;
        push_all(&mut out, rest);
        Ok(out)
    }
}

/// The items as the full tree below the guides in `lines`.
pub fn format_list(items: &Vec<Item>, lines: Vec<bool>, today: &Date) -> (r: Result<OutputBuffer, Error>)
    requires
        today.wf(),
        crate::item::dates_ok(items_view(items@)),
    ensures
        agrees_buffer(r, forest_lines(items_view(items@), items@.len() as int, lines@, *today)),
{
    format_forest(items, true, &lines, today, Ghost(heights(items_view(items@))))
}

/// The items in the overview, below the guides in `lines`.
pub fn format_list_overview(items: &Vec<Item>, lines: Vec<bool>, today: &Date) -> (r: Result<
    OutputBuffer,
    Error,
>)
    requires
        today.wf(),
        crate::item::dates_ok(items_view(items@)),
    ensures
        agrees_buffer(r, overview_forest(items_view(items@), items@.len() as int, lines@, *today)),
{
    format_forest(items, false, &lines, today, Ghost(heights(items_view(items@))))
}

} // verus!
