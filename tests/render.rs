use todo_rs::date::Date;
use todo_rs::document::Document;
use todo_rs::item::{dates_valid, Item};
use todo_rs::list::{priority_order, TodoList};
use todo_rs::output::{Color, OutputBuffer, OutputLine, OutputSegment, Render, RenderFormat, Style};

fn today() -> Date {
    Date::new(19, 10, 2026).unwrap()
}

fn item(name: &str, completed: bool, priority: i64) -> Item {
    Item { completed, archived: false, priority, date: None, name: name.to_string(), items: vec![] }
}

#[test]
fn styles_render() {
    let mut s = Style::new();
    s.dim().strikethrough();
    assert_eq!(s.render(&RenderFormat::ANSI), "\u{1b}[2m\u{1b}[9m");
    assert_eq!(Style::normal().render(&RenderFormat::ANSI), "\u{1b}[0m");
    assert_eq!(s.render(&RenderFormat::HtmlClass), "dim strikethrough ");
    assert_eq!(s.render(&RenderFormat::HTML), "filter: brightness(0.5);text-decoration: line-through;");
    assert_eq!(s.render(&RenderFormat::Plain), "");
    let mut all = Style::new();
    all.bright().italic().underline().blink().inverse().hidden();
    assert_eq!(all.render(&RenderFormat::ANSI), "\u{1b}[1m\u{1b}[3m\u{1b}[4m\u{1b}[5m\u{1b}[7m\u{1b}[8m");
}

#[test]
fn colors_render() {
    assert_eq!(Color::Red.render(&RenderFormat::ANSI), "\u{1b}[31m");
    assert_eq!(Color::Default.render(&RenderFormat::ANSI), "\u{1b}[39m");
    assert_eq!(Color::Cyan.render(&RenderFormat::HTML), "color:cyan;");
    assert_eq!(Color::Default.render(&RenderFormat::HTML), "color:currentColor;");
    assert_eq!(Color::Blue.render(&RenderFormat::HtmlClass), "blue");
    assert_eq!(Color::Green.render(&RenderFormat::Pango), "foreground=\"green\" ");
    assert_eq!(Color::Green.render(&RenderFormat::Plain), "");
}

#[test]
fn segments_escape_markup() {
    let seg = OutputSegment::new("a<b & 'c'", Color::Red, Style::normal());
    assert_eq!(
        seg.clone().render(&RenderFormat::HTML),
        "<span style=\"color:red;\">a&lt;b &amp; &#39;c&#39;</span>"
    );
    assert_eq!(seg.clone().render(&RenderFormat::Plain), "a<b & 'c'");
    assert_eq!(seg.render(&RenderFormat::ANSI), "\u{1b}[0m\u{1b}[31ma<b & 'c'\u{1b}[0m\u{1b}[39m");
}

#[test]
fn buffers_join_lines() {
    let mut a = OutputLine::new();
    a.add(OutputSegment::new("x", Color::Default, Style::normal()));
    a.add(OutputSegment::new("y", Color::Default, Style::normal()));
    let mut b = OutputLine::new();
    b.add(OutputSegment::new("z", Color::Default, Style::normal()));
    let mut buffer = OutputBuffer::new();
    buffer.add(a);
    let mut more = OutputBuffer::new();
    more.add(b);
    buffer.append(more);
    assert_eq!(buffer.clone().render(&RenderFormat::Plain), "xy\nz");
    assert_eq!(OutputLine::newline(&RenderFormat::HTML), "<br>");
    assert_eq!(OutputBuffer::new().render(&RenderFormat::Plain), "");
}

#[test]
fn item_tree_format() {
    let mut parent = item("Parent", false, 2);
    parent.items.push(item("Child", true, 0));
    let out = parent.format(true, vec![false], &today()).unwrap();
    assert_eq!(out.render(&RenderFormat::Plain), "│ ╰ □ 2 Parent\n│   ╰ ▣ 0 Child");
}

#[test]
fn urgency_raises_priority() {
    let mut soon = item("Soon", false, 1);
    soon.date = Some(Date::new(21, 10, 2026).unwrap());
    assert_eq!(soon.urgency(&today()).unwrap(), Some(5));
    let out = soon.format(false, vec![], &today()).unwrap();
    assert_eq!(out.render(&RenderFormat::Plain), "├ □ 6 (2 days) Soon");
    let mut later = item("Later", false, 1);
    later.date = Some(Date::new(1, 12, 2026).unwrap());
    assert_eq!(later.urgency(&today()).unwrap(), None);
    let out = later.format(true, vec![], &today()).unwrap();
    assert_eq!(out.render(&RenderFormat::Plain), "╰ □ 1 (1-Dec-2026) Later");
    let mut tomorrow = item("Tomorrow", false, 0);
    tomorrow.date = Some(Date::new(20, 10, 2026).unwrap());
    let out = tomorrow.format(true, vec![], &today()).unwrap();
    assert_eq!(out.render(&RenderFormat::Plain), "╰ □ 6 (1 day) Tomorrow");
    assert_eq!(item("None", false, 0).urgency(&today()).unwrap(), None);
}

#[test]
fn item_detail_and_overview() {
    let mut it = item("Task", false, 3);
    it.date = Some(Date::new(1, 12, 2026).unwrap());
    it.items.push(item("Sub", true, 0));
    let detail = it.format_detail(true, &today()).unwrap();
    assert_eq!(
        detail.render(&RenderFormat::Plain),
        "Priority: 3\nDate: 1-Dec-2026 (43 days days from now)\nName: Task\n╰ ▣ Sub"
    );
    let mut gone = item("Gone", true, 0);
    gone.archived = true;
    let overview = gone.format_overview(false, true, vec![true], &today()).unwrap();
    assert_eq!(overview.render(&RenderFormat::Plain), "  ╰ \u{24d0}  Gone");
}

#[test]
fn document_format() {
    let text = "# Home\n# date 7-Mar-2026\n\n- [ ] A\n- [ ] B\n";
    let doc = Document::from(text.to_string(), "/h".to_string(), today()).unwrap();
    let out = doc.format(&today()).unwrap();
    assert_eq!(out.render(&RenderFormat::Plain), "╭ # Home - 7-Mar-2026 (/h)\n│\n├ □ 0 A\n╰ □ 0 B");
    let list = doc.items.format_overview(vec![], &today()).unwrap();
    assert_eq!(list.render(&RenderFormat::Plain), "├ □ A\n╰ □ B");
}

#[test]
fn priority_colors() {
    let out = item("Hot", false, 6).format(true, vec![], &today()).unwrap();
    assert_eq!(out.render(&RenderFormat::HtmlClass), "<span class=\"dim \">╰ </span><span class=\"red\">□ 6 Hot</span>");
    let cold = item("Cold", false, -7).format(true, vec![], &today()).unwrap();
    assert_eq!(cold.render(&RenderFormat::HtmlClass), "<span class=\"dim \">╰ </span><span class=\"green\">□ -7 Cold</span>");
}

#[test]
fn ordering_by_priority() {
    assert_eq!(priority_order(&vec![1, 5, 3, 5, -2]), vec![1, 3, 2, 0, 4]);
    assert_eq!(priority_order(&vec![]), Vec::<usize>::new());
}

#[test]
fn date_checks() {
    let mut bad = item("Bad", false, 0);
    bad.date = Some(Date { day: 31, month: 2, year: 2026 });
    let mut top = item("Top", false, 0);
    top.items.push(bad);
    assert!(!dates_valid(&vec![top]));
    let mut good = item("Good", false, 0);
    good.date = Some(Date::new(28, 2, 2026).unwrap());
    assert!(dates_valid(&vec![good]));
}
