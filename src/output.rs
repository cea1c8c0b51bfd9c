//! Styled text for display, rendered as plain text, ANSI escapes, HTML or Pango markup.
use vstd::prelude::*;

use crate::text::{append_str, chars_of, string_from_chars};

verus! {

#[derive(Debug, Clone, Copy, PartialEq, Eq, Structural)]
pub enum RenderFormat {
    Plain,
    ANSI,
    HTML,
    HtmlClass,
    Pango,
}

/// Something that renders to text in a given format.
pub trait Render: Sized {
    spec fn rendered(&self, format: RenderFormat) -> Seq<char>;

    fn render(self, format: &RenderFormat) -> (r: String)
        ensures
            r@ == self.rendered(*format),
    ;
}

#[derive(Debug, Clone, Copy, PartialEq, Eq, Structural)]
pub enum Color {
    Black,
    Red,
    Green,
    Yellow,
    Blue,
    Magenta,
    Cyan,
    White,
    Default,
}

pub open spec fn color_name(c: Color) -> Seq<char> {
    match c {
        Color::Black => "black"@,
        Color::Red => "red"@,
        Color::Green => "green"@,
        Color::Yellow => "yellow"@,
        Color::Blue => "blue"@,
        Color::Magenta => "magenta"@,
        Color::Cyan => "cyan"@,
        Color::White => "white"@,
        Color::Default => ""@,
    }
}

pub open spec fn ansi_color(c: Color) -> Seq<char> {
    match c {
        Color::Black => "\u{1b}[30m"@,
        Color::Red => "\u{1b}[31m"@,
        Color::Green => "\u{1b}[32m"@,
        Color::Yellow => "\u{1b}[33m"@,
        Color::Blue => "\u{1b}[34m"@,
        Color::Magenta => "\u{1b}[35m"@,
        Color::Cyan => "\u{1b}[36m"@,
        Color::White => "\u{1b}[37m"@,
        Color::Default => "\u{1b}[39m"@,
    }
}

/// The color's part of a rendered segment.
pub open spec fn color_text(c: Color, f: RenderFormat) -> Seq<char> {
    match f {
        RenderFormat::Plain => Seq::empty(),
        RenderFormat::ANSI => ansi_color(c),
        RenderFormat::HTML => if c == Color::Default {
            "color:currentColor;"@
        } else {
            "color:"@ + color_name(c) + ";"@
        },
        RenderFormat::HtmlClass => color_name(c),
        RenderFormat::Pango => if c == Color::Default {
            Seq::empty()
        } else {
            "foreground=\""@ + color_name(c) + "\" "@
        },
    }
}

fn color_name_of(c: Color) -> (r: &'static str)
    ensures
        r@ == color_name(c),
{
    match c {
        Color::Black => "black",
        Color::Red => "red",
        Color::Green => "green",
        Color::Yellow => "yellow",
        Color::Blue => "blue",
        Color::Magenta => "magenta",
        Color::Cyan => "cyan",
        Color::White => "white",
        Color::Default => "",
    }
}

impl Render for Color {
    open spec fn rendered(&self, format: RenderFormat) -> Seq<char> {
        color_text(*self, format)
    }

    fn render(self, format: &RenderFormat) -> (r: String) {
        match format {
            RenderFormat::Plain => String::new(),
            RenderFormat::ANSI => String::from_str(
                match self {
                    Color::Black => "\u{1b}[30m",
                    Color::Red => "\u{1b}[31m",
                    Color::Green => "\u{1b}[32m",
                    Color::Yellow => "\u{1b}[33m",
                    Color::Blue => "\u{1b}[34m",
                    Color::Magenta => "\u{1b}[35m",
                    Color::Cyan => "\u{1b}[36m",
                    Color::White => "\u{1b}[37m",
                    Color::Default => "\u{1b}[39m",
                },
            ),
            RenderFormat::HTML => if self == Color::Default {
                String::from_str("color:currentColor;")
            } else {
                let s = String::from_str("color:");
                let s = s.concat(color_name_of(self));
                s.concat(";")
            },
            RenderFormat::HtmlClass => String::from_str(color_name_of(self)),
            RenderFormat::Pango => if self == Color::Default {
                String::new()
            } else {
                let s = String::from_str("foreground=\"");
                let s = s.concat(color_name_of(self));
                s.concat("\" ")
            },
        }
    }
}

/// Text attributes of a segment.
#[derive(Debug, Clone, Copy, PartialEq, Eq, Structural)]
pub struct Style {
    pub bright: bool,
    pub dim: bool,
    pub italic: bool,
    pub underline: bool,
    pub blink: bool,
    pub inverse: bool,
    pub hidden: bool,
    pub strikethrough: bool,
}

pub open spec fn plain_style() -> Style {
    Style {
        bright: false,
        dim: false,
        italic: false,
        underline: false,
        blink: false,
        inverse: false,
        hidden: false,
        strikethrough: false,
    }
}

pub open spec fn when(b: bool, s: Seq<char>) -> Seq<char> {
    if b {
        s
    } else {
        Seq::empty()
    }
}

/// The style's part of a rendered segment, one piece per attribute that is set.
pub open spec fn style_text(s: Style, f: RenderFormat) -> Seq<char> {
    match f {
        RenderFormat::Plain => Seq::empty(),
        RenderFormat::ANSI => if s == plain_style() {
            "\u{1b}[0m"@
        } else {
            when(s.bright, "\u{1b}[1m"@) + when(s.dim, "\u{1b}[2m"@) + when(s.italic, "\u{1b}[3m"@)
                + when(s.underline, "\u{1b}[4m"@) + when(s.blink, "\u{1b}[5m"@) + when(
                s.inverse,
                "\u{1b}[7m"@,
            ) + when(s.hidden, "\u{1b}[8m"@) + when(s.strikethrough, "\u{1b}[9m"@)
        },
        RenderFormat::HTML => when(s.bright, "filter: brightness(1.5);"@) + when(
            s.dim,
            "filter: brightness(0.5);"@,
        ) + when(s.italic, "font-style: italic;"@) + when(
            s.underline,
            "text-decoration: underline;"@,
        ) + when(s.blink, "text-decoration: blink;"@) + when(s.inverse, "filter: invert(1);"@)
            + when(s.hidden, "opacity: 0.2;"@) + when(
            s.strikethrough,
            "text-decoration: line-through;"@,
        ),
        RenderFormat::HtmlClass => when(s.bright, "bright "@) + when(s.dim, "dim "@) + when(
            s.italic,
            "italic "@,
        ) + when(s.underline, "underline "@) + when(s.blink, "blink "@) + when(
            s.inverse,
            "inverse "@,
        ) + when(s.hidden, "hidden "@) + when(s.strikethrough, "strikethrough "@),
        RenderFormat::Pango => when(s.bright, "weight=\"bold\" "@) + when(s.dim, "alpha=\"50%\" "@)
            + when(s.italic, "style=\"italic\" "@) + when(s.underline, "underline=\"single\" "@)
            + when(s.inverse, "bgcolor=\"white\" "@) + when(s.hidden, "alpha=\"1%\" "@) + when(
            s.strikethrough,
            "strikethrough=\"true\" "@,
        ),
    }
}

fn push_when(out: &mut String, b: bool, s: &str)
    ensures
        final(out)@ == old(out)@ + when(b, s@),
{
    if b {
        out.append(s);
    } else {
        assert(old(out)@ + Seq::<char>::empty() == old(out)@);
    }
}

impl Style {
    pub fn new() -> (r: Style)
        ensures
            r == plain_style(),
    {
        Style {
            bright: false,
            dim: false,
            italic: false,
            underline: false,
            blink: false,
            inverse: false,
            hidden: false,
            strikethrough: false,
        }
    }

    pub fn normal() -> (r: Style)
        ensures
            r == plain_style(),
    {
        Style::new()
    }

    pub fn bright(&mut self) -> (r: &mut Style)
        ensures
            *r == (Style { bright: true, ..*old(self) }),
            *final(self) == *final(r),
    {
        self.bright = true;
        self
    }

    pub fn dim(&mut self) -> (r: &mut Style)
        ensures
            *r == (Style { dim: true, ..*old(self) }),
            *final(self) == *final(r),
    {
        self.dim = true;
        self
    }

    pub fn italic(&mut self) -> (r: &mut Style)
        ensures
            *r == (Style { italic: true, ..*old(self) }),
            *final(self) == *final(r),
    {
        self.italic = true;
        self
    }

    pub fn underline(&mut self) -> (r: &mut Style)
        ensures
            *r == (Style { underline: true, ..*old(self) }),
            *final(self) == *final(r),
    {
        self.underline = true;
        self
    }

    pub fn blink(&mut self) -> (r: &mut Style)
        ensures
            *r == (Style { blink: true, ..*old(self) }),
            *final(self) == *final(r),
    {
        self.blink = true;
        self
    }

    pub fn inverse(&mut self) -> (r: &mut Style)
        ensures
            *r == (Style { inverse: true, ..*old(self) }),
            *final(self) == *final(r),
    {
        self.inverse = true;
        self
    }

    pub fn hidden(&mut self) -> (r: &mut Style)
        ensures
            *r == (Style { hidden: true, ..*old(self) }),
            *final(self) == *final(r),
    {
        self.hidden = true;
        self
    }

    pub fn strikethrough(&mut self) -> (r: &mut Style)
        ensures
            *r == (Style { strikethrough: true, ..*old(self) }),
            *final(self) == *final(r),
    {
        self.strikethrough = true;
        self
    }
}

impl Render for Style {
    open spec fn rendered(&self, format: RenderFormat) -> Seq<char> {
        style_text(*self, format)
    }

    fn render(self, format: &RenderFormat) -> (r: String) {
        let mut out = String::new();
        match format {
            RenderFormat::Plain => {},
            RenderFormat::ANSI => {
                if self == Style::new() {
                    return String::from_str("\u{1b}[0m");
                }
                push_when(&mut out, self.bright, "\u{1b}[1m");
                push_when(&mut out, self.dim, "\u{1b}[2m");
                push_when(&mut out, self.italic, "\u{1b}[3m");
                push_when(&mut out, self.underline, "\u{1b}[4m");
                push_when(&mut out, self.blink, "\u{1b}[5m");
                push_when(&mut out, self.inverse, "\u{1b}[7m");
                push_when(&mut out, self.hidden, "\u{1b}[8m");
                push_when(&mut out, self.strikethrough, "\u{1b}[9m");
            },
            RenderFormat::HTML => {
                push_when(&mut out, self.bright, "filter: brightness(1.5);");
                push_when(&mut out, self.dim, "filter: brightness(0.5);");
                push_when(&mut out, self.italic, "font-style: italic;");
                push_when(&mut out, self.underline, "text-decoration: underline;");
                push_when(&mut out, self.blink, "text-decoration: blink;");
                push_when(&mut out, self.inverse, "filter: invert(1);");
                push_when(&mut out, self.hidden, "opacity: 0.2;");
                push_when(&mut out, self.strikethrough, "text-decoration: line-through;");
            },
            RenderFormat::HtmlClass => {
                push_when(&mut out, self.bright, "bright ");
                push_when(&mut out, self.dim, "dim ");
                push_when(&mut out, self.italic, "italic ");
                push_when(&mut out, self.underline, "underline ");
                push_when(&mut out, self.blink, "blink ");
                push_when(&mut out, self.inverse, "inverse ");
                push_when(&mut out, self.hidden, "hidden ");
                push_when(&mut out, self.strikethrough, "strikethrough ");
            },
            RenderFormat::Pango => {
                push_when(&mut out, self.bright, "weight=\"bold\" ");
                push_when(&mut out, self.dim, "alpha=\"50%\" ");
                push_when(&mut out, self.italic, "style=\"italic\" ");
                push_when(&mut out, self.underline, "underline=\"single\" ");
                push_when(&mut out, self.inverse, "bgcolor=\"white\" ");
                push_when(&mut out, self.hidden, "alpha=\"1%\" ");
                push_when(&mut out, self.strikethrough, "strikethrough=\"true\" ");
            },
        }
        assert(out@ =~= style_text(self, *format));
        out
    }
}

pub open spec fn escape_char(c: char) -> Seq<char> {
    if c == '&' {
        "&amp;"@
    } else if c == '<' {
        "&lt;"@
    } else if c == '>' {
        "&gt;"@
    } else if c == '"' {
        "&quot;"@
    } else if c == '\'' {
        "&#39;"@
    } else {
        seq![c]
    }
}

/// Markup characters replaced by entities.
pub open spec fn escaped(s: Seq<char>) -> Seq<char>
    decreases s.len(),
{
    if s.len() == 0 {
        s
    } else {
        escaped(s.drop_last()) + escape_char(s.last())
    }
}

pub open spec fn is_markup(f: RenderFormat) -> bool {
    f == RenderFormat::HTML || f == RenderFormat::HtmlClass || f == RenderFormat::Pango
}

/// A run of text with one color and style.
#[derive(Debug, Clone)]
pub struct OutputSegment {
    pub color: Color,
    pub style: Style,
    pub content: String,
}

pub open spec fn segment_text(s: OutputSegment, f: RenderFormat) -> Seq<char> {
    let content = if is_markup(f) {
        escaped(s.content@)
    } else {
        s.content@
    };
    match f {
        RenderFormat::ANSI | RenderFormat::Plain => style_text(s.style, f) + color_text(s.color, f)
            + content + style_text(plain_style(), f) + color_text(Color::Default, f),
        RenderFormat::HTML => "<span style=\""@ + style_text(s.style, f) + color_text(s.color, f)
            + "\">"@ + content + "</span>"@,
        RenderFormat::HtmlClass => "<span class=\""@ + style_text(s.style, f) + color_text(
            s.color,
            f,
        ) + "\">"@ + content + "</span>"@,
        RenderFormat::Pango => "<span "@ + style_text(s.style, f) + color_text(s.color, f) + ">"@
            + content + "</span>"@,
    }
}

impl OutputSegment {
    pub fn new(content: &str, color: Color, style: Style) -> (r: OutputSegment)
        ensures
            r.content@ == content@,
            r.color == color,
            r.style == style,
    {
        OutputSegment { content: String::from_str(content), color, style }
    }

    fn escape(content: &String, format: &RenderFormat) -> (r: String)
        ensures
            r@ == (if is_markup(*format) {
                escaped(content@)
            } else {
                content@
            }),
    {
        match format {
            RenderFormat::Pango | RenderFormat::HTML | RenderFormat::HtmlClass => {
                let cs = chars_of(content.as_str());
                let mut out: Vec<char> = Vec::new();
                let mut i: usize = 0;
                while i < cs.len()
                    invariant
                        i <= cs@.len(),
                        cs@ == content@,
                        out@ == escaped(cs@.subrange(0, i as int)),
                    decreases cs@.len() - i,
                {
                    let c = cs[i];
                    if c == '&' {
                        append_str(&mut out, "&amp;");
                    } else if c == '<' {
                        append_str(&mut out, "&lt;");
                    } else if c == '>' {
                        append_str(&mut out, "&gt;");
                    } else if c == '"' {
                        append_str(&mut out, "&quot;");
                    } else if c == '\'' {
                        append_str(&mut out, "&#39;");
                    } else {
                        out.push(c);
                    }
                    proof {
                        assert(cs@.subrange(0, i + 1).drop_last() == cs@.subrange(0, i as int));
                    }
                    i += 1;
                }
                assert(cs@.subrange(0, cs@.len() as int) == cs@);
                string_from_chars(&out)
            },
            _ => content.clone(),
        }
    }
}

impl Render for OutputSegment {
    open spec fn rendered(&self, format: RenderFormat) -> Seq<char> {
        segment_text(*self, format)
    }

    fn render(self, format: &RenderFormat) -> (r: String) {
        let style = self.style.render(format);
        let color = self.color.render(format);
        let content = OutputSegment::escape(&self.content, format);
        match format {
            RenderFormat::ANSI | RenderFormat::Plain => {
                let nostyle = Style::normal().render(format);
                let nocolor = Color::Default.render(format);
                let r = style.concat(color.as_str());
                let r = r.concat(content.as_str());
                let r = r.concat(nostyle.as_str());
                r.concat(nocolor.as_str())
            },
            RenderFormat::HTML => {
                let r = String::from_str("<span style=\"");
                let r = r.concat(style.as_str());
                let r = r.concat(color.as_str());
                let r = r.concat("\">");
                let r = r.concat(content.as_str());
                r.concat("</span>")
            },
            RenderFormat::HtmlClass => {
                let r = String::from_str("<span class=\"");
                let r = r.concat(style.as_str());
                let r = r.concat(color.as_str());
                let r = r.concat("\">");
                let r = r.concat(content.as_str());
                r.concat("</span>")
            },
            RenderFormat::Pango => {
                let r = String::from_str("<span ");
                let r = r.concat(style.as_str());
                let r = r.concat(color.as_str());
                let r = r.concat(">");
                let r = r.concat(content.as_str());
                r.concat("</span>")
            },
        }
    }
}

/// One line of segments.
#[derive(Debug, Clone)]
pub struct OutputLine {
    pub content: Vec<OutputSegment>,
}

pub open spec fn segments_text(s: Seq<OutputSegment>, f: RenderFormat) -> Seq<char>
    decreases s.len(),
{
    if s.len() == 0 {
        Seq::empty()
    } else {
        segments_text(s.drop_last(), f) + segment_text(s.last(), f)
    }
}

pub open spec fn newline_text(f: RenderFormat) -> Seq<char> {
    match f {
        RenderFormat::HTML | RenderFormat::HtmlClass => "<br>"@,
        _ => "\n"@,
    }
}

impl OutputLine {
    pub fn new() -> (r: OutputLine)
        ensures
            r.content@ == Seq::<OutputSegment>::empty(),
    {
        OutputLine { content: Vec::new() }
    }

    pub fn add(&mut self, segment: OutputSegment) -> (r: &mut OutputLine)
        ensures
            r.content@ == old(self).content@.push(segment),
            *final(self) == *final(r),
    {
        self.content.push(segment);
        self
    }

    pub fn newline(format: &RenderFormat) -> (r: &'static str)
        ensures
            r@ == newline_text(*format),
    {
        match format {
            RenderFormat::Plain | RenderFormat::ANSI | RenderFormat::Pango => "\n",
            RenderFormat::HTML | RenderFormat::HtmlClass => "<br>",
        }
    }
}

impl Render for OutputLine {
    open spec fn rendered(&self, format: RenderFormat) -> Seq<char> {
        segments_text(self.content@, format)
    }

    fn render(self, format: &RenderFormat) -> (r: String) {
        let mut out = String::new();
        let mut rest = self.content;
        let ghost all = rest@;
        let ghost mut k: int = 0;
        while rest.len() > 0
            invariant
                0 <= k <= all.len(),
                rest@ == all.subrange(k, all.len() as int),
                out@ == segments_text(all.subrange(0, k), *format),
            decreases rest@.len(),
        {
            let seg = rest.remove(0);
            let t = seg.render(format);
            out.append(t.as_str());
            proof {
                assert(all.subrange(0, k + 1).drop_last() == all.subrange(0, k));
                k = k + 1;
            }
        }
        assert(all.subrange(0, k) == all);
        out
    }
}

/// Lines of styled text.
#[derive(Debug, Clone)]
pub struct OutputBuffer {
    pub lines: Vec<OutputLine>,
}

/// Rendered lines, with the format's line break between each two.
pub open spec fn lines_text(s: Seq<OutputLine>, f: RenderFormat) -> Seq<char>
    decreases s.len(),
{
    if s.len() == 0 {
        Seq::empty()
    } else if s.len() == 1 {
        segments_text(s[0].content@, f)
    } else {
        lines_text(s.drop_last(), f) + newline_text(f) + segments_text(s.last().content@, f)
    }
}

impl OutputBuffer {
    pub fn new() -> (r: OutputBuffer)
        ensures
            r.lines@ == Seq::<OutputLine>::empty(),
    {
        OutputBuffer { lines: Vec::new() }
    }

    pub fn add(&mut self, line: OutputLine) -> (r: &mut OutputBuffer)
        ensures
            r.lines@ == old(self).lines@.push(line),
            *final(self) == *final(r),
    {
        self.lines.push(line);
        self
    }

    pub fn append(&mut self, buffer: OutputBuffer) -> (r: &mut OutputBuffer)
        ensures
            r.lines@ == old(self).lines@ + buffer.lines@,
            *final(self) == *final(r),
    {
        let mut rest = buffer.lines;
        let ghost all = rest@;
        let ghost start = self.lines@;
        let ghost mut k: int = 0;
        while rest.len() > 0
            invariant
                0 <= k <= all.len(),
                rest@ == all.subrange(k, all.len() as int),
                self.lines@ == start + all.subrange(0, k),
            decreases rest@.len(),
        {
            let line = rest.remove(0);
            self.lines.push(line);
            proof {
                assert(start + all.subrange(0, k + 1) =~= (start + all.subrange(0, k)).push(all[k]));
                k = k + 1;
            }
        }
        assert(all.subrange(0, k) == all);
        self
    }
}

impl Render for OutputBuffer {
    open spec fn rendered(&self, format: RenderFormat) -> Seq<char> {
        lines_text(self.lines@, format)
    }

    fn render(self, format: &RenderFormat) -> (r: String) {
        let mut out = String::new();
        let mut rest = self.lines;
        let ghost all = rest@;
        let ghost mut k: int = 0;
        let mut first = true;
        while rest.len() > 0
            invariant
                0 <= k <= all.len(),
                first == (k == 0),
                rest@ == all.subrange(k, all.len() as int),
                out@ == lines_text(all.subrange(0, k), *format),
            decreases rest@.len(),
        {
            let line = rest.remove(0);
            let later = !first;
            first = false;
            if later {
                out.append(OutputLine::newline(format));
            }
            let t = line.render(format);
            out.append(t.as_str());
            proof {
                assert(all.subrange(0, k + 1).drop_last() == all.subrange(0, k));
                k = k + 1;
            }
        }
        assert(all.subrange(0, k) == all);
        out
    }
}

} // verus!
