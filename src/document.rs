//! A `.todo` document: a metadata block of `#` lines, a blank line, then the item outline.
use vstd::prelude::*;

use crate::date::{date_parse, date_text, Date};
use crate::error::{CodeComponent, Error};
use crate::item::{dates_ok, items_text, items_to_string, items_view, Item};
use crate::list::{
    good_line, lines, lines_of, no_char, parse_block, parse_list, plain_tree, saved_list, sort_tree,
};
use crate::text::{
    append, append_str, chars_of, eq_chars, int_chars, int_of, int_text, join, join_of, parse_int,
    slice_of, split, split_of, string_from_chars, views,
};

verus! {

/// One `.todo` file: its title and metadata, and its items.
#[derive(Debug)]
pub struct Document {
    pub name: String,
    pub path: String,
    pub priority: i32,
    pub date: Option<Date>,
    pub items: Vec<Item>,
    pub archived: bool,
}

/// What the metadata lines read so far give: title, priority, date, archived flag, how many
/// metadata lines there were, and whether the blank line that ends the block has been reached.
pub struct Meta {
    pub name: Seq<char>,
    pub priority: int,
    pub date: Option<Date>,
    pub archived: bool,
    pub count: int,
    pub done: bool,
}

pub open spec fn initial_meta() -> Meta {
    Meta {
        name: "Unnamed Todo List"@,
        priority: 0,
        date: None,
        archived: false,
        count: 0,
        done: false,
    }
}

/// One line's effect on the metadata: the first blank line ends the block, and nothing after
/// it is metadata; before it, lines that do not start with `#` are left alone, the first line
/// is the title, and others are `# priority <int>`, `# date <text>` or `# archived`.
pub open spec fn meta_step(m: Meta, i: int, line: Seq<char>, today: Date) -> Option<Meta> {
    if m.done {
        Some(m)
    } else if line.len() == 0 {
        Some(Meta { done: true, ..m })
    } else if !(line[0] == '#') {
        Some(m)
    } else if i == 0 {
        if line.len() < 2 {
            None
        } else {
            Some(Meta { name: line.subrange(2, line.len() as int), count: m.count + 1, ..m })
        }
    } else {
        let m2 = Meta { count: m.count + 1, ..m };
        match property_of(line, today) {
            Some(Property::Priority(v)) => Some(Meta { priority: v as int, ..m2 }),
            Some(Property::Date(d)) => Some(Meta { date: d, ..m2 }),
            Some(Property::Archived) => Some(Meta { archived: true, ..m2 }),
            None => None,
        }
    }
}

/// A metadata property line's meaning.
pub enum Property {
    Priority(i32),
    Date(Option<Date>),
    Archived,
}

/// The property that a `# <name> <value...>` line sets, if its name is known and its value
/// reads.
pub open spec fn property_of(line: Seq<char>, today: Date) -> Option<Property> {
    let parts = split(line, ' ').drop_first();
    if parts.len() == 0 {
        None
    } else {
        let rest = join(parts.drop_first(), ' ');
        if parts[0] == "priority"@ {
            match int_of(rest, true, i32::MIN as int, i32::MAX as int) {
                Some(v) => Some(Property::Priority(v as i32)),
                None => None,
            }
        } else if parts[0] == "date"@ {
            Some(Property::Date(date_parse(rest, today)))
        } else if parts[0] == "archived"@ {
            Some(Property::Archived)
        } else {
            None
        }
    }
}

fn read_property(line: &Vec<char>, today: &Date) -> (r: Result<Property, Error>)
    requires
        today.wf(),
    ensures
        match r {
            Ok(p) => property_of(line@, *today) == Some(p),
            Err(_) => property_of(line@, *today) is None,
        },
        r matches Ok(Property::Date(Some(d))) ==> d.wf(),
{
    let words = split_of(line, ' ');
    if words.len() < 2 {
        return Err(Error::new(CodeComponent::DocumentParser, "Malformed metadata line."));
    }
    let rest = join_of(&words, 2, ' ');
    proof {
        let parts = split(line@, ' ').drop_first();
        assert(views(words@).subrange(2, words@.len() as int) =~= parts.drop_first());
        assert(words@[1]@ == parts[0]);
    }
    if eq_chars(&words[1], &chars_of("priority")) {
        match parse_int(&rest, true, -2147483648, 2147483647) {
            Some(v) => Ok(Property::Priority(v as i32)),
            None => Err(Error::new(CodeComponent::DocumentParser, "Could not read the priority.")),
        }
    } else if eq_chars(&words[1], &chars_of("date")) {
        let t = string_from_chars(&rest);
        match Date::parse(t.as_str(), *today) {
            Ok(d) => Ok(Property::Date(Some(d))),
            Err(_) => Ok(Property::Date(None)),
        }
    } else if eq_chars(&words[1], &chars_of("archived")) {
        Ok(Property::Archived)
    } else {
        Err(Error::new(CodeComponent::DocumentParser, "Found an unknown property."))
    }
}

/// The metadata that the first `n` lines give.
pub open spec fn meta_of(ls: Seq<Seq<char>>, n: int, today: Date) -> Option<Meta>
    decreases n,
{
    if n <= 0 {
        Some(initial_meta())
    } else {
        match meta_of(ls, n - 1, today) {
            Some(m) => meta_step(m, n - 1, ls[n - 1], today),
            None => None,
        }
    }
}

/// The text of the item block: the lines after the metadata lines and one more.
pub open spec fn body_text(ls: Seq<Seq<char>>, count: int) -> Seq<char> {
    let from = if count + 1 < ls.len() {
        count + 1
    } else {
        ls.len() as int
    };
    join(ls.subrange(from, ls.len() as int), '\n')
}

/// Once a line fails to read, the metadata of any longer prefix fails too.
proof fn lemma_meta_none(ls: Seq<Seq<char>>, i: int, n: int, today: Date)
    requires
        0 <= i <= n,
        meta_of(ls, i, today) is None,
    ensures
        meta_of(ls, n, today) is None,
    decreases n - i,
{
    if i < n {
        lemma_meta_none(ls, i, n - 1, today);
    }
}

impl Document {
    /// Reads a document's text; dates in it are read against `today`.
    #[verifier::rlimit(100)]
    pub fn from(file: String, path: String, today: Date) -> (r: Result<Document, Error>)
        requires
            today.wf(),
        ensures
            match r {
                Ok(d) => meta_of(lines(file@), lines(file@).len() as int, today) matches Some(m)
                    && d.name@ == m.name && d.priority as int == m.priority && d.date == m.date
                    && d.archived == m.archived && d.path@ == path@ && parse_block(
                    lines(body_text(lines(file@), m.count)),
                    0,
                    today,
                ) == Some(items_view(d.items@)),
                Err(_) => match meta_of(lines(file@), lines(file@).len() as int, today) {
                    Some(m) => parse_block(lines(body_text(lines(file@), m.count)), 0, today) is None,
                    None => true,
                },
            },
            r matches Ok(d) ==> (d.date matches Some(x) ==> x.wf()) && dates_ok(items_view(d.items@)),
    {
        let chars = chars_of(file.as_str());
        let ls = lines_of(&chars);
        let ghost lv = lines(file@);
        let mut name = chars_of("Unnamed Todo List");
        let mut priority: i32 = 0;
        let mut date: Option<Date> = None;
        let mut archived = false;
        let mut count: usize = 0;
        let mut done = false;
        let mut i: usize = 0;
        while i < ls.len()
            invariant
                views(ls@) == lv,
                lv == lines(file@),
                i <= ls@.len(),
                count <= i,
                today.wf(),
                date matches Some(x) ==> x.wf(),
                meta_of(lv, i as int, today) == Some(
                    Meta {
                        name: name@,
                        priority: priority as int,
                        date,
                        archived,
                        count: count as int,
                        done,
                    },
                ),
            decreases ls@.len() - i,
        {
            let line = &ls[i];
            assert(line@ == lv[i as int]);
            if done {
            } else if line.len() == 0 {
                done = true;
            } else if line[0] == '#' {
                if i == 0 {
                    if line.len() < 2 {
                        proof {
                            lemma_meta_none(lv, 1, lv.len() as int, today);
                        }
                        return Err(
                            Error::new(CodeComponent::DocumentParser, "Malformed title line."),
                        );
                    }
                    name = slice_of(line, 2, line.len());
                } else {
                    match read_property(line, &today) {
                        Ok(Property::Priority(v)) => {
                            priority = v;
                        },
                        Ok(Property::Date(d)) => {
                            date = d;
                        },
                        Ok(Property::Archived) => {
                            archived = true;
                        },
                        Err(e) => {
                            proof {
                                lemma_meta_none(lv, i + 1, lv.len() as int, today);
                            }
                            return Err(
                                Error::wrap(CodeComponent::DocumentParser, "Bad metadata line.", e),
                            );
                        },
                    }
                }
                count += 1;
            }
            i += 1;
        }
        let from = if ls.len() > 0 && count < ls.len() - 1 {
            count + 1
        } else {
            ls.len()
        };
        let body = join_of(&ls, from, '\n');
        assert(views(ls@).subrange(from as int, ls@.len() as int) == lv.subrange(
            from as int,
            lv.len() as int,
        ));
        let body_string = string_from_chars(&body);
        let items = match parse_list(body_string.as_str(), today) {
            Ok(v) => v,
            Err(e) => {
                return Err(
                    Error::wrap(CodeComponent::DocumentParser, "Could not read the items.", e),
                );
            },
        };
        Ok(
            Document {
                name: string_from_chars(&name),
                path,
                priority,
                date,
                items,
                archived,
            },
        )
    }

    /// The document in its saved text form.
    pub fn to_string(&self) -> (r: String)
        requires
            self.date matches Some(d) ==> d.wf(),
            dates_ok(items_view(self.items@)),
        ensures
            r@ == document_text(*self),
    {
        let mut out: Vec<char> = chars_of("# ");
        append_str(&mut out, self.name.as_str());
        append_str(&mut out, "\n");
        if self.priority != 0 {
            append_str(&mut out, "# priority ");
            let p = int_chars(self.priority as i128);
            append(&mut out, &p);
            append_str(&mut out, "\n");
        }
        match &self.date {
            Some(d) => {
                append_str(&mut out, "# date ");
                let t = d.display();
                append_str(&mut out, t.as_str());
                append_str(&mut out, "\n");
            },
            None => {},
        }
        if self.archived {
            append_str(&mut out, "# archived\n");
        }
        append_str(&mut out, "\n");
        let body = items_to_string(&self.items);
        append_str(&mut out, body.as_str());
        assert(out@ =~= document_text(*self));
        string_from_chars(&out)
    }
}

/// The saved text: title line, the metadata lines that differ from the defaults, a blank line,
/// then the items.
pub open spec fn document_text(d: Document) -> Seq<char> {
    "# "@ + d.name@ + "\n"@ + (if d.priority != 0 {
        "# priority "@ + int_text(d.priority as int) + "\n"@
    } else {
        Seq::empty()
    }) + (match d.date {
        Some(x) => "# date "@ + date_text(x) + "\n"@,
        None => Seq::empty(),
    }) + (if d.archived {
        "# archived\n"@
    } else {
        Seq::empty()
    }) + "\n"@ + items_text(items_view(d.items@), 0)
}

/// Lines, each followed by a line break.
pub open spec fn with_breaks(ls: Seq<Seq<char>>) -> Seq<char>
    decreases ls.len(),
{
    if ls.len() == 0 {
        Seq::empty()
    } else {
        with_breaks(ls.drop_last()) + ls.last().push('\n')
    }
}

pub proof fn lemma_with_breaks_split(ls: Seq<Seq<char>>)
    requires
        forall|k: int| 0 <= k < ls.len() ==> crate::list::no_char(#[trigger] ls[k], '\n'),
    ensures
        split(with_breaks(ls), '\n') == ls.push(Seq::empty()),
        ls.len() > 0 ==> with_breaks(ls).len() > 0 && with_breaks(ls).last() == '\n',
    decreases ls.len(),
{
    if ls.len() == 0 {
        assert(ls.push(Seq::empty()) =~= seq![Seq::<char>::empty()]);
    } else {
        let l = ls.last();
        let pre = ls.drop_last();
        assert(crate::list::no_char(ls[ls.len() - 1], '\n'));
        lemma_with_breaks_split(pre);
        crate::text::lemma_split_after(l, '\n', Seq::empty());
        crate::text::lemma_split_none(Seq::<char>::empty(), '\n');
        assert(l.push('\n') + Seq::<char>::empty() == l.push('\n'));
        if pre.len() == 0 {
            assert(with_breaks(ls) =~= l.push('\n'));
            assert(ls.push(Seq::empty()) =~= seq![l] + seq![Seq::<char>::empty()]);
        } else {
            crate::text::lemma_split_concat(with_breaks(pre), '\n', l.push('\n'));
            assert(ls.push(Seq::empty()) =~= pre.push(Seq::empty()).drop_last() + (seq![l] + seq![
                Seq::<char>::empty(),
            ]));
        }
    }
}

pub proof fn lemma_with_breaks_concat(a: Seq<Seq<char>>, b: Seq<Seq<char>>)
    ensures
        with_breaks(a + b) == with_breaks(a) + with_breaks(b),
    decreases b.len(),
{
    if b.len() == 0 {
        assert(a + b == a);
        assert(with_breaks(a) + with_breaks(b) =~= with_breaks(a));
    } else {
        lemma_with_breaks_concat(a, b.drop_last());
        assert((a + b).drop_last() == a + b.drop_last());
        assert((a + b).last() == b.last());
        assert(with_breaks(a + b) =~= with_breaks(a) + with_breaks(b));
    }
}

/// Joining lines with line breaks is each but the last followed by a break, then the last.
proof fn lemma_join_breaks(ls: Seq<Seq<char>>)
    requires
        ls.len() >= 1,
    ensures
        join(ls, '\n') == with_breaks(ls.drop_last()) + ls.last(),
    decreases ls.len(),
{
    if ls.len() == 1 {
        assert(ls.drop_last() =~= Seq::<Seq<char>>::empty());
    } else {
        lemma_join_breaks(ls.drop_last());
        assert(ls.drop_last().drop_last() =~= ls.drop_last().drop_last());
        let pre = ls.drop_last();
        assert(with_breaks(pre) == with_breaks(pre.drop_last()) + pre.last().push('\n'));
        assert(join(ls, '\n') =~= with_breaks(pre) + ls.last());
    }
}

/// The lines of lines joined by breaks are those lines again.
proof fn lemma_lines_of_join(ls: Seq<Seq<char>>)
    requires
        forall|k: int|
            0 <= k < ls.len() ==> crate::list::no_char(#[trigger] ls[k], '\n') && ls[k].len() > 0
                && ls[k].last() != '\r',
    ensures
        lines(join(ls, '\n')) == ls,
{
    if ls.len() == 0 {
        crate::text::lemma_split_none(Seq::<char>::empty(), '\n');
        assert(lines(join(ls, '\n')) =~= ls);
    } else {
        lemma_join_breaks(ls);
        let pre = ls.drop_last();
        assert forall|k: int| 0 <= k < pre.len() implies crate::list::no_char(#[trigger] pre[k], '\n') by {
            assert(pre[k] == ls[k]);
        }
        lemma_with_breaks_split(pre);
        assert(crate::list::no_char(ls[ls.len() - 1], '\n'));
        crate::text::lemma_split_none(ls.last(), '\n');
        if pre.len() == 0 {
            assert(with_breaks(pre) + ls.last() =~= ls.last());
            assert(split(join(ls, '\n'), '\n') =~= ls);
        } else {
            crate::text::lemma_split_concat(with_breaks(pre), '\n', ls.last());
            assert(split(join(ls, '\n'), '\n') =~= ls);
        }
        assert(ls[ls.len() - 1].len() > 0);
        assert(lines(join(ls, '\n')) =~= ls);
    }
}

/// The metadata lines of a document's saved text, ending with the blank line.
pub open spec fn header_lines(d: Document) -> Seq<Seq<char>> {
    seq!["# "@ + d.name@] + (if d.priority != 0 {
        seq!["# priority "@ + int_text(d.priority as int)]
    } else {
        Seq::empty()
    }) + (match d.date {
        Some(x) => seq!["# date "@ + date_text(x)],
        None => Seq::empty(),
    }) + (if d.archived {
        seq!["# archived"@]
    } else {
        Seq::empty()
    }) + seq![Seq::<char>::empty()]
}

pub proof fn lemma_one_line(x: Seq<char>)
    ensures
        with_breaks(seq![x]) == x.push('\n'),
{
    assert(seq![x].drop_last() =~= Seq::<Seq<char>>::empty());
    assert(with_breaks(Seq::<Seq<char>>::empty()) == Seq::<char>::empty());
    assert(seq![x].last() == x);
    assert(with_breaks(seq![x]) == with_breaks(seq![x].drop_last()) + seq![x].last().push('\n'));
    assert(with_breaks(seq![x]) =~= x.push('\n'));
}

proof fn lemma_text_split(d: Document)
    requires
        d.date matches Some(x) ==> x.wf(),
    ensures
        document_text(d) == with_breaks(header_lines(d)) + crate::item::items_text(
            items_view(d.items@),
            0,
        ),
{
    reveal_strlit("\n");
    reveal_strlit("# archived\n");
    reveal_strlit("# archived");
    let a = seq!["# "@ + d.name@];
    let b: Seq<Seq<char>> = if d.priority != 0 {
        seq!["# priority "@ + int_text(d.priority as int)]
    } else {
        Seq::empty()
    };
    let c: Seq<Seq<char>> = match d.date {
        Some(x) => seq!["# date "@ + date_text(x)],
        None => Seq::empty(),
    };
    let e: Seq<Seq<char>> = if d.archived {
        seq!["# archived"@]
    } else {
        Seq::empty()
    };
    let f = seq![Seq::<char>::empty()];
    lemma_with_breaks_concat(a, b);
    lemma_with_breaks_concat(a + b, c);
    lemma_with_breaks_concat(a + b + c, e);
    lemma_with_breaks_concat(a + b + c + e, f);
    lemma_one_line("# "@ + d.name@);
    lemma_one_line(Seq::<char>::empty());
    if d.priority != 0 {
        lemma_one_line("# priority "@ + int_text(d.priority as int));
    } else {
        assert(with_breaks(b) == Seq::<char>::empty());
    }
    match d.date {
        Some(x) => lemma_one_line("# date "@ + date_text(x)),
        None => assert(with_breaks(c) == Seq::<char>::empty()),
    }
    if d.archived {
        lemma_one_line("# archived"@);
    } else {
        assert(with_breaks(e) == Seq::<char>::empty());
    }
    assert(document_text(d) =~= with_breaks(header_lines(d)) + crate::item::items_text(
        items_view(d.items@),
        0,
    ));
}

proof fn lemma_words(word: Seq<char>, value: Seq<char>)
    requires
        crate::list::no_char(word, ' '),
        crate::list::no_char(value, ' '),
    ensures
        split(seq!['#', ' '] + word + seq![' '] + value, ' ') == seq![seq!['#'], word, value],
{
    crate::text::lemma_split_after(word, ' ', value);
    crate::text::lemma_split_none(value, ' ');
    assert(seq!['#', ' '] + word + seq![' '] + value =~= seq!['#'].push(' ') + (word.push(' ')
        + value));
    crate::text::lemma_split_after(seq!['#'], ' ', word.push(' ') + value);
    assert(seq![seq!['#']] + (seq![word] + seq![value]) =~= seq![seq!['#'], word, value]);
}

proof fn lemma_priority_line(p: i32, today: Date)
    ensures
        property_of("# priority "@ + int_text(p as int), today) == Some(Property::Priority(p)),
{
    reveal_strlit("# priority ");
    reveal_strlit("priority");
    let t = int_text(p as int);
    crate::text::lemma_int_text(p as int);
    assert(crate::list::no_char(t, ' ')) by {
        assert forall|i: int| 0 <= i < t.len() implies t[i] != ' ' by {
            assert(t[i] == '-' || crate::text::is_digit(t[i]));
        }
    }
    lemma_words("priority"@, t);
    assert("# priority "@ + t =~= seq!['#', ' '] + "priority"@ + seq![' '] + t);
    assert(join(seq![t], ' ') == t);
    assert(seq![seq!['#'], "priority"@, t].drop_first().drop_first() =~= seq![t]);
}

proof fn lemma_date_words(t: Seq<char>, x: Date, today: Date)
    requires
        crate::list::no_char(t, ' '),
        date_parse(t, today) == Some(x),
    ensures
        property_of("# date "@ + t, today) == Some(Property::Date(Some(x))),
{
    reveal_strlit("# date ");
    reveal_strlit("date");
    reveal_strlit("priority");
    lemma_words("date"@, t);
    assert("# date "@ + t =~= seq!['#', ' '] + "date"@ + seq![' '] + t);
    assert(join(seq![t], ' ') == t);
    assert(seq![seq!['#'], "date"@, t].drop_first().drop_first() =~= seq![t]);
    assert("date"@ != "priority"@);
}

proof fn lemma_date_line(x: Date, today: Date)
    requires
        x.wf(),
        x.year >= 1000,
    ensures
        property_of("# date "@ + date_text(x), today) == Some(Property::Date(Some(x))),
{
    crate::date::lemma_date_text_shape(x);
    crate::date::lemma_display_round_trip(x, today);
    lemma_date_words(date_text(x), x, today);
}

proof fn lemma_archived_line(today: Date)
    ensures
        property_of("# archived"@, today) == Some(Property::Archived),
{
    reveal_strlit("# archived");
    reveal_strlit("archived");
    reveal_strlit("date");
    reveal_strlit("priority");
    crate::text::lemma_split_none("archived"@, ' ');
    crate::text::lemma_split_after(seq!['#'], ' ', "archived"@);
    assert("# archived"@ =~= seq!['#'].push(' ') + "archived"@);
    assert(split("# archived"@, ' ').drop_first() =~= seq!["archived"@]);
    assert("archived"@ != "priority"@);
    assert("archived"@ != "date"@);
}

/// A document title that its line gives back: no line break, and no carriage return at its end.
pub open spec fn plain_title(n: Seq<char>) -> bool {
    no_char(n, '\n') && (n.len() > 0 ==> n.last() != '\r')
}

/// A line that `lines` gives back unchanged.
pub open spec fn line_ok(l: Seq<char>) -> bool {
    no_char(l, '\n') && (l.len() > 0 ==> l.last() != '\r')
}

/// The metadata that a saved document's text gives.
pub open spec fn saved_meta(d: Document) -> Meta {
    Meta {
        name: d.name@,
        priority: d.priority as int,
        date: d.date,
        archived: d.archived,
        count: header_lines(d).len() - 1,
        done: true,
    }
}

proof fn lemma_header_ok(d: Document)
    requires
        plain_title(d.name@),
        d.date matches Some(x) ==> x.wf(),
    ensures
        forall|k: int| 0 <= k < header_lines(d).len() ==> line_ok(#[trigger] header_lines(d)[k]),
{
    reveal_strlit("# ");
    reveal_strlit("# priority ");
    reveal_strlit("# date ");
    reveal_strlit("# archived");
    let t = "# "@ + d.name@;
    lemma_no_char_concat_ok("# "@, d.name@);
    assert(line_ok(t)) by {
        if d.name@.len() > 0 {
            assert(t.last() == d.name@.last());
        }
    }
    let p = "# priority "@ + int_text(d.priority as int);
    crate::text::lemma_int_text(d.priority as int);
    assert(line_ok(p)) by {
        let q = int_text(d.priority as int);
        assert forall|i: int| 0 <= i < p.len() implies p[i] != '\n' by {
            if i >= 11 {
                assert(p[i] == q[i - 11]);
                assert(q[i - 11] == '-' || crate::text::is_digit(q[i - 11]));
            }
        }
        assert(p.last() == q.last());
    }
    match d.date {
        Some(x) => {
            let dl = "# date "@ + date_text(x);
            crate::date::lemma_date_text_line(x);
            crate::date::lemma_date_text_shape(x);
            assert(line_ok(dl)) by {
                assert forall|i: int| 0 <= i < dl.len() implies dl[i] != '\n' by {
                    if i >= 7 {
                        assert(dl[i] == date_text(x)[i - 7]);
                    }
                }
                assert(dl.last() == date_text(x).last());
            }
        },
        None => {},
    }
    assert(line_ok("# archived"@));
    assert(line_ok(Seq::<char>::empty()));
}

proof fn lemma_no_char_concat_ok(a: Seq<char>, b: Seq<char>)
    requires
        no_char(a, '\n'),
        no_char(b, '\n'),
    ensures
        no_char(a + b, '\n'),
{
    assert forall|i: int| 0 <= i < (a + b).len() implies (a + b)[i] != '\n' by {
        if i >= a.len() {
            assert((a + b)[i] == b[i - a.len()]);
        }
    }
}

proof fn lemma_meta_leaves(ls: Seq<Seq<char>>, h: int, k: int, today: Date)
    requires
        0 <= h <= k <= ls.len(),
        meta_of(ls, h, today) matches Some(m) && m.done,
    ensures
        meta_of(ls, k, today) == meta_of(ls, h, today),
    decreases k - h,
{
    if k > h {
        lemma_meta_leaves(ls, h, k - 1, today);
    }
}

/// Saving a document and reading its text back gives the same title and metadata, and the
/// same item tree with every sibling list sorted, for titles and item names that read back
/// and dates with four-digit years.
#[verifier::rlimit(100)]
pub proof fn lemma_document_round_trip(d: Document, today: Date)
    requires
        plain_title(d.name@),
        d.date matches Some(x) ==> x.wf() && x.year >= 1000,
        plain_tree(items_view(d.items@)),
    ensures
        meta_of(lines(document_text(d)), lines(document_text(d)).len() as int, today) == Some(
            saved_meta(d),
        ),
        parse_block(lines(body_text(lines(document_text(d)), saved_meta(d).count)), 0, today)
            == Some(sort_tree(items_view(d.items@))),
{
    let iv = items_view(d.items@);
    let h = header_lines(d);
    let ll = saved_list(iv, 0);
    lemma_text_split(d);
    lemma_header_ok(d);
    assert forall|k: int| 0 <= k < h.len() implies no_char(#[trigger] h[k], '\n') by {
        assert(line_ok(h[k]));
    }
    lemma_with_breaks_split(h);
    crate::list::lemma_saved_lines_read(iv);
    crate::list::lemma_saved_parse(iv, today);
    assert forall|k: int| 0 <= k < ll.len() implies no_char(#[trigger] ll[k], '\n') && ll[k].len()
        > 0 && ll[k].last() != '\r' by {
        assert(good_line(ll[k], 0));
    }
    let text = document_text(d);
    crate::text::lemma_split_concat(with_breaks(h), '\n', crate::item::items_text(iv, 0));
    assert(split(text, '\n') =~= h + ll.push(Seq::empty()));
    let ls = lines(text);
    assert forall|k: int| 0 <= k < h.len() + ll.len() implies #[trigger] ls[k] == (h + ll)[k] by {
        if k < h.len() {
            assert(line_ok(h[k]));
        } else {
            assert(good_line(ll[k - h.len()], 0));
        }
    }
    assert(ls =~= h + ll);
    // The metadata lines, one after another.
    reveal_strlit("# ");
    reveal_strlit("Unnamed Todo List");
    let title = "# "@ + d.name@;
    assert(ls[0] == title);
    assert(title.subrange(2, title.len() as int) =~= d.name@);
    let mut idx: int = 1;
    let mut m = Meta { name: d.name@, count: 1, ..initial_meta() };
    assert(meta_of(ls, 0, today) == Some(initial_meta()));
    assert(title[0] == '#' && title.len() >= 2);
    assert(meta_step(initial_meta(), 0, title, today) == Some(m));
    assert(meta_of(ls, 1, today) == Some(m));
    if d.priority != 0 {
        let line = "# priority "@ + int_text(d.priority as int);
        assert(ls[idx] == line);
        reveal_strlit("# priority ");
        lemma_priority_line(d.priority, today);
        m = Meta { priority: d.priority as int, count: m.count + 1, ..m };
        idx = idx + 1;
        assert(meta_of(ls, idx, today) == Some(m));
    }
    match d.date {
        Some(x) => {
            let line = "# date "@ + date_text(x);
            assert(ls[idx] == line);
            reveal_strlit("# date ");
            lemma_date_line(x, today);
            m = Meta { date: Some(x), count: m.count + 1, ..m };
            idx = idx + 1;
            assert(meta_of(ls, idx, today) == Some(m));
        },
        None => {},
    }
    if d.archived {
        assert(ls[idx] == "# archived"@);
        reveal_strlit("# archived");
        lemma_archived_line(today);
        m = Meta { archived: true, count: m.count + 1, ..m };
        idx = idx + 1;
        assert(meta_of(ls, idx, today) == Some(m));
    }
    assert(ls[idx] == Seq::<char>::empty());
    assert(idx + 1 == h.len());
    m = Meta { done: true, ..m };
    assert(meta_of(ls, h.len() as int, today) == Some(m));
    assert(m == saved_meta(d));
    lemma_meta_leaves(ls, h.len() as int, ls.len() as int, today);
    assert(ls.subrange(h.len() as int, ls.len() as int) =~= ll);
    lemma_lines_of_join(ll);
}

} // verus!
