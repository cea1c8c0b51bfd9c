//! Todo items: their mathematical view, the sibling order, and the one-line text form.
use vstd::prelude::*;

use crate::date::{date_parse, date_text, Date};
use crate::error::{CodeComponent, Error};
use crate::text::{
    append, append_str, chars_of, int_chars, int_of, int_text, join, join_of, parse_int, slice_of,
    split, split_of, string_from_chars, trim, trim_of, trim_start, trim_start_of, views,
};

verus! {

broadcast use vstd::std_specs::vec::group_vec_axioms;

/// One todo entry with the entries nested under it.
#[derive(Debug)]
pub struct Item {
    pub completed: bool,
    pub archived: bool,
    pub priority: i64,
    pub date: Option<Date>,
    pub name: String,
    pub items: Vec<Item>,
}

/// What an item is, as a mathematical value.
pub struct ItemView {
    pub completed: bool,
    pub archived: bool,
    pub priority: int,
    pub date: Option<Date>,
    pub name: Seq<char>,
    pub items: Seq<ItemView>,
}

pub open spec fn item_view(i: Item) -> ItemView
    decreases i,
{
    ItemView {
        completed: i.completed,
        archived: i.archived,
        priority: i.priority as int,
        date: i.date,
        name: i.name@,
        items: items_view(i.items@),
    }
}

pub open spec fn items_view(s: Seq<Item>) -> Seq<ItemView>
    decreases s,
{
    if s.len() == 0 {
        Seq::empty()
    } else {
        items_view(s.drop_last()).push(item_view(s.last()))
    }
}

impl View for Item {
    type V = ItemView;

    open spec fn view(&self) -> ItemView {
        item_view(*self)
    }
}

pub proof fn lemma_items_view(s: Seq<Item>)
    ensures
        items_view(s).len() == s.len(),
        forall|k: int| 0 <= k < s.len() ==> #[trigger] items_view(s)[k] == item_view(s[k]),
    decreases s.len(),
{
    if s.len() > 0 {
        lemma_items_view(s.drop_last());
    }
}

/// `a` comes before `b` among siblings: incomplete before complete, then higher priority first.
pub open spec fn goes_before(a: ItemView, b: ItemView) -> bool {
    (!a.completed && b.completed) || (a.completed == b.completed && a.priority > b.priority)
}

/// No item comes before one that precedes it.
pub open spec fn sorted(s: Seq<ItemView>) -> bool {
    forall|i: int, j: int| 0 <= i < j < s.len() ==> !goes_before(#[trigger] s[j], #[trigger] s[i])
}

/// Every sibling list in the tree is sorted.
pub open spec fn deep_sorted(s: Seq<ItemView>) -> bool
    decreases s,
{
    &&& sorted(s)
    &&& forall|k: int| 0 <= k < s.len() ==> deep_sorted(#[trigger] s[k].items)
}

/// Where `x` goes in `s`, searching from `k`: before the first item that it comes before.
pub open spec fn insert_pos(s: Seq<ItemView>, x: ItemView, k: int) -> int
    decreases s.len() - k,
{
    if k < 0 || k >= s.len() {
        s.len() as int
    } else if goes_before(x, s[k]) {
        k
    } else {
        insert_pos(s, x, k + 1)
    }
}

/// Stable sort of siblings, as inserting them one by one in order.
pub open spec fn sort_items(s: Seq<ItemView>) -> Seq<ItemView>
    decreases s.len(),
{
    if s.len() == 0 {
        s
    } else {
        let r = sort_items(s.drop_last());
        r.insert(insert_pos(r, s.last(), 0), s.last())
    }
}

proof fn lemma_insert_pos(s: Seq<ItemView>, x: ItemView, k: int)
    requires
        0 <= k <= s.len(),
    ensures
        k <= insert_pos(s, x, k) <= s.len(),
        forall|j: int| k <= j < insert_pos(s, x, k) ==> !goes_before(x, #[trigger] s[j]),
        insert_pos(s, x, k) < s.len() ==> goes_before(x, s[insert_pos(s, x, k)]),
    decreases s.len() - k,
{
    if k < s.len() && !goes_before(x, s[k]) {
        lemma_insert_pos(s, x, k + 1);
    }
}

/// Sorting keeps the items and puts them in sibling order.
pub proof fn lemma_sort_items(s: Seq<ItemView>)
    ensures
        sorted(sort_items(s)),
        sort_items(s).len() == s.len(),
        forall|k: int| 0 <= k < s.len() ==> sort_items(s).contains(#[trigger] s[k]),
        forall|k: int|
            0 <= k < s.len() ==> exists|j: int| 0 <= j < s.len() && #[trigger] sort_items(s)[k] == s[j],
    decreases s.len(),
{
    if s.len() > 0 {
        let t = s.drop_last();
        let x = s.last();
        lemma_sort_items(t);
        let r = sort_items(t);
        let p = insert_pos(r, x, 0);
        lemma_insert_pos(r, x, 0);
        let out = r.insert(p, x);
        assert(out == sort_items(s));
        assert forall|i: int, j: int| 0 <= i < j < out.len() implies !goes_before(
            #[trigger] out[j],
            #[trigger] out[i],
        ) by {
            if j < p {
                assert(out[i] == r[i] && out[j] == r[j]);
            } else if j == p {
                assert(out[i] == r[i]);
            } else if i == p {
                assert(out[j] == r[j - 1]);
                if j - 1 > p {
                    assert(!goes_before(r[j - 1], r[p]));
                }
            } else if i < p {
                assert(out[i] == r[i] && out[j] == r[j - 1]);
            } else {
                assert(out[i] == r[i - 1] && out[j] == r[j - 1]);
            }
        }
        assert forall|k: int| 0 <= k < s.len() implies out.contains(#[trigger] s[k]) by {
            if k == s.len() - 1 {
                assert(out[p] == x);
            } else {
                assert(t[k] == s[k]);
                assert(r.contains(t[k]));
                let j = choose|j: int| 0 <= j < r.len() && r[j] == t[k];
                if j < p {
                    assert(out[j] == r[j]);
                } else {
                    assert(out[j + 1] == r[j]);
                }
            }
        }
        assert forall|k: int| 0 <= k < s.len() implies exists|j: int|
            0 <= j < s.len() && #[trigger] out[k] == s[j] by {
            if k == p {
                assert(out[k] == s[s.len() - 1]);
            } else if k < p {
                assert(out[k] == r[k]);
                let j = choose|j: int| 0 <= j < t.len() && r[k] == t[j];
                assert(s[j] == t[j]);
            } else {
                assert(out[k] == r[k - 1]);
                let j = choose|j: int| 0 <= j < t.len() && r[k - 1] == t[j];
                assert(s[j] == t[j]);
            }
        }
    }
}

/// Sorting a list whose items hold sorted trees gives a sorted tree.
pub proof fn lemma_sort_deep(s: Seq<ItemView>)
    requires
        forall|k: int| 0 <= k < s.len() ==> deep_sorted(#[trigger] s[k].items),
    ensures
        deep_sorted(sort_items(s)),
{
    lemma_sort_items(s);
    let r = sort_items(s);
    assert forall|k: int| 0 <= k < r.len() implies deep_sorted(#[trigger] r[k].items) by {
        let j = choose|j: int| 0 <= j < s.len() && r[k] == s[j];
        assert(deep_sorted(s[j].items));
    }
}

/// The item's state letter in its checkbox.
pub open spec fn state_char(v: ItemView) -> char {
    if v.archived {
        'a'
    } else if v.completed {
        'x'
    } else {
        ' '
    }
}

/// The line that stands for an item at `depth`, without its children.
pub open spec fn line_text(v: ItemView, depth: nat) -> Seq<char> {
    let tags = v.priority != 0 || v.date is Some;
    crate::error::repeat(" "@, depth) + "- ["@ + seq![state_char(v)] + "] "@ + (if v.priority != 0 {
        "\\"@ + int_text(v.priority)
    } else {
        Seq::empty()
    }) + (match v.date {
        Some(d) => "\\"@ + date_text(d),
        None => Seq::empty(),
    }) + (if tags {
        "\\ "@
    } else {
        Seq::empty()
    }) + v.name + "\n"@
}

/// An item and its children, each on its own line, one more space of indentation per level.
pub open spec fn item_text(v: ItemView, depth: nat) -> Seq<char>
    decreases v,
{
    line_text(v, depth) + items_text(v.items, depth + 1)
}

pub open spec fn items_text(s: Seq<ItemView>, depth: nat) -> Seq<char>
    decreases s,
{
    if s.len() == 0 {
        Seq::empty()
    } else {
        items_text(s.drop_last(), depth) + item_text(s.last(), depth)
    }
}

/// Levels of nesting in an item.
pub open spec fn height(v: ItemView) -> nat
    decreases v,
{
    1 + heights(v.items)
}

pub open spec fn heights(s: Seq<ItemView>) -> nat
    decreases s,
{
    if s.len() == 0 {
        0
    } else {
        let a = heights(s.drop_last());
        let b = height(s.last());
        if a > b {
            a
        } else {
            b
        }
    }
}

/// Dates in the tree are valid calendar dates.
pub open spec fn dates_ok(s: Seq<ItemView>) -> bool
    decreases s,
{
    forall|k: int|
        0 <= k < s.len() ==> (#[trigger] s[k].date matches Some(d) ==> d.wf()) && dates_ok(
            s[k].items,
        )
}

/// The parts that one item line gives: completed, archived, priority, date, name.
pub open spec fn line_fields(line: Seq<char>, today: Date) -> Option<
    (bool, bool, int, Option<Date>, Seq<char>),
> {
    let secs = split(line, '\\');
    let first = trim_start(secs[0]);
    let rest = secs.drop_first();
    let has_p = rest.len() >= 1 && int_of(rest[0], true, i64::MIN as int, i64::MAX as int) is Some;
    let priority = if has_p {
        match int_of(trim(rest[0]), true, i64::MIN as int, i64::MAX as int) {
            Some(v) => v,
            None => 0,
        }
    } else {
        0
    };
    let rest2 = if has_p {
        rest.drop_first()
    } else {
        rest
    };
    let has_d = rest2.len() > 1;
    let date = if has_d && trim(rest2[0]).len() > 0 {
        date_parse(trim(rest2[0]), today)
    } else {
        None
    };
    let rest3 = if has_d {
        rest2.drop_first()
    } else {
        rest2
    };
    let whole = trim_start(line);
    if first.len() < 4 || !has_checkbox(whole) {
        None
    } else {
        let archived = first[3] == 'a';
        let name = if has_d || has_p {
            trim(join(rest3, '\\'))
        } else {
            whole.subrange(6, whole.len() as int)
        };
        Some((first[3] == 'x' || archived, archived, priority, date, name))
    }
}

/// The line starts with a checkbox `- [s] `, its state `s` a space, `x` or `a`.
pub open spec fn has_checkbox(s: Seq<char>) -> bool {
    &&& s.len() >= 6
    &&& s[0] == '-'
    &&& s[1] == ' '
    &&& s[2] == '['
    &&& (s[3] == ' ' || s[3] == 'x' || s[3] == 'a')
    &&& s[4] == ']'
    &&& s[5] == ' '
}

fn checkbox_of(s: &Vec<char>) -> (r: bool)
    ensures
        r == has_checkbox(s@),
{
    s.len() >= 6 && s[0] == '-' && s[1] == ' ' && s[2] == '[' && (s[3] == ' ' || s[3] == 'x'
        || s[3] == 'a') && s[4] == ']' && s[5] == ' '
}

/// The item that a line and its already parsed children make.
pub open spec fn line_item(line: Seq<char>, children: Seq<ItemView>, today: Date) -> Option<
    ItemView,
> {
    match line_fields(line, today) {
        Some(f) => Some(
            ItemView {
                completed: f.0,
                archived: f.1,
                priority: f.2,
                date: f.3,
                name: f.4,
                items: sort_items(children),
            },
        ),
        None => None,
    }
}

/// Finds where `x` goes among already sorted siblings.
fn insert_index(v: &Vec<Item>, x: &Item) -> (r: usize)
    ensures
        r == insert_pos(items_view(v@), x@, 0),
        r <= v@.len(),
{
    proof {
        lemma_items_view(v@);
        lemma_insert_pos(items_view(v@), x@, 0);
    }
    let mut k: usize = 0;
    while k < v.len()
        invariant
            k <= v@.len(),
            items_view(v@).len() == v@.len(),
            forall|j: int| 0 <= j < v@.len() ==> #[trigger] items_view(v@)[j] == item_view(v@[j]),
            insert_pos(items_view(v@), x@, k as int) == insert_pos(items_view(v@), x@, 0),
        decreases v.len() - k,
    {
        let y = &v[k];
        let before = (!x.completed && y.completed) || (x.completed == y.completed && x.priority
            > y.priority);
        if before {
            return k;
        }
        k += 1;
    }
    k
}

/// Sorts siblings: incomplete before complete, then by descending priority, keeping the order
/// of equal items.
pub fn sort_list(v: Vec<Item>) -> (r: Vec<Item>)
    ensures
        items_view(r@) == sort_items(items_view(v@)),
{
    let ghost orig = v@;
    let mut rest = v;
    let mut out: Vec<Item> = Vec::new();
    let mut taken: usize = 0;
    let total = rest.len();
    proof {
        lemma_items_view(orig);
    }
    while rest.len() > 0
        invariant
            total == orig.len(),
            taken + rest@.len() == orig.len(),
            rest@ == orig.subrange(taken as int, orig.len() as int),
            items_view(out@) == sort_items(items_view(orig.subrange(0, taken as int))),
            items_view(orig).len() == orig.len(),
            forall|j: int| 0 <= j < orig.len() ==> #[trigger] items_view(orig)[j] == item_view(orig[j]),
        decreases rest@.len(),
    {
        let x = rest.remove(0);
        let p = insert_index(&out, &x);
        let ghost before = out@;
        out.insert(p, x);
        proof {
            let pre = orig.subrange(0, taken as int);
            let post = orig.subrange(0, taken + 1);
            lemma_items_view(pre);
            lemma_items_view(post);
            lemma_items_view(before);
            lemma_items_view(out@);
            assert(items_view(post).drop_last() =~= items_view(pre));
            assert(items_view(post).last() == item_view(x));
            assert(items_view(out@) =~= items_view(before).insert(p as int, item_view(x)));
        }
        taken += 1;
    }
    proof {
        assert(orig.subrange(0, taken as int) == orig);
    }
    out
}

impl Item {
    /// Reads one item line (not its children, which come already parsed) against `today`:
    /// `- [s] \priority\date\ name`, where `s` is `x` (completed), `a` (archived) or a space.
    /// A line without that checkbox is malformed.
    pub fn from(input: String, sub_items: Vec<Item>, today: Date) -> (r: Result<Item, Error>)
        requires
            today.wf(),
        ensures
            match r {
                Ok(it) => line_item(input@, items_view(sub_items@), today) == Some(it@),
                Err(_) => line_item(input@, items_view(sub_items@), today) is None,
            },
            r matches Ok(it) ==> (it.date matches Some(d) ==> d.wf()),
    {
        let line = chars_of(input.as_str());
        let secs = split_of(&line, '\\');
        let first = trim_start_of(&secs[0]);
        let whole = trim_start_of(&line);
        let n = secs.len();
        let mut k: usize = 1;
        let has_p = n >= 2 && parse_int(&secs[1], true, -9223372036854775808, 9223372036854775807).is_some();
        let mut priority: i64 = 0;
        if has_p {
            let t = trim_of(&secs[1]);
            priority = match parse_int(&t, true, -9223372036854775808, 9223372036854775807) {
                Some(v) => v as i64,
                None => 0,
            };
            k = 2;
        }
        let has_d = n - k > 1;
        let mut date: Option<Date> = None;
        if has_d {
            let t = trim_of(&secs[k]);
            if t.len() > 0 {
                let ts = string_from_chars(&t);
                date = match Date::parse(ts.as_str(), today) {
                    Ok(d) => Some(d),
                    Err(_) => None,
                };
            }
            k = k + 1;
        }
        if first.len() < 4 || !checkbox_of(&whole) {
            return Err(Error::new(CodeComponent::ItemParser, "Malformed item line."));
        }
        let archived = first[3] == 'a';
        let completed = first[3] == 'x' || archived;
        let name = if has_d || has_p {
            let joined = join_of(&secs, k, '\\');
            trim_of(&joined)
        } else {
            slice_of(&whole, 6, whole.len())
        };
        proof {
            let s = split(input@, '\\');
            assert(views(secs@) == s);
            assert(secs@[0]@ == s[0]);
            if n >= 2 {
                assert(secs@[1]@ == s.drop_first()[0]);
            }
            if has_d {
                assert(secs@[k - 1]@ == s[k - 1]);
            }
            let rest3 = if has_d {
                if has_p {
                    s.drop_first().drop_first().drop_first()
                } else {
                    s.drop_first().drop_first()
                }
            } else if has_p {
                s.drop_first().drop_first()
            } else {
                s.drop_first()
            };
            assert(views(secs@).subrange(k as int, n as int) =~= rest3);
        }
        let children = sort_list(sub_items);
        Ok(
            Item {
                completed,
                archived,
                priority,
                date,
                name: string_from_chars(&name),
                items: children,
            },
        )
    }
}

proof fn lemma_heights(s: Seq<ItemView>)
    ensures
        forall|k: int| 0 <= k < s.len() ==> height(#[trigger] s[k]) <= heights(s),
        forall|k: int| 0 <= k < s.len() ==> heights(#[trigger] s[k].items) < height(s[k]),
    decreases s.len(),
{
    if s.len() > 0 {
        lemma_heights(s.drop_last());
        assert forall|k: int| 0 <= k < s.len() - 1 implies height(#[trigger] s[k]) <= heights(s) by {
            assert(s.drop_last()[k] == s[k]);
        }
    }
}

/// No item is higher than its list, and its children are lower than it.
pub proof fn lemma_height_bounds(s: Seq<ItemView>)
    ensures
        forall|k: int| 0 <= k < s.len() ==> height(#[trigger] s[k]) <= heights(s),
        forall|k: int| 0 <= k < s.len() ==> heights(#[trigger] s[k].items) < height(s[k]),
{
    lemma_heights(s);
}

/// Sorting keeps every date valid.
pub proof fn lemma_sort_dates(s: Seq<ItemView>)
    requires
        dates_ok(s),
    ensures
        dates_ok(sort_items(s)),
{
    lemma_sort_items(s);
    let r = sort_items(s);
    assert forall|k: int| 0 <= k < r.len() implies (#[trigger] r[k].date matches Some(d) ==> d.wf())
        && dates_ok(r[k].items) by {
        let j = choose|j: int| 0 <= j < s.len() && r[k] == s[j];
        assert(s[j].date matches Some(d) ==> d.wf());
        assert(dates_ok(s[j].items));
    }
}

/// Items whose dates are all valid, at every depth.
pub open spec fn item_dates_ok(v: ItemView) -> bool {
    (v.date matches Some(d) ==> d.wf()) && dates_ok(v.items)
}

proof fn lemma_dates_ok(s: Seq<Item>)
    requires
        dates_ok(items_view(s)),
    ensures
        forall|k: int| 0 <= k < s.len() ==> item_dates_ok(#[trigger] item_view(s[k])),
{
    lemma_items_view(s);
    assert forall|k: int| 0 <= k < s.len() implies item_dates_ok(#[trigger] item_view(s[k])) by {
        assert(items_view(s)[k] == item_view(s[k]));
    }
}

#[verifier::rlimit(100)]
fn write_line(it: &Item, indent: &Vec<char>, Ghost(depth): Ghost<nat>, out: &mut Vec<char>)
    requires
        it.date matches Some(d) ==> d.wf(),
        indent@ == crate::error::repeat(" "@, depth),
    ensures
        final(out)@ == old(out)@ + line_text(it@, depth),
{
    let ghost v = it@;
    let ghost start = out@;
    let ghost head = crate::error::repeat(" "@, depth) + "- ["@ + seq![state_char(v)] + "] "@;
    let ghost pp = if v.priority != 0 {
        "\\"@ + int_text(v.priority)
    } else {
        Seq::<char>::empty()
    };
    let ghost dd = match v.date {
        Some(d) => "\\"@ + date_text(d),
        None => Seq::<char>::empty(),
    };
    let ghost tt = if v.priority != 0 || v.date is Some {
        "\\ "@
    } else {
        Seq::<char>::empty()
    };
    append(out, indent);
    append_str(out, "- [");
    let c = if it.archived {
        'a'
    } else if it.completed {
        'x'
    } else {
        ' '
    };
    out.push(c);
    append_str(out, "] ");
    assert(out@ =~= start + head);
    let ghost after_head = out@;
    if it.priority != 0 {
        append_str(out, "\\");
        let p = int_chars(it.priority as i128);
        append(out, &p);
    }
    assert(out@ =~= after_head + pp);
    let ghost after_p = out@;
    match &it.date {
        Some(d) => {
            append_str(out, "\\");
            let t = d.display();
            append_str(out, t.as_str());
        },
        None => {},
    }
    assert(out@ =~= after_p + dd);
    let ghost after_d = out@;
    if it.priority != 0 || it.date.is_some() {
        append_str(out, "\\ ");
    }
    assert(out@ =~= after_d + tt);
    append_str(out, it.name.as_str());
    append_str(out, "\n");
    proof {
        assert(line_text(v, depth) == head + pp + dd + tt + v.name + "\n"@);
        assert(out@ =~= start + (head + pp + dd + tt + v.name + "\n"@));
    }
}

fn write_item(
    it: &Item,
    indent: &Vec<char>,
    Ghost(depth): Ghost<nat>,
    out: &mut Vec<char>,
    Ghost(bound): Ghost<nat>,
)
    requires
        height(it@) <= bound,
        item_dates_ok(it@),
        indent@ == crate::error::repeat(" "@, depth),
    ensures
        final(out)@ == old(out)@ + item_text(it@, depth),
    decreases bound, 1int,
{
    write_line(it, indent, Ghost(depth), out);
    let mut deeper = slice_of(indent, 0, indent.len());
    append_str(&mut deeper, " ");
    proof {
        assert(indent@.subrange(0, indent@.len() as int) == indent@);
        lemma_heights(it@.items);
    }
    let ghost mid = out@;
    write_items(&it.items, &deeper, Ghost(depth + 1), out, Ghost((bound - 1) as nat));
    assert(out@ =~= old(out)@ + item_text(it@, depth));
}

fn write_items(
    items: &Vec<Item>,
    indent: &Vec<char>,
    Ghost(depth): Ghost<nat>,
    out: &mut Vec<char>,
    Ghost(bound): Ghost<nat>,
)
    requires
        heights(items_view(items@)) <= bound,
        dates_ok(items_view(items@)),
        indent@ == crate::error::repeat(" "@, depth),
    ensures
        final(out)@ == old(out)@ + items_text(items_view(items@), depth),
    decreases bound, 2int,
{
    let ghost start = out@;
    let ghost all = items_view(items@);
    proof {
        lemma_items_view(items@);
        lemma_heights(all);
        lemma_dates_ok(items@);
    }
    let mut i: usize = 0;
    while i < items.len()
        invariant
            i <= items@.len(),
            all == items_view(items@),
            all.len() == items@.len(),
            forall|k: int| 0 <= k < items@.len() ==> #[trigger] all[k] == item_view(items@[k]),
            forall|k: int| 0 <= k < all.len() ==> height(#[trigger] all[k]) <= heights(all),
            forall|k: int| 0 <= k < items@.len() ==> item_dates_ok(#[trigger] item_view(items@[k])),
            heights(all) <= bound,
            indent@ == crate::error::repeat(" "@, depth),
            out@ == start + items_text(items_view(items@.subrange(0, i as int)), depth),
        decreases items@.len() - i,
    {
        let ghost pre = items@.subrange(0, i as int);
        let ghost post = items@.subrange(0, i + 1);
        assert(post.drop_last() == pre);
        assert(all[i as int] == item_view(items@[i as int]));
        write_item(&items[i], indent, Ghost(depth), out, Ghost(bound));
        i += 1;
        proof {
            let v = items_view(post);
            assert(v == items_view(pre).push(item_view(items@[i - 1])));
            assert(v.drop_last() == items_view(pre));
            assert(items_text(v, depth) == items_text(items_view(pre), depth) + item_text(
                item_view(items@[i - 1]),
                depth,
            ));
            assert(out@ =~= start + items_text(v, depth));
        }
    }
    assert(items@.subrange(0, i as int) == items@);
}

fn spaces(depth: usize) -> (r: Vec<char>)
    ensures
        r@ == crate::error::repeat(" "@, depth as nat),
{
    let mut r: Vec<char> = Vec::new();
    let mut k: usize = 0;
    while k < depth
        invariant
            k <= depth,
            r@ == crate::error::repeat(" "@, k as nat),
        decreases depth - k,
    {
        append_str(&mut r, " ");
        k += 1;
    }
    r
}

impl Item {
    /// The item and its children in the saved text form, starting at indentation `depth`.
    pub fn to_string(&self, depth: usize) -> (r: String)
        requires
            item_dates_ok(self@),
        ensures
            r@ == item_text(self@, depth as nat),
    {
        let mut out: Vec<char> = Vec::new();
        let indent = spaces(depth);
        write_item(self, &indent, Ghost(depth as nat), &mut out, Ghost(height(self@)));
        assert(out@ == Seq::<char>::empty() + item_text(self@, depth as nat));
        string_from_chars(&out)
    }
}

/// The sibling list in the saved text form.
pub fn items_to_string(items: &Vec<Item>) -> (r: String)
    requires
        dates_ok(items_view(items@)),
    ensures
        r@ == items_text(items_view(items@), 0),
{
    let mut out: Vec<char> = Vec::new();
    let indent: Vec<char> = Vec::new();
    assert(indent@ == crate::error::repeat(" "@, 0));
    write_items(items, &indent, Ghost(0), &mut out, Ghost(heights(items_view(items@))));
    assert(out@ == Seq::<char>::empty() + items_text(items_view(items@), 0));
    string_from_chars(&out)
}

/// Whether every date in the tree is a valid calendar date.
pub fn dates_valid(items: &Vec<Item>) -> (r: bool)
    ensures
        r == dates_ok(items_view(items@)),
{
    dates_valid_within(items, Ghost(heights(items_view(items@))))
}

fn dates_valid_within(items: &Vec<Item>, Ghost(bound): Ghost<nat>) -> (r: bool)
    requires
        heights(items_view(items@)) <= bound,
    ensures
        r == dates_ok(items_view(items@)),
    decreases bound,
{
    let ghost all = items_view(items@);
    proof {
        lemma_items_view(items@);
        lemma_heights(all);
    }
    let mut i: usize = 0;
    while i < items.len()
        invariant
            i <= items@.len(),
            all == items_view(items@),
            all.len() == items@.len(),
            forall|k: int| 0 <= k < items@.len() ==> #[trigger] all[k] == item_view(items@[k]),
            forall|k: int| 0 <= k < all.len() ==> height(#[trigger] all[k]) <= heights(all),
            heights(all) <= bound,
            forall|k: int|
                0 <= k < i ==> (#[trigger] all[k].date matches Some(d) ==> d.wf()) && dates_ok(
                    all[k].items,
                ),
        decreases items@.len() - i,
    {
        assert(all[i as int] == item_view(items@[i as int]));
        assert(height(all[i as int]) <= heights(all));
        let ok_here = match &items[i].date {
            Some(d) => Date::validate_month_length(d.month, d.year, d.day),
            None => true,
        };
        assert(all[i as int].date == items@[i as int].date);
        assert(all[i as int].items == items_view(items@[i as int].items@));
        if !ok_here {
            assert(!(all[i as int].date matches Some(d) ==> d.wf()));
            return false;
        }
        if !dates_valid_within(&items[i].items, Ghost((bound - 1) as nat)) {
            assert(!dates_ok(all[i as int].items));
            return false;
        }
        i += 1;
    }
    true
}

/// A name that the item line gives back unchanged: no backslash, and no whitespace at either
/// end.
pub open spec fn clean_name(n: Seq<char>) -> bool {
    &&& forall|i: int| 0 <= i < n.len() ==> n[i] != '\\'
    &&& n.len() > 0 ==> !crate::text::is_space(n[0]) && !crate::text::is_space(n.last())
}

/// The fields of an item, as a line gives them.
pub open spec fn fields_of(v: ItemView) -> (bool, bool, int, Option<Date>, Seq<char>) {
    (v.completed, v.archived, v.priority, v.date, v.name)
}

proof fn lemma_head(v: ItemView, depth: nat)
    ensures
        ({
            let head = crate::error::repeat(" "@, depth) + "- ["@ + seq![state_char(v)] + "] "@;
            &&& forall|i: int| 0 <= i < head.len() ==> head[i] != '\\'
            &&& trim_start(head) == seq!['-', ' ', '[', state_char(v), ']', ' ']
        }),
{
    reveal_strlit("- [");
    reveal_strlit("] ");
    let sp = crate::error::repeat(" "@, depth);
    crate::text::lemma_repeat_spaces(depth);
    let t = seq!['-', ' ', '[', state_char(v), ']', ' '];
    let head = sp + "- ["@ + seq![state_char(v)] + "] "@;
    assert(head =~= sp + t);
    crate::text::lemma_trim_indent(depth, t);
    assert forall|i: int| 0 <= i < head.len() implies head[i] != '\\' by {
        if i < sp.len() {
            assert(head[i] == sp[i]);
        } else {
            assert(head[i] == t[i - sp.len()]);
        }
    }
}

proof fn lemma_line_checkbox(v: ItemView, depth: nat)
    ensures
        has_checkbox(trim_start(line_text(v, depth).drop_last())),
{
    reveal_strlit("- [");
    reveal_strlit("] ");
    reveal_strlit("\n");
    let sp = crate::error::repeat(" "@, depth);
    crate::text::lemma_repeat_spaces(depth);
    let full = line_text(v, depth);
    let l = full.drop_last();
    let t = l.subrange(depth as int, l.len() as int);
    assert(l =~= sp + t);
    assert(t[0] == '-' && t[1] == ' ' && t[2] == '[' && t[3] == state_char(v) && t[4] == ']'
        && t[5] == ' ');
    crate::text::lemma_trim_indent(depth, t);
}

/// Facts that every case of the line round trip uses.
pub open spec fn line_parts_ok(v: ItemView, depth: nat) -> bool {
    let head = crate::error::repeat(" "@, depth) + "- ["@ + seq![state_char(v)] + "] "@;
    let tail = seq![' '] + v.name;
    let p = int_text(v.priority);
    &&& forall|i: int| 0 <= i < head.len() ==> head[i] != '\\'
    &&& trim_start(head) == seq!['-', ' ', '[', state_char(v), ']', ' ']
    &&& split(tail, '\\') == seq![tail]
    &&& trim(tail) == v.name
    &&& forall|i: int| 0 <= i < p.len() ==> p[i] != '\\'
    &&& trim(p) == p
    &&& int_of(p, true, i64::MIN as int, i64::MAX as int) == Some(v.priority)
}

proof fn lemma_line_parts(v: ItemView, depth: nat)
    requires
        clean_name(v.name),
        i64::MIN <= v.priority <= i64::MAX,
    ensures
        line_parts_ok(v, depth),
{
    lemma_head(v, depth);
    let tail = seq![' '] + v.name;
    crate::text::lemma_trim_lead_space(v.name);
    assert forall|i: int| 0 <= i < tail.len() implies tail[i] != '\\' by {
        if i > 0 {
            assert(tail[i] == v.name[i - 1]);
        }
    }
    crate::text::lemma_split_none(tail, '\\');
    let p = int_text(v.priority);
    crate::text::lemma_int_text(v.priority);
    assert forall|i: int| 0 <= i < p.len() implies p[i] != '\\' by {
        assert(p[i] == '-' || crate::text::is_digit(p[i]));
    }
    crate::text::lemma_trim_solid(p);
}

#[verifier::rlimit(100)]
proof fn lemma_line_plain(v: ItemView, depth: nat, today: Date)
    requires
        has_checkbox(trim_start(line_text(v, depth).drop_last())),
        clean_name(v.name),
        v.archived ==> v.completed,
        line_parts_ok(v, depth),
        v.priority == 0,
        v.date is None,
    ensures
        line_fields(line_text(v, depth).drop_last(), today) == Some(fields_of(v)),
{
    reveal_strlit("- [");
    reveal_strlit("] ");
    reveal_strlit("\n");
    let head = crate::error::repeat(" "@, depth) + "- ["@ + seq![state_char(v)] + "] "@;
    let first = seq!['-', ' ', '[', state_char(v), ']', ' '];
    let l = line_text(v, depth).drop_last();
    assert(l =~= head + v.name);
    crate::text::lemma_split_none(l, '\\');
    crate::text::lemma_repeat_spaces(depth);
    crate::text::lemma_trim_indent(depth, first + v.name);
    assert(head =~= crate::error::repeat(" "@, depth) + first);
    assert(head + v.name =~= crate::error::repeat(" "@, depth) + (first + v.name));
    assert((first + v.name).subrange(6, (first + v.name).len() as int) =~= v.name);
    crate::text::lemma_trim_indent(depth, first);
    assert(split(l, '\\').drop_first().len() == 0);
}

#[verifier::rlimit(100)]
proof fn lemma_line_priority(v: ItemView, depth: nat, today: Date)
    requires
        has_checkbox(trim_start(line_text(v, depth).drop_last())),
        v.archived ==> v.completed,
        line_parts_ok(v, depth),
        v.priority != 0,
        v.date is None,
    ensures
        line_fields(line_text(v, depth).drop_last(), today) == Some(fields_of(v)),
{
    reveal_strlit("- [");
    reveal_strlit("] ");
    reveal_strlit("\\");
    reveal_strlit("\\ ");
    reveal_strlit("\n");
    let head = crate::error::repeat(" "@, depth) + "- ["@ + seq![state_char(v)] + "] "@;
    let tail = seq![' '] + v.name;
    let p = int_text(v.priority);
    let l = line_text(v, depth).drop_last();
    assert(l =~= head.push('\\') + (p.push('\\') + tail));
    crate::text::lemma_split_after(head, '\\', p.push('\\') + tail);
    crate::text::lemma_split_after(p, '\\', tail);
    let rest = split(l, '\\').drop_first();
    assert(rest =~= seq![p, tail]);
    assert(rest.drop_first() =~= seq![tail]);
    assert(join(seq![tail], '\\') == tail);
}

#[verifier::rlimit(100)]
proof fn lemma_line_date(v: ItemView, depth: nat, today: Date)
    requires
        has_checkbox(trim_start(line_text(v, depth).drop_last())),
        v.archived ==> v.completed,
        line_parts_ok(v, depth),
        v.priority == 0,
        v.date matches Some(d) && d.wf() && d.year >= 1000,
    ensures
        line_fields(line_text(v, depth).drop_last(), today) == Some(fields_of(v)),
{
    reveal_strlit("- [");
    reveal_strlit("] ");
    reveal_strlit("\\");
    reveal_strlit("\\ ");
    reveal_strlit("\n");
    let head = crate::error::repeat(" "@, depth) + "- ["@ + seq![state_char(v)] + "] "@;
    let tail = seq![' '] + v.name;
    let d = v.date->Some_0;
    let dt = date_text(d);
    crate::date::lemma_date_text_shape(d);
    crate::date::lemma_display_round_trip(d, today);
    crate::text::lemma_trim_solid(dt);
    let l = line_text(v, depth).drop_last();
    assert(l =~= head.push('\\') + (dt.push('\\') + tail));
    crate::text::lemma_split_after(head, '\\', dt.push('\\') + tail);
    crate::text::lemma_split_after(dt, '\\', tail);
    let rest = split(l, '\\').drop_first();
    assert(rest =~= seq![dt, tail]);
    assert(rest.drop_first() =~= seq![tail]);
    assert(join(seq![tail], '\\') == tail);
}

proof fn lemma_split_both(v: ItemView, depth: nat)
    requires
        line_parts_ok(v, depth),
        v.priority != 0,
        v.date matches Some(d) && forall|i: int|
            0 <= i < date_text(d).len() ==> #[trigger] date_text(d)[i] != '\\',
    ensures
        split(line_text(v, depth).drop_last(), '\\') == seq![
            crate::error::repeat(" "@, depth) + "- ["@ + seq![state_char(v)] + "] "@,
            int_text(v.priority),
            date_text(v.date->Some_0),
            seq![' '] + v.name,
        ],
{
    reveal_strlit("\\");
    reveal_strlit("\\ ");
    reveal_strlit("\n");
    let head = crate::error::repeat(" "@, depth) + "- ["@ + seq![state_char(v)] + "] "@;
    let tail = seq![' '] + v.name;
    let p = int_text(v.priority);
    let dt = date_text(v.date->Some_0);
    let l = line_text(v, depth).drop_last();
    assert(l =~= head.push('\\') + (p.push('\\') + (dt.push('\\') + tail)));
    crate::text::lemma_split_after(head, '\\', p.push('\\') + (dt.push('\\') + tail));
    crate::text::lemma_split_after(p, '\\', dt.push('\\') + tail);
    crate::text::lemma_split_after(dt, '\\', tail);
    assert(seq![head] + (seq![p] + (seq![dt] + seq![tail])) =~= seq![head, p, dt, tail]);
}

#[verifier::rlimit(100)]
proof fn lemma_line_both(
    v: ItemView,
    l: Seq<char>,
    head: Seq<char>,
    p: Seq<char>,
    dt: Seq<char>,
    tail: Seq<char>,
    today: Date,
)
    requires
        has_checkbox(trim_start(l)),
        v.archived ==> v.completed,
        split(l, '\\') == seq![head, p, dt, tail],
        trim_start(head) == seq!['-', ' ', '[', state_char(v), ']', ' '],
        int_of(p, true, i64::MIN as int, i64::MAX as int) == Some(v.priority),
        trim(p) == p,
        dt.len() > 0,
        trim(dt) == dt,
        v.date is Some,
        date_parse(dt, today) == v.date,
        trim(tail) == v.name,
    ensures
        line_fields(l, today) == Some(fields_of(v)),
{
    let rest = split(l, '\\').drop_first();
    assert(rest =~= seq![p, dt, tail]);
    assert(rest.drop_first() =~= seq![dt, tail]);
    assert(rest.drop_first().drop_first() =~= seq![tail]);
    assert(join(seq![tail], '\\') == tail);
}

/// An item's line, read back, gives the item's fields: the outline format keeps the state,
/// priority, date and name of every item whose name is clean, whose date has a four-digit
/// year, and that is completed where it is archived.
pub proof fn lemma_line_round_trip(v: ItemView, depth: nat, today: Date)
    requires
        clean_name(v.name),
        v.archived ==> v.completed,
        i64::MIN <= v.priority <= i64::MAX,
        v.date matches Some(d) ==> d.wf() && d.year >= 1000,
    ensures
        line_fields(line_text(v, depth).drop_last(), today) == Some(fields_of(v)),
{
    lemma_line_parts(v, depth);
    lemma_line_checkbox(v, depth);
    if v.priority == 0 && v.date is None {
        lemma_line_plain(v, depth, today);
    } else if v.date is None {
        lemma_line_priority(v, depth, today);
    } else if v.priority == 0 {
        lemma_line_date(v, depth, today);
    } else {
        let d = v.date->Some_0;
        crate::date::lemma_date_text_shape(d);
        crate::date::lemma_display_round_trip(d, today);
        crate::text::lemma_trim_solid(date_text(d));
        lemma_split_both(v, depth);
        lemma_line_both(
            v,
            line_text(v, depth).drop_last(),
            crate::error::repeat(" "@, depth) + "- ["@ + seq![state_char(v)] + "] "@,
            int_text(v.priority),
            date_text(d),
            seq![' '] + v.name,
            today,
        );
    }
}

} // verus!
