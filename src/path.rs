//! Item paths: `#document/prefix/prefix`, each prefix matched case-insensitively against the
//! start of an item name, one level of the tree after another.
use vstd::prelude::*;

use crate::error::{CodeComponent, Error};
use crate::item::Item;
use crate::text::{
    append, chars_of, is_prefix, join, lower, lower_of, split, split_of, starts_with,
    string_from_chars, views,
};

verus! {

/// Which document, then which item by successive name prefixes.
#[derive(Debug, Clone, PartialEq, Eq)]
pub struct ItemPath {
    pub document: String,
    pub item_prefixes: Vec<String>,
}

pub open spec fn string_views(v: Seq<String>) -> Seq<Seq<char>> {
    v.map_values(|s: String| s@)
}

/// An item name matches a prefix when it starts with it, ignoring ASCII case.
pub open spec fn name_matches(prefix: Seq<char>, name: Seq<char>) -> bool {
    is_prefix(lower(prefix), lower(name))
}

/// Document name and prefixes of a path text; `current` is the document to use where the text
/// names none. A trailing slash is ignored; any other empty segment is an error.
pub open spec fn path_parse(v: Seq<char>, current: Seq<char>) -> Option<(Seq<char>, Seq<Seq<char>>)> {
    let first = split(v, '/')[0];
    let doc = if first.len() > 0 && first[0] == '#' {
        first.drop_first()
    } else {
        current
    };
    let rest = path_rest(v);
    if inner_empty(rest) {
        None
    } else if rest.len() > 0 && rest.last().len() == 0 {
        Some((doc, rest.drop_last()))
    } else {
        Some((doc, rest))
    }
}

/// The segments after the document segment (or after a leading slash).
pub open spec fn path_rest(v: Seq<char>) -> Seq<Seq<char>> {
    let segs = split(v, '/');
    let first = segs[0];
    if (first.len() > 0 && first[0] == '#') || first.len() == 0 {
        segs.drop_first()
    } else {
        segs
    }
}

/// Some segment other than the last is empty.
pub open spec fn inner_empty(rest: Seq<Seq<char>>) -> bool {
    exists|i: int| 0 <= i < rest.len() - 1 && (#[trigger] rest[i]).len() == 0
}

/// Text of a path: `#document/` and the prefixes joined by slashes.
pub open spec fn path_text(doc: Seq<char>, prefixes: Seq<Seq<char>>) -> Seq<char> {
    "#"@ + doc + "/"@ + join(prefixes, '/')
}

impl ItemPath {
    pub open spec fn prefixes(&self) -> Seq<Seq<char>> {
        string_views(self.item_prefixes@)
    }

    /// Reads a path text; where it names no document (`/a/b` or `a/b`), the path is in
    /// `current_document`.
    pub fn try_from(value: &String, current_document: &String) -> (r: Result<Self, Error>)
        ensures
            match r {
                Ok(p) => path_parse(value@, current_document@) == Some((p.document@, p.prefixes())),
                Err(_) => path_parse(value@, current_document@) is None,
            },
    {
        let v = chars_of(value.as_str());
        let segs = split_of(&v, '/');
        let ghost s = split(value@, '/');
        assert(views(segs@) == s);
        assert(segs@[0]@ == s[0]);
        let named = segs[0].len() > 0 && segs[0][0] == '#';
        let document = if named {
            let mut d: Vec<char> = Vec::new();
            let mut k: usize = 1;
            while k < segs[0].len()
                invariant
                    segs@.len() >= 1,
                    1 <= k <= segs@[0]@.len(),
                    d@ == segs@[0]@.subrange(1, k as int),
                decreases segs@[0]@.len() - k,
            {
                d.push(segs[0][k]);
                k += 1;
            }
            assert(d@ == s[0].drop_first());
            string_from_chars(&d)
        } else {
            current_document.clone()
        };
        let start: usize = if named || segs[0].len() == 0 {
            1
        } else {
            0
        };
        let ghost rest = if named || s[0].len() == 0 {
            s.drop_first()
        } else {
            s
        };
        assert(rest == s.subrange(start as int, s.len() as int));
        let mut prefixes: Vec<String> = Vec::new();
        let mut i: usize = start;
        while i < segs.len()
            invariant
                start <= i <= segs@.len(),
                s == split(value@, '/'),
                views(segs@) == s,
                rest == path_rest(value@),
                rest == s.subrange(start as int, s.len() as int),
                forall|j: int| 0 <= j < i - start && j < rest.len() - 1 ==> (#[trigger] rest[j]).len() > 0,
                string_views(prefixes@) == nonempty(rest.subrange(0, i - start)),
            decreases segs@.len() - i,
        {
            assert(rest[i - start] == segs@[i as int]@);
            if segs[i].len() == 0 {
                if i != segs.len() - 1 {
                    assert(rest[i - start].len() == 0);
                    assert(i - start < rest.len() - 1);
                    return Err(
                        Error::new(CodeComponent::DocumentPath, "The path has an empty segment."),
                    );
                }
            } else {
                prefixes.push(string_from_chars(&segs[i]));
            }
            proof {
                let a = rest.subrange(0, i - start);
                let b = rest.subrange(0, i - start + 1);
                assert(b.drop_last() == a);
            }
            i += 1;
            assert(string_views(prefixes@) == nonempty(rest.subrange(0, i - start)));
        }
        proof {
            assert(rest.subrange(0, rest.len() as int) == rest);
            assert(!inner_empty(rest));
            if rest.len() > 0 && rest.last().len() == 0 {
                lemma_filter_nonempty(rest.drop_last());
            } else {
                lemma_filter_nonempty(rest);
            }
        }
        Ok(ItemPath { document, item_prefixes: prefixes })
    }

    /// Whether the item's name starts with the first prefix, ignoring ASCII case.
    pub fn matches(&self, item: &Item) -> (r: bool)
        ensures
            r == (self.prefixes().len() > 0 && name_matches(self.prefixes()[0], item.name@)),
    {
        if self.item_prefixes.len() == 0 {
            return false;
        }
        let p = chars_of(self.item_prefixes[0].as_str());
        let n = chars_of(item.name.as_str());
        let lp = lower_of(&p);
        let ln = lower_of(&n);
        starts_with(&ln, &lp)
    }

    /// The path one level down: the first prefix dropped.
    pub fn shifted(&self) -> (r: ItemPath)
        requires
            self.prefixes().len() > 0,
        ensures
            r.document@ == self.document@,
            r.prefixes() == self.prefixes().drop_first(),
    {
        let mut prefixes: Vec<String> = Vec::new();
        let mut i: usize = 1;
        while i < self.item_prefixes.len()
            invariant
                1 <= i <= self.item_prefixes@.len(),
                string_views(prefixes@) == self.prefixes().subrange(1, i as int),
            decreases self.item_prefixes@.len() - i,
        {
            let ghost before = prefixes@;
            let c = self.item_prefixes[i].clone();
            assert(c@ == self.prefixes()[i as int]);
            prefixes.push(c);
            assert(prefixes@ == before.push(c));
            assert(string_views(prefixes@) =~= string_views(before).push(c@));
            assert(self.prefixes().subrange(1, i + 1) =~= self.prefixes().subrange(1, i as int).push(
                c@,
            ));
            i += 1;
        }
        ItemPath { document: self.document.clone(), item_prefixes: prefixes }
    }

    /// The path as text: `#document/prefix/prefix`.
    pub fn display(&self) -> (r: String)
        ensures
            r@ == path_text(self.document@, self.prefixes()),
    {
        let mut out: Vec<char> = chars_of("#");
        let d = chars_of(self.document.as_str());
        append(&mut out, &d);
        let slash = chars_of("/");
        append(&mut out, &slash);
        let mut i: usize = 0;
        let ghost start = out@;
        while i < self.item_prefixes.len()
            invariant
                i <= self.item_prefixes@.len(),
                slash@ == "/"@,
                out@ == start + join(self.prefixes().subrange(0, i as int), '/'),
            decreases self.item_prefixes@.len() - i,
        {
            let ghost before = self.prefixes().subrange(0, i as int);
            let ghost after = self.prefixes().subrange(0, i + 1);
            assert(after.drop_last() == before);
            proof {
                reveal_strlit("/");
            }
            if i > 0 {
                out.push('/');
            }
            let p = chars_of(self.item_prefixes[i].as_str());
            append(&mut out, &p);
            i += 1;
        }
        assert(self.prefixes().subrange(0, i as int) == self.prefixes());
        string_from_chars(&out)
    }
}

/// Keeping the non-empty pieces of a list with no empty piece keeps them all.
proof fn lemma_filter_nonempty(s: Seq<Seq<char>>)
    requires
        forall|j: int| 0 <= j < s.len() ==> (#[trigger] s[j]).len() > 0,
    ensures
        nonempty(s) == s,
    decreases s.len(),
{
    if s.len() > 0 {
        lemma_filter_nonempty(s.drop_last());
        assert(s.drop_last().push(s.last()) == s);
    }
}

/// The non-empty pieces, in order.
pub open spec fn nonempty(s: Seq<Seq<char>>) -> Seq<Seq<char>>
    decreases s.len(),
{
    if s.len() == 0 {
        s
    } else if s.last().len() > 0 {
        nonempty(s.drop_last()).push(s.last())
    } else {
        nonempty(s.drop_last())
    }
}

} // verus!
