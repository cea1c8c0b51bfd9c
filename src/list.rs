//! Operations on a sibling list of items and the trees under them: pruning, filtering,
//! finding, adding and removing by item path, and reading the outline text.
//!
//! Sibling order (open items first, then by descending priority) is imposed when text is
//! read; the operations here keep the order they find, and `add_item` appends, so a list is
//! sorted again the next time it is read.
use vstd::prelude::*;

use crate::error::{CodeComponent, Error};
use crate::item::{heights, height, item_view, items_view, lemma_items_view, Item, ItemView};
use crate::path::{name_matches, string_views, ItemPath};
use crate::text::{chars_of, lower_of, starts_with};

verus! {

broadcast use vstd::std_specs::vec::group_vec_axioms;

/// The root list of a document, or the children of an item.
pub type List = Vec<Item>;

/// The item with every completed item in it marked archived.
pub open spec fn prune_item(v: ItemView) -> ItemView
    decreases v,
{
    ItemView { archived: v.archived || v.completed, items: prune_all(v.items), ..v }
}

pub open spec fn prune_all(s: Seq<ItemView>) -> Seq<ItemView>
    decreases s,
{
    if s.len() == 0 {
        s
    } else {
        prune_all(s.drop_last()).push(prune_item(s.last()))
    }
}

pub proof fn lemma_prune_all(s: Seq<ItemView>)
    ensures
        prune_all(s).len() == s.len(),
        forall|k: int| 0 <= k < s.len() ==> #[trigger] prune_all(s)[k] == prune_item(s[k]),
    decreases s.len(),
{
    if s.len() > 0 {
        lemma_prune_all(s.drop_last());
    }
}

/// Pruning an item twice is pruning it once.
pub proof fn lemma_prune_item_idempotent(v: ItemView)
    ensures
        prune_item(prune_item(v)) == prune_item(v),
    decreases v,
{
    lemma_prune_idempotent(v.items);
}

/// Pruning a list twice is pruning it once.
pub proof fn lemma_prune_idempotent(s: Seq<ItemView>)
    ensures
        prune_all(prune_all(s)) == prune_all(s),
    decreases s,
{
    lemma_prune_all(s);
    lemma_prune_all(prune_all(s));
    assert forall|k: int| 0 <= k < s.len() implies #[trigger] prune_all(prune_all(s))[k]
        == prune_all(s)[k] by {
        lemma_prune_item_idempotent(s[k]);
    }
    assert(prune_all(prune_all(s)) =~= prune_all(s));
}

/// Marks every completed item in the tree archived.
pub fn prune(items: &mut Vec<Item>)
    ensures
        items_view(final(items)@) == prune_all(items_view(old(items)@)),
{
    prune_within(items, Ghost(heights(items_view(items@))));
}

fn prune_within(items: &mut Vec<Item>, Ghost(bound): Ghost<nat>)
    requires
        heights(items_view(old(items)@)) <= bound,
    ensures
        items_view(final(items)@) == prune_all(items_view(old(items)@)),
    decreases bound,
{
    let ghost orig = items_view(items@);
    let ghost old_items = items@;
    proof {
        lemma_items_view(items@);
        crate::item::lemma_height_bounds(orig);
        lemma_prune_all(orig);
    }
    let n = items.len();
    let mut i: usize = 0;
    while i < n
        invariant
            n == items@.len(),
            n == old_items.len(),
            orig == items_view(old_items),
            orig.len() == n,
            forall|k: int| 0 <= k < n ==> #[trigger] orig[k] == item_view(old_items[k]),
            forall|k: int| 0 <= k < n ==> height(#[trigger] orig[k]) <= heights(orig),
            forall|k: int| 0 <= k < orig.len() ==> #[trigger] prune_all(orig)[k] == prune_item(orig[k]),
            prune_all(orig).len() == n,
            heights(orig) <= bound,
            i <= n,
            forall|k: int| 0 <= k < i ==> item_view(#[trigger] items@[k]) == prune_item(orig[k]),
            forall|k: int| i <= k < n ==> #[trigger] items@[k] == old_items[k],
        decreases n - i,
    {
        assert(items@[i as int] == old_items[i as int]);
        assert(height(orig[i as int]) <= heights(orig));
        assert(heights(orig[i as int].items) < height(orig[i as int]));
        assert(orig[i as int].items == items_view(old_items[i as int].items@));
        if items[i].completed {
            items[i].archived = true;
        }
        assert(items@[i as int].items == old_items[i as int].items);
        assert(heights(items_view(items@[i as int].items@)) < heights(orig));
        prune_within(&mut items[i].items, Ghost((bound - 1) as nat));
        i += 1;
    }
    proof {
        lemma_items_view(items@);
        assert(items_view(items@) =~= prune_all(orig));
    }
}

/// Index path of the item that the prefixes `ps` pick among `s`, searching siblings from `k`:
/// with one prefix left, the first matching sibling; else the first matching sibling whose
/// children resolve the remaining prefixes.
pub open spec fn resolve(s: Seq<ItemView>, ps: Seq<Seq<char>>, k: int) -> Option<Seq<int>>
    decreases ps.len(), s.len() - k,
{
    if ps.len() == 0 || k < 0 || k >= s.len() {
        None
    } else if name_matches(ps[0], s[k].name) {
        if ps.len() == 1 {
            Some(seq![k])
        } else {
            match resolve(s[k].items, ps.drop_first(), 0) {
                Some(p) => Some(seq![k] + p),
                None => resolve(s, ps, k + 1),
            }
        }
    } else {
        resolve(s, ps, k + 1)
    }
}

/// Every index of `p` picks an item, one level down after another.
pub open spec fn valid_path(s: Seq<ItemView>, p: Seq<int>) -> bool
    decreases p.len(),
{
    &&& p.len() >= 1
    &&& 0 <= p[0] < s.len()
    &&& p.len() > 1 ==> valid_path(s[p[0]].items, p.drop_first())
}

/// The item at index path `p`.
pub open spec fn item_at(s: Seq<ItemView>, p: Seq<int>) -> ItemView
    decreases p.len(),
{
    if p.len() <= 1 {
        s[p[0]]
    } else {
        item_at(s[p[0]].items, p.drop_first())
    }
}

/// The list with the item at index path `p` replaced by `v`.
pub open spec fn replace_at(s: Seq<ItemView>, p: Seq<int>, v: ItemView) -> Seq<ItemView>
    decreases p.len(),
{
    if p.len() <= 1 {
        s.update(p[0], v)
    } else {
        s.update(p[0], ItemView { items: replace_at(s[p[0]].items, p.drop_first(), v), ..s[p[0]] })
    }
}

/// The list with `v` appended to the children of the item at `p` (to the list itself where
/// `p` is empty).
pub open spec fn push_at(s: Seq<ItemView>, p: Seq<int>, v: ItemView) -> Seq<ItemView>
    decreases p.len(),
{
    if p.len() == 0 {
        s.push(v)
    } else {
        s.update(p[0], ItemView { items: push_at(s[p[0]].items, p.drop_first(), v), ..s[p[0]] })
    }
}

/// The list with the item at index path `p` taken out, its children with it.
pub open spec fn remove_at(s: Seq<ItemView>, p: Seq<int>) -> Seq<ItemView>
    decreases p.len(),
{
    if p.len() <= 1 {
        s.remove(p[0])
    } else {
        s.update(p[0], ItemView { items: remove_at(s[p[0]].items, p.drop_first()), ..s[p[0]] })
    }
}

pub open spec fn indices(p: Seq<usize>) -> Seq<int> {
    p.map_values(|x: usize| x as int)
}

proof fn lemma_resolve_valid(s: Seq<ItemView>, ps: Seq<Seq<char>>, k: int)
    ensures
        resolve(s, ps, k) matches Some(p) ==> valid_path(s, p) && p.len() == ps.len() && k <= p[0],
    decreases ps.len(), s.len() - k,
{
    if ps.len() == 0 || k < 0 || k >= s.len() {
    } else if name_matches(ps[0], s[k].name) {
        if ps.len() == 1 {
        } else {
            lemma_resolve_valid(s[k].items, ps.drop_first(), 0);
            lemma_resolve_valid(s, ps, k + 1);
            match resolve(s[k].items, ps.drop_first(), 0) {
                Some(p) => {
                    assert((seq![k] + p).drop_first() == p);
                },
                None => {},
            }
        }
    } else {
        lemma_resolve_valid(s, ps, k + 1);
    }
}

proof fn lemma_first_match_from(s: Seq<ItemView>, prefix: Seq<char>, k: int)
    requires
        0 <= k,
    ensures
        match resolve(s, seq![prefix], k) {
            Some(p) => p == seq![p[0]] && k <= p[0] < s.len() && name_matches(prefix, s[p[0]].name)
                && forall|j: int| k <= j < p[0] ==> !name_matches(prefix, #[trigger] s[j].name),
            None => forall|j: int| k <= j < s.len() ==> !name_matches(prefix, #[trigger] s[j].name),
        },
    decreases s.len() - k,
{
    if k < s.len() {
        lemma_first_match_from(s, prefix, k + 1);
    }
}

/// With one prefix, the item found is the first matching one in list order.
pub proof fn lemma_first_match(s: Seq<ItemView>, prefix: Seq<char>)
    ensures
        match resolve(s, seq![prefix], 0) {
            Some(p) => p.len() == 1 && 0 <= p[0] < s.len() && name_matches(prefix, s[p[0]].name)
                && forall|j: int| 0 <= j < p[0] ==> !name_matches(prefix, #[trigger] s[j].name),
            None => forall|j: int| 0 <= j < s.len() ==> !name_matches(prefix, #[trigger] s[j].name),
        },
{
    lemma_first_match_from(s, prefix, 0);
}

proof fn lemma_items_view_update(s: Seq<Item>, k: int, x: Item)
    requires
        0 <= k < s.len(),
    ensures
        items_view(s.update(k, x)) == items_view(s).update(k, item_view(x)),
{
    lemma_items_view(s);
    lemma_items_view(s.update(k, x));
    assert(items_view(s.update(k, x)) =~= items_view(s).update(k, item_view(x)));
}

fn resolve_exec(items: &Vec<Item>, ps: &Vec<String>, from: usize) -> (r: Option<Vec<usize>>)
    requires
        from <= ps@.len(),
    ensures
        match r {
            Some(p) => resolve(
                items_view(items@),
                string_views(ps@).subrange(from as int, ps@.len() as int),
                0,
            ) == Some(indices(p@)),
            None => resolve(
                items_view(items@),
                string_views(ps@).subrange(from as int, ps@.len() as int),
                0,
            ) is None,
        },
    decreases ps@.len() - from,
{
    let ghost sv = items_view(items@);
    let ghost rest = string_views(ps@).subrange(from as int, ps@.len() as int);
    if from >= ps.len() {
        return None;
    }
    let pc = chars_of(ps[from].as_str());
    let pre = lower_of(&pc);
    assert(rest[0] == ps@[from as int]@);
    proof {
        lemma_items_view(items@);
    }
    let mut k: usize = 0;
    while k < items.len()
        invariant
            from < ps@.len(),
            sv == items_view(items@),
            sv.len() == items@.len(),
            forall|j: int| 0 <= j < items@.len() ==> #[trigger] sv[j] == item_view(items@[j]),
            rest == string_views(ps@).subrange(from as int, ps@.len() as int),
            pre@ == crate::text::lower(rest[0]),
            k <= items@.len(),
            resolve(sv, rest, k as int) == resolve(sv, rest, 0),
        decreases items@.len() - k,
    {
        let nc = chars_of(items[k].name.as_str());
        let nm = lower_of(&nc);
        assert(sv[k as int].name == items@[k as int].name@);
        if starts_with(&nm, &pre) {
            if from == ps.len() - 1 {
                let mut v: Vec<usize> = Vec::new();
                v.push(k);
                assert(indices(v@) =~= seq![k as int]);
                return Some(v);
            }
            assert(string_views(ps@).subrange(from + 1, ps@.len() as int) == rest.drop_first());
            assert(sv[k as int].items == items_view(items@[k as int].items@));
            match resolve_exec(&items[k].items, ps, from + 1) {
                Some(p) => {
                    let mut v: Vec<usize> = Vec::new();
                    v.push(k);
                    let mut j: usize = 0;
                    while j < p.len()
                        invariant
                            j <= p@.len(),
                            indices(v@) == seq![k as int] + indices(p@).subrange(0, j as int),
                        decreases p@.len() - j,
                    {
                        let ghost vb = v@;
                        v.push(p[j]);
                        assert(v@ == vb.push(p@[j as int]));
                        assert(indices(v@) =~= indices(vb).push(p@[j as int] as int));
                        assert(indices(p@).subrange(0, j + 1) =~= indices(p@).subrange(
                            0,
                            j as int,
                        ).push(p@[j as int] as int));
                        j += 1;
                        assert(indices(v@) =~= seq![k as int] + indices(p@).subrange(0, j as int));
                    }
                    assert(indices(p@).subrange(0, p@.len() as int) == indices(p@));
                    return Some(v);
                },
                None => {},
            }
        }
        k += 1;
    }
    None
}

fn push_at_exec(items: &mut Vec<Item>, path: &Vec<usize>, i: usize, item: Item)
    requires
        i <= path@.len(),
        i < path@.len() ==> valid_path(
            items_view(old(items)@),
            indices(path@).subrange(i as int, path@.len() as int),
        ),
    ensures
        items_view(final(items)@) == push_at(
            items_view(old(items)@),
            indices(path@).subrange(i as int, path@.len() as int),
            item@,
        ),
    decreases path@.len() - i,
{
    let ghost p = indices(path@).subrange(i as int, path@.len() as int);
    let ghost before = items@;
    proof {
        lemma_items_view(items@);
    }
    if i == path.len() {
        items.push(item);
        proof {
            lemma_items_view(items@);
            assert(items_view(items@) =~= items_view(before).push(item@));
        }
    } else {
        let k = path[i];
        assert(p[0] == k as int);
        assert(indices(path@).subrange(i + 1, path@.len() as int) == p.drop_first());
        push_at_exec(&mut items[k].items, path, i + 1, item);
        proof {
            lemma_items_view_update(before, k as int, items@[k as int]);
            assert(items@ == before.update(k as int, items@[k as int]));
        }
    }
}

fn remove_at_exec(items: &mut Vec<Item>, path: &Vec<usize>, i: usize) -> (r: Item)
    requires
        i < path@.len(),
        valid_path(items_view(old(items)@), indices(path@).subrange(i as int, path@.len() as int)),
    ensures
        items_view(final(items)@) == remove_at(
            items_view(old(items)@),
            indices(path@).subrange(i as int, path@.len() as int),
        ),
        r@ == item_at(
            items_view(old(items)@),
            indices(path@).subrange(i as int, path@.len() as int),
        ),
    decreases path@.len() - i,
{
    let ghost p = indices(path@).subrange(i as int, path@.len() as int);
    let ghost before = items@;
    proof {
        lemma_items_view(items@);
    }
    let k = path[i];
    assert(p[0] == k as int);
    if i == path.len() - 1 {
        let r = items.remove(k);
        proof {
            lemma_items_view(items@);
            assert(items_view(items@) =~= items_view(before).remove(k as int));
        }
        r
    } else {
        assert(indices(path@).subrange(i + 1, path@.len() as int) == p.drop_first());
        let r = remove_at_exec(&mut items[k].items, path, i + 1);
        proof {
            lemma_items_view_update(before, k as int, items@[k as int]);
            assert(items@ == before.update(k as int, items@[k as int]));
        }
        r
    }
}

fn item_at_mut<'a>(items: &'a mut Vec<Item>, path: &Vec<usize>, i: usize) -> (r: &'a mut Item)
    requires
        i < path@.len(),
        valid_path(items_view(old(items)@), indices(path@).subrange(i as int, path@.len() as int)),
    ensures
        item_view(*r) == item_at(
            items_view(old(items)@),
            indices(path@).subrange(i as int, path@.len() as int),
        ),
        items_view(final(items)@) == replace_at(
            items_view(old(items)@),
            indices(path@).subrange(i as int, path@.len() as int),
            item_view(*final(r)),
        ),
    decreases path@.len() - i,
{
    let ghost p = indices(path@).subrange(i as int, path@.len() as int);
    proof {
        lemma_items_view(items@);
        lemma_all_updates(items@);
    }
    let k = path[i];
    assert(p[0] == k as int);
    if i == path.len() - 1 {
        &mut items[k]
    } else {
        assert(indices(path@).subrange(i + 1, path@.len() as int) == p.drop_first());
        item_at_mut(&mut items[k].items, path, i + 1)
    }
}

proof fn lemma_all_updates(s: Seq<Item>)
    ensures
        forall|k: int, x: Item|
            0 <= k < s.len() ==> #[trigger] items_view(s.update(k, x)) == items_view(s).update(
                k,
                item_view(x),
            ),
{
    assert forall|k: int, x: Item| 0 <= k < s.len() implies #[trigger] items_view(s.update(k, x))
        == items_view(s).update(k, item_view(x)) by {
        lemma_items_view_update(s, k, x);
    }
}

/// The item that `path` names, to be changed in place.
pub fn find<'a>(items: &'a mut Vec<Item>, path: &ItemPath) -> (r: Result<&'a mut Item, Error>)
    ensures
        match r {
            Ok(it) => resolve(items_view(old(items)@), path.prefixes(), 0) matches Some(p) && item_view(
                *it,
            ) == item_at(items_view(old(items)@), p) && items_view(final(items)@) == replace_at(
                items_view(old(items)@),
                p,
                item_view(*final(it)),
            ),
            Err(_) => resolve(items_view(old(items)@), path.prefixes(), 0) is None && *final(items)
                == *old(items),
        },
{
    let ghost ps = path.prefixes();
    match resolve_exec(items, &path.item_prefixes, 0) {
        None => {
            assert(string_views(path.item_prefixes@).subrange(0, path.item_prefixes@.len() as int)
                == ps);
            Err(Error::new(CodeComponent::ItemList, "Could not find an item at the path."))
        },
        Some(idx) => {
            assert(string_views(path.item_prefixes@).subrange(0, path.item_prefixes@.len() as int)
                == ps);
            proof {
                lemma_resolve_valid(items_view(items@), ps, 0);
                assert(indices(idx@).subrange(0, idx@.len() as int) == indices(idx@));
            }
            Ok(item_at_mut(items, &idx, 0))
        },
    }
}

/// Appends `item` to the list where `path` has no prefixes, else to the children of the item
/// that it names.
pub fn add_item(items: &mut Vec<Item>, item: Item, path: &ItemPath) -> (r: Result<(), Error>)
    ensures
        path.prefixes().len() == 0 ==> r is Ok && items_view(final(items)@) == items_view(
            old(items)@,
        ).push(item@),
        path.prefixes().len() > 0 ==> match resolve(items_view(old(items)@), path.prefixes(), 0) {
            Some(p) => r is Ok && items_view(final(items)@) == push_at(
                items_view(old(items)@),
                p,
                item@,
            ),
            None => r is Err && *final(items) == *old(items),
        },
{
    let ghost ps = path.prefixes();
    if path.item_prefixes.len() == 0 {
        let empty: Vec<usize> = Vec::new();
        assert(indices(empty@).subrange(0, 0) =~= Seq::<int>::empty());
        push_at_exec(items, &empty, 0, item);
        return Ok(());
    }
    assert(string_views(path.item_prefixes@).subrange(0, path.item_prefixes@.len() as int) == ps);
    match resolve_exec(items, &path.item_prefixes, 0) {
        None => Err(Error::new(CodeComponent::ItemList, "Could not find an item at the path.")),
        Some(idx) => {
            proof {
                lemma_resolve_valid(items_view(items@), ps, 0);
                assert(indices(idx@).subrange(0, idx@.len() as int) == indices(idx@));
            }
            push_at_exec(items, &idx, 0, item);
            Ok(())
        },
    }
}

/// Takes the item that `path` names out of the tree, with its children, and returns it.
pub fn remove_by_path(items: &mut Vec<Item>, path: &ItemPath) -> (r: Result<Item, Error>)
    ensures
        match resolve(items_view(old(items)@), path.prefixes(), 0) {
            Some(p) => r matches Ok(it) && it@ == item_at(items_view(old(items)@), p) && items_view(
                final(items)@,
            ) == remove_at(items_view(old(items)@), p),
            None => r is Err && *final(items) == *old(items),
        },
{
    let ghost ps = path.prefixes();
    assert(string_views(path.item_prefixes@).subrange(0, path.item_prefixes@.len() as int) == ps);
    match resolve_exec(items, &path.item_prefixes, 0) {
        None => Err(Error::new(CodeComponent::ItemList, "Could not find the item to remove.")),
        Some(idx) => {
            proof {
                lemma_resolve_valid(items_view(items@), ps, 0);
                assert(indices(idx@).subrange(0, idx@.len() as int) == indices(idx@));
            }
            Ok(remove_at_exec(items, &idx, 0))
        },
    }
}

/// The predicate answers the same for the same item.
pub open spec fn decides<F: Fn(&Item) -> bool>(f: F) -> bool {
    &&& forall|i: &Item| #[trigger] f.requires((i,))
    &&& forall|i: &Item, b: bool| #[trigger] f.ensures((i,), b) ==> (b <==> f.ensures((i,), true))
}

/// The tree without the items for which `f` holds, their children going with them.
pub open spec fn filtered<F: Fn(&Item) -> bool>(s: Seq<Item>, f: F) -> Seq<ItemView>
    decreases s,
{
    if s.len() == 0 {
        Seq::empty()
    } else {
        let rest = filtered(s.drop_last(), f);
        let x = s.last();
        if f.ensures((&x,), true) {
            rest
        } else {
            rest.push(ItemView { items: filtered(x.items@, f), ..item_view(x) })
        }
    }
}

/// Removes, at every depth, the items for which `predicate` holds.
pub fn recursive_filter<F: Fn(&Item) -> bool>(items: &mut Vec<Item>, predicate: &F)
    requires
        decides(*predicate),
    ensures
        items_view(final(items)@) == filtered(old(items)@, *predicate),
{
    filter_within(items, predicate, Ghost(heights(items_view(items@))));
}

fn filter_within<F: Fn(&Item) -> bool>(items: &mut Vec<Item>, f: &F, Ghost(bound): Ghost<nat>)
    requires
        decides(*f),
        heights(items_view(old(items)@)) <= bound,
    ensures
        items_view(final(items)@) == filtered(old(items)@, *f),
    decreases bound,
{
    let ghost orig = items@;
    let mut rest: Vec<Item> = Vec::new();
    std::mem::swap(items, &mut rest);
    let mut out: Vec<Item> = Vec::new();
    let total = rest.len();
    let mut taken: usize = 0;
    proof {
        lemma_items_view(orig);
        crate::item::lemma_height_bounds(items_view(orig));
    }
    while rest.len() > 0
        invariant
            decides(*f),
            total == orig.len(),
            taken + rest@.len() == orig.len(),
            rest@ == orig.subrange(taken as int, orig.len() as int),
            items_view(out@) == filtered(orig.subrange(0, taken as int), *f),
            heights(items_view(orig)) <= bound,
            items_view(orig).len() == orig.len(),
            forall|j: int| 0 <= j < orig.len() ==> #[trigger] items_view(orig)[j] == item_view(orig[j]),
            forall|j: int|
                0 <= j < orig.len() ==> height(#[trigger] items_view(orig)[j]) <= heights(
                    items_view(orig),
                ),
            forall|j: int|
                0 <= j < orig.len() ==> heights(#[trigger] items_view(orig)[j].items) < height(
                    items_view(orig)[j],
                ),
        decreases rest@.len(),
    {
        let mut x = rest.remove(0);
        let ghost x0 = x;
        let ghost pre = orig.subrange(0, taken as int);
        let ghost post = orig.subrange(0, taken + 1);
        assert(post.drop_last() == pre);
        assert(post.last() == x0);
        let gone = f(&x);
        if !gone {
            assert(items_view(orig)[taken as int] == item_view(x0));
            filter_within(&mut x.items, f, Ghost((bound - 1) as nat));
            let ghost ob = out@;
            out.push(x);
            proof {
                lemma_items_view(ob);
                lemma_items_view(out@);
                assert(items_view(out@) =~= items_view(ob).push(item_view(x)));
            }
        }
        taken += 1;
    }
    assert(orig.subrange(0, taken as int) == orig);
    *items = out;
}

/// The lines of a text as `str::lines` gives them: split at `\n`, a `\r` before it dropped,
/// no empty line after a final `\n`.
pub open spec fn lines(s: Seq<char>) -> Seq<Seq<char>> {
    let parts = crate::text::split(s, '\n');
    let n = parts.len() as int;
    Seq::new(
        (if parts[n - 1].len() == 0 {
            n - 1
        } else {
            n
        }) as nat,
        |i: int|
            if i < n - 1 && parts[i].len() > 0 && parts[i].last() == '\r' {
                parts[i].drop_last()
            } else {
                parts[i]
            },
    )
}

pub fn lines_of(s: &Vec<char>) -> (r: Vec<Vec<char>>)
    ensures
        crate::text::views(r@) == lines(s@),
{
    let parts = crate::text::split_of(s, '\n');
    let ghost ps = crate::text::split(s@, '\n');
    let n = parts.len();
    let m = if parts[n - 1].len() == 0 {
        n - 1
    } else {
        n
    };
    let mut r: Vec<Vec<char>> = Vec::new();
    let mut i: usize = 0;
    while i < m
        invariant
            n == parts@.len(),
            n >= 1,
            ps == crate::text::split(s@, '\n'),
            crate::text::views(parts@) == ps,
            m <= n,
            m == (if ps[n - 1].len() == 0 {
                n - 1
            } else {
                n as int
            }),
            i <= m,
            crate::text::views(r@) == lines(s@).subrange(0, i as int),
        decreases m - i,
    {
        assert(parts@[i as int]@ == ps[i as int]);
        let l = &parts[i];
        let line = if i < n - 1 && l.len() > 0 && l[l.len() - 1] == '\r' {
            crate::text::slice_of(l, 0, l.len() - 1)
        } else {
            crate::text::slice_of(l, 0, l.len())
        };
        let ghost rb = r@;
        proof {
            assert(l@.subrange(0, l@.len() as int) == l@);
            assert(l@.drop_last() == l@.subrange(0, l@.len() - 1));
            assert(lines(s@).len() == m);
            assert(lines(s@)[i as int] == line@);
        }
        r.push(line);
        proof {
            assert(r@ == rb.push(line));
            assert(crate::text::views(r@) =~= crate::text::views(rb).push(line@));
            assert(lines(s@).subrange(0, i + 1) =~= lines(s@).subrange(0, i as int).push(line@));
        }
        i += 1;
    }
    assert(lines(s@).subrange(0, m as int) =~= lines(s@));
    r
}

/// The items of the level that starts at line `start`, then sorted: each line at its
/// indentation is one item, and a deeper block right after it holds its children.
pub open spec fn parse_block(ls: Seq<Seq<char>>, start: int, today: crate::date::Date) -> Option<
    Seq<ItemView>,
>
    decreases ls.len() - start, 1int, 0int,
{
    if start < 0 || start >= ls.len() {
        Some(Seq::empty())
    } else {
        match level_items(ls, start, start, crate::text::indentation(ls[start]), today) {
            Some(s) => Some(crate::item::sort_items(s)),
            None => None,
        }
    }
}

/// Items from line `i` on at indentation `base`, in line order, up to the first line that is
/// indented less; lines indented more are left to the item above them.
pub open spec fn level_items(
    ls: Seq<Seq<char>>,
    start: int,
    i: int,
    base: int,
    today: crate::date::Date,
) -> Option<Seq<ItemView>>
    decreases ls.len() - start, 0int, ls.len() - i,
{
    if i < start || i < 0 || i >= ls.len() {
        Some(Seq::empty())
    } else {
        let cur = crate::text::indentation(ls[i]);
        if cur < base {
            Some(Seq::empty())
        } else if cur > base {
            level_items(ls, start, i + 1, base, today)
        } else {
            let next = if i < ls.len() - 1 {
                crate::text::indentation(ls[i + 1])
            } else {
                0
            };
            let subs = if cur < next {
                parse_block(ls, i + 1, today)
            } else {
                Some(Seq::empty())
            };
            match subs {
                None => None,
                Some(sub) => match crate::item::line_item(ls[i], sub, today) {
                    None => None,
                    Some(it) => match level_items(ls, start, i + 1, base, today) {
                        None => None,
                        Some(rest) => Some(seq![it] + rest),
                    },
                },
            }
        }
    }
}

/// Every sibling list that parsing gives is sorted.
pub proof fn lemma_parse_sorted(ls: Seq<Seq<char>>, start: int, today: crate::date::Date)
    ensures
        parse_block(ls, start, today) matches Some(s) ==> crate::item::deep_sorted(s),
    decreases ls.len() - start, 1int, 0int,
{
    if start >= 0 && start < ls.len() {
        lemma_level_sorted(ls, start, start, crate::text::indentation(ls[start]), today);
        match level_items(ls, start, start, crate::text::indentation(ls[start]), today) {
            Some(s) => crate::item::lemma_sort_deep(s),
            None => {},
        }
    }
}

proof fn lemma_level_sorted(
    ls: Seq<Seq<char>>,
    start: int,
    i: int,
    base: int,
    today: crate::date::Date,
)
    ensures
        level_items(ls, start, i, base, today) matches Some(s) ==> forall|k: int|
            0 <= k < s.len() ==> crate::item::deep_sorted(#[trigger] s[k].items),
    decreases ls.len() - start, 0int, ls.len() - i,
{
    if i < start || i < 0 || i >= ls.len() {
    } else {
        let cur = crate::text::indentation(ls[i]);
        if cur < base {
        } else if cur > base {
            lemma_level_sorted(ls, start, i + 1, base, today);
        } else {
            let next = if i < ls.len() - 1 {
                crate::text::indentation(ls[i + 1])
            } else {
                0
            };
            lemma_level_sorted(ls, start, i + 1, base, today);
            if cur < next {
                lemma_parse_sorted(ls, i + 1, today);
            }
            let subs = if cur < next {
                parse_block(ls, i + 1, today)
            } else {
                Some(Seq::empty())
            };
            match subs {
                Some(sub) => {
                    assert(forall|k: int|
                        0 <= k < sub.len() ==> crate::item::deep_sorted(#[trigger] sub[k].items));
                    crate::item::lemma_sort_deep(sub);
                    match level_items(ls, start, i, base, today) {
                        Some(s) => {
                            let rest = level_items(ls, start, i + 1, base, today)->Some_0;
                            assert forall|k: int| 0 <= k < s.len() implies crate::item::deep_sorted(
                                #[trigger] s[k].items,
                            ) by {
                                if k > 0 {
                                    assert(s[k] == rest[k - 1]);
                                }
                            }
                        },
                        None => {},
                    }
                },
                None => {},
            }
        }
    }
}

fn parse_block_exec(ls: &Vec<Vec<char>>, start: usize, today: &crate::date::Date) -> (r: Result<
    Vec<Item>,
    Error,
>)
    requires
        today.wf(),
    ensures
        match r {
            Ok(v) => parse_block(crate::text::views(ls@), start as int, *today) == Some(
                items_view(v@),
            ),
            Err(_) => parse_block(crate::text::views(ls@), start as int, *today) is None,
        },
        r matches Ok(v) ==> crate::item::dates_ok(items_view(v@)),
    decreases ls@.len() - start, 1int, 0int,
{
    if start >= ls.len() {
        let v: Vec<Item> = Vec::new();
        assert(items_view(v@) =~= Seq::<ItemView>::empty());
        return Ok(v);
    }
    let base = crate::text::indentation_of(&ls[start]);
    let level = level_exec(ls, start, start, base, today)?;
    proof {
        crate::item::lemma_sort_dates(items_view(level@));
    }
    Ok(crate::item::sort_list(level))
}

fn level_exec(
    ls: &Vec<Vec<char>>,
    start: usize,
    i: usize,
    base: usize,
    today: &crate::date::Date,
) -> (r: Result<Vec<Item>, Error>)
    requires
        today.wf(),
        start <= i,
    ensures
        match r {
            Ok(v) => level_items(crate::text::views(ls@), start as int, i as int, base as int, *today)
                == Some(items_view(v@)),
            Err(_) => level_items(
                crate::text::views(ls@),
                start as int,
                i as int,
                base as int,
                *today,
            ) is None,
        },
        r matches Ok(v) ==> crate::item::dates_ok(items_view(v@)),
    decreases ls@.len() - start, 0int, ls@.len() - i,
{
    if i >= ls.len() {
        let v: Vec<Item> = Vec::new();
        assert(items_view(v@) =~= Seq::<ItemView>::empty());
        return Ok(v);
    }
    let cur = crate::text::indentation_of(&ls[i]);
    if cur < base {
        let v: Vec<Item> = Vec::new();
        assert(items_view(v@) =~= Seq::<ItemView>::empty());
        return Ok(v);
    }
    if cur > base {
        return level_exec(ls, start, i + 1, base, today);
    }
    let next = if i < ls.len() - 1 {
        crate::text::indentation_of(&ls[i + 1])
    } else {
        0
    };
    let subs = if cur < next {
        parse_block_exec(ls, i + 1, today)?
    } else {
        let v: Vec<Item> = Vec::new();
        assert(items_view(v@) =~= Seq::<ItemView>::empty());
        v
    };
    let ghost sub_view = items_view(subs@);
    assert(crate::item::dates_ok(sub_view));
    let line = crate::text::string_from_chars(&ls[i]);
    let it = match Item::from(line, subs, *today) {
        Ok(it) => it,
        Err(e) => return Err(Error::wrap(CodeComponent::ListParser, "Could not read an item line.", e)),
    };
    let mut rest = level_exec(ls, start, i + 1, base, today)?;
    let ghost rb = rest@;
    rest.insert(0, it);
    proof {
        lemma_items_view(rb);
        lemma_items_view(rest@);
        assert(items_view(rest@) =~= seq![item_view(it)] + items_view(rb));
        crate::item::lemma_sort_dates(sub_view);
        let all = items_view(rest@);
        assert(all[0] == item_view(it));
        assert(item_view(it).items == crate::item::sort_items(sub_view));
        assert forall|k: int| 0 <= k < all.len() implies (#[trigger] all[k].date matches Some(d)
            ==> d.wf()) && crate::item::dates_ok(all[k].items) by {
            if k > 0 {
                assert(all[k] == items_view(rb)[k - 1]);
                assert(items_view(rb)[k - 1].date matches Some(d) ==> d.wf());
                assert(crate::item::dates_ok(items_view(rb)[k - 1].items));
            }
        }
    }
    Ok(rest)
}

/// Reads the item block of a document: one item per line, nesting by indentation, each
/// sibling list sorted.
pub fn parse_list(text: &str, today: crate::date::Date) -> (r: Result<Vec<Item>, Error>)
    requires
        today.wf(),
    ensures
        match r {
            Ok(v) => parse_block(lines(text@), 0, today) == Some(items_view(v@)),
            Err(_) => parse_block(lines(text@), 0, today) is None,
        },
        r matches Ok(v) ==> crate::item::deep_sorted(items_view(v@)),
        r matches Ok(v) ==> crate::item::dates_ok(items_view(v@)),
{
    let chars = chars_of(text);
    let ls = lines_of(&chars);
    let r = parse_block_exec(&ls, 0, &today);
    proof {
        lemma_parse_sorted(lines(text@), 0, today);
    }
    r
}

/// The operations on a list of items and the trees under them.
pub trait TodoList: Sized {
    spec fn entries(&self) -> Seq<Item>;

    /// Reads an item block against `today`.
    fn parse(file: String, today: crate::date::Date) -> (r: Result<Self, Error>)
        requires
            today.wf(),
        ensures
            match r {
                Ok(v) => parse_block(lines(file@), 0, today) == Some(items_view(v.entries())),
                Err(_) => parse_block(lines(file@), 0, today) is None,
            },
            r matches Ok(v) ==> crate::item::dates_ok(items_view(v.entries())),
    ;

    /// The items in their saved text form.
    fn to_save(&self) -> (r: String)
        requires
            crate::item::dates_ok(items_view(self.entries())),
        ensures
            r@ == crate::item::items_text(items_view(self.entries()), 0),
    ;

    /// The item that `path` names, to be changed in place.
    fn find<'a>(&'a mut self, path: &ItemPath) -> (r: Result<&'a mut Item, Error>)
        ensures
            match r {
                Ok(it) => resolve(items_view(old(self).entries()), path.prefixes(), 0) matches Some(
                    p,
                ) && item_view(*it) == item_at(items_view(old(self).entries()), p) && items_view(
                    final(self).entries(),
                ) == replace_at(items_view(old(self).entries()), p, item_view(*final(it))),
                Err(_) => resolve(items_view(old(self).entries()), path.prefixes(), 0) is None
                    && final(self).entries() == old(self).entries(),
            },
    ;

    /// Appends `item` at the root where `path` has no prefixes, else under the item it names.
    fn add_item(&mut self, item: Item, path: ItemPath) -> (r: Result<(), Error>)
        ensures
            path.prefixes().len() == 0 ==> r is Ok && items_view(final(self).entries()) == items_view(
                old(self).entries(),
            ).push(item@),
            path.prefixes().len() > 0 ==> match resolve(
                items_view(old(self).entries()),
                path.prefixes(),
                0,
            ) {
                Some(p) => r is Ok && items_view(final(self).entries()) == push_at(
                    items_view(old(self).entries()),
                    p,
                    item@,
                ),
                None => r is Err && final(self).entries() == old(self).entries(),
            },
    ;

    /// The items as the full tree below the guides in `lines`, urgency taken against `today`.
    fn format(&self, lines: Vec<bool>, today: &crate::date::Date) -> (r: Result<
        crate::output::OutputBuffer,
        Error,
    >)
        requires
            today.wf(),
            crate::item::dates_ok(items_view(self.entries())),
        ensures
            crate::format::agrees_buffer(
                r,
                crate::format::forest_lines(
                    items_view(self.entries()),
                    self.entries().len() as int,
                    lines@,
                    *today,
                ),
            ),
    ;

    /// The items' boxes and names as a tree below the guides in `lines`.
    fn format_overview(&self, lines: Vec<bool>, today: &crate::date::Date) -> (r: Result<
        crate::output::OutputBuffer,
        Error,
    >)
        requires
            today.wf(),
            crate::item::dates_ok(items_view(self.entries())),
        ensures
            crate::format::agrees_buffer(
                r,
                crate::format::overview_forest(
                    items_view(self.entries()),
                    self.entries().len() as int,
                    lines@,
                    *today,
                ),
            ),
    ;

    /// Removes, at every depth, the items for which `predicate` holds.
    fn recursive_filter<F: Fn(&Item) -> bool>(&mut self, predicate: &F)
        requires
            decides(*predicate),
        ensures
            items_view(final(self).entries()) == filtered(old(self).entries(), *predicate),
    ;

    /// Marks every completed item archived, at every depth.
    fn prune(&mut self)
        ensures
            items_view(final(self).entries()) == prune_all(items_view(old(self).entries())),
    ;

    /// Takes the item that `path` names out of the tree and returns it.
    fn remove_by_path(&mut self, path: &ItemPath) -> (r: Result<Item, Error>)
        ensures
            match resolve(items_view(old(self).entries()), path.prefixes(), 0) {
                Some(p) => r matches Ok(it) && it@ == item_at(items_view(old(self).entries()), p)
                    && items_view(final(self).entries()) == remove_at(
                    items_view(old(self).entries()),
                    p,
                ),
                None => r is Err && final(self).entries() == old(self).entries(),
            },
    ;
}

impl TodoList for List {
    open spec fn entries(&self) -> Seq<Item> {
        self@
    }

    fn parse(file: String, today: crate::date::Date) -> (r: Result<Self, Error>) {
        parse_list(file.as_str(), today)
    }

    fn to_save(&self) -> (r: String) {
        crate::item::items_to_string(self)
    }

    fn find<'a>(&'a mut self, path: &ItemPath) -> (r: Result<&'a mut Item, Error>) {
        find(self, path)
    }

    fn add_item(&mut self, item: Item, path: ItemPath) -> (r: Result<(), Error>) {
        add_item(self, item, &path)
    }

    fn format(&self, lines: Vec<bool>, today: &crate::date::Date) -> (r: Result<
        crate::output::OutputBuffer,
        Error,
    >) {
        crate::format::format_list(self, lines, today)
    }

    fn format_overview(&self, lines: Vec<bool>, today: &crate::date::Date) -> (r: Result<
        crate::output::OutputBuffer,
        Error,
    >) {
        crate::format::format_list_overview(self, lines, today)
    }

    fn recursive_filter<F: Fn(&Item) -> bool>(&mut self, predicate: &F) {
        recursive_filter(self, predicate)
    }

    fn prune(&mut self) {
        prune(self)
    }

    fn remove_by_path(&mut self, path: &ItemPath) -> (r: Result<Item, Error>) {
        remove_by_path(self, path)
    }
}

/// `i` comes before `j` when ordering by priority: higher priority first, then lower index.
pub open spec fn ranks_before(p: Seq<i64>, i: int, j: int) -> bool {
    p[i] > p[j] || (p[i] == p[j] && i < j)
}

/// Indices of `priorities` from the highest priority to the lowest, equal priorities in
/// the order they come in.
pub fn priority_order(priorities: &Vec<i64>) -> (r: Vec<usize>)
    ensures
        r@.len() == priorities@.len(),
        forall|k: int| 0 <= k < r@.len() ==> #[trigger] r@[k] < priorities@.len(),
        forall|a: int, b: int|
            0 <= a < b < r@.len() ==> ranks_before(priorities@, #[trigger] r@[a] as int, #[trigger] r@[b] as int),
{
    let ghost p = priorities@;
    let mut out: Vec<usize> = Vec::new();
    let mut k: usize = 0;
    while k < priorities.len()
        invariant
            p == priorities@,
            k <= p.len(),
            out@.len() == k,
            forall|x: int| 0 <= x < out@.len() ==> #[trigger] out@[x] < k,
            forall|a: int, b: int|
                0 <= a < b < out@.len() ==> ranks_before(p, #[trigger] out@[a] as int, #[trigger] out@[b] as int),
        decreases p.len() - k,
    {
        let mut pos: usize = 0;
        while pos < out.len() && priorities[out[pos]] >= priorities[k]
            invariant
                p == priorities@,
                k < p.len(),
                pos <= out@.len(),
                forall|x: int| 0 <= x < out@.len() ==> #[trigger] out@[x] < k,
                forall|x: int| 0 <= x < pos ==> ranks_before(p, #[trigger] out@[x] as int, k as int),
            decreases out@.len() - pos,
        {
            pos += 1;
        }
        let ghost before = out@;
        out.insert(pos, k);
        proof {
            assert forall|a: int, b: int| 0 <= a < b < out@.len() implies ranks_before(
                p,
                #[trigger] out@[a] as int,
                #[trigger] out@[b] as int,
            ) by {
                if b < pos {
                    assert(out@[a] == before[a] && out@[b] == before[b]);
                } else if b == pos {
                    assert(out@[a] == before[a]);
                } else if a == pos {
                    assert(out@[b] == before[b - 1]);
                    assert(p[before[pos as int] as int] < p[k as int]);
                    if b - 1 > pos {
                        assert(ranks_before(p, before[pos as int] as int, before[b - 1] as int));
                    }
                } else if a < pos {
                    assert(out@[a] == before[a] && out@[b] == before[b - 1]);
                } else {
                    assert(out@[a] == before[a - 1] && out@[b] == before[b - 1]);
                }
            }
            assert forall|x: int| 0 <= x < out@.len() implies #[trigger] out@[x] < k + 1 by {
                if x < pos {
                    assert(out@[x] == before[x]);
                } else if x > pos {
                    assert(out@[x] == before[x - 1]);
                }
            }
        }
        k += 1;
    }
    out
}

/// An item whose own line reads back as its fields and stays one line.
pub open spec fn plain_fields(v: ItemView) -> bool {
    &&& crate::item::clean_name(v.name)
    &&& forall|i: int| 0 <= i < v.name.len() ==> v.name[i] != '\n'
    &&& v.archived ==> v.completed
    &&& i64::MIN <= v.priority <= i64::MAX
    &&& v.date matches Some(d) ==> d.wf() && d.year >= 1000
}

pub open spec fn no_char(s: Seq<char>, c: char) -> bool {
    forall|i: int| 0 <= i < s.len() ==> s[i] != c
}

proof fn lemma_no_char_concat(a: Seq<char>, b: Seq<char>, c: char)
    requires
        no_char(a, c),
        no_char(b, c),
    ensures
        no_char(a + b, c),
{
    assert forall|i: int| 0 <= i < (a + b).len() implies (a + b)[i] != c by {
        if i >= a.len() {
            assert((a + b)[i] == b[i - a.len()]);
        }
    }
}

spec fn line_head(v: ItemView) -> Seq<char> {
    seq!['-', ' ', '[', crate::item::state_char(v), ']', ' ']
}

spec fn prio_tag(v: ItemView) -> Seq<char> {
    if v.priority != 0 {
        seq!['\\'] + crate::text::int_text(v.priority)
    } else {
        Seq::empty()
    }
}

spec fn date_tag(v: ItemView) -> Seq<char> {
    match v.date {
        Some(d) => seq!['\\'] + crate::date::date_text(d),
        None => Seq::empty(),
    }
}

spec fn tag_end(v: ItemView) -> Seq<char> {
    if v.priority != 0 || v.date is Some {
        seq!['\\', ' ']
    } else {
        Seq::<char>::empty()
    }
}

proof fn lemma_line_pieces(v: ItemView)
    ensures
        crate::item::line_text(v, 0) == line_head(v) + prio_tag(v) + date_tag(v) + tag_end(v) + v.name
            + seq!['\n'],
{
    reveal_strlit("- [");
    reveal_strlit("] ");
    reveal_strlit("\\");
    reveal_strlit("\\ ");
    reveal_strlit("\n");
    reveal_strlit(" ");
    assert(crate::error::repeat(" "@, 0) =~= Seq::<char>::empty());
    assert(crate::item::line_text(v, 0) =~= line_head(v) + prio_tag(v) + date_tag(v) + tag_end(v)
        + v.name + seq!['\n']);
}

proof fn lemma_prio_tag(v: ItemView)
    requires
        i64::MIN <= v.priority <= i64::MAX,
    ensures
        no_char(prio_tag(v), '\n'),
{
    if v.priority != 0 {
        let p = crate::text::int_text(v.priority);
        crate::text::lemma_int_text(v.priority);
        let pp = prio_tag(v);
        assert forall|i: int| 0 <= i < pp.len() implies pp[i] != '\n' by {
            if i > 0 {
                assert(pp[i] == p[i - 1]);
                assert(p[i - 1] == '-' || crate::text::is_digit(p[i - 1]));
            }
        }
    }
}

proof fn lemma_date_tag(v: ItemView)
    requires
        v.date matches Some(d) ==> d.wf(),
    ensures
        no_char(date_tag(v), '\n'),
{
    if let Some(d) = v.date {
        let dt = crate::date::date_text(d);
        crate::date::lemma_date_text_line(d);
        let dd = date_tag(v);
        assert forall|i: int| 0 <= i < dd.len() implies dd[i] != '\n' by {
            if i > 0 {
                assert(dd[i] == dt[i - 1]);
            }
        }
    }
}

proof fn lemma_line0(v: ItemView)
    requires
        plain_fields(v),
    ensures
        ({
            let t = crate::item::line_text(v, 0);
            &&& t.len() > 1
            &&& t.last() == '\n'
            &&& t.drop_last()[0] == '-'
            &&& t.drop_last().last() != '\r'
            &&& no_char(t.drop_last(), '\n')
        }),
{
    let head = line_head(v);
    let pp = prio_tag(v);
    let dd = date_tag(v);
    let tt = tag_end(v);
    let t = crate::item::line_text(v, 0);
    lemma_line_pieces(v);
    lemma_prio_tag(v);
    lemma_date_tag(v);
    assert(no_char(head, '\n'));
    assert(no_char(tt, '\n'));
    lemma_no_char_concat(head, pp, '\n');
    lemma_no_char_concat(head + pp, dd, '\n');
    lemma_no_char_concat(head + pp + dd, tt, '\n');
    lemma_no_char_concat(head + pp + dd + tt, v.name, '\n');
    assert(t.drop_last() =~= head + pp + dd + tt + v.name);
    if v.name.len() > 0 {
        assert(t.drop_last().last() == v.name.last());
    } else if v.priority != 0 || v.date is Some {
        assert(v.name =~= Seq::<char>::empty());
        assert(t.drop_last() =~= head + pp + dd + tt);
        assert(t.drop_last().last() == ' ');
    } else {
        assert(t.drop_last() =~= head);
    }
}

/// Every item in the tree reads back from its own line and stays one line.
pub open spec fn plain_tree(s: Seq<ItemView>) -> bool
    decreases s,
{
    forall|k: int| 0 <= k < s.len() ==> plain_fields(#[trigger] s[k]) && plain_tree(s[k].items)
}

/// The saved lines of an item and its children, each without its line break.
pub open spec fn saved_lines(v: ItemView, d: nat) -> Seq<Seq<char>>
    decreases v, 1int,
{
    seq![crate::item::line_text(v, d).drop_last()] + saved_list(v.items, d + 1)
}

/// The saved lines of a sibling list at indentation `d`.
pub open spec fn saved_list(s: Seq<ItemView>, d: nat) -> Seq<Seq<char>>
    decreases s, 0int,
{
    if s.len() == 0 {
        Seq::empty()
    } else {
        saved_list(s.drop_last(), d) + saved_lines(s.last(), d)
    }
}

/// The item with every sibling list under it sorted.
pub open spec fn sort_item_tree(v: ItemView) -> ItemView
    decreases v, 1int,
{
    ItemView { items: sort_tree(v.items), ..v }
}

pub open spec fn sort_each(s: Seq<ItemView>) -> Seq<ItemView>
    decreases s, 0int,
{
    if s.len() == 0 {
        s
    } else {
        sort_each(s.drop_last()).push(sort_item_tree(s.last()))
    }
}

/// Every sibling list in the tree stably sorted, open items first, then by priority.
pub open spec fn sort_tree(s: Seq<ItemView>) -> Seq<ItemView>
    decreases s, 2int,
{
    crate::item::sort_items(sort_each(s))
}

proof fn lemma_sort_each(s: Seq<ItemView>)
    ensures
        sort_each(s).len() == s.len(),
        forall|k: int| 0 <= k < s.len() ==> #[trigger] sort_each(s)[k] == sort_item_tree(s[k]),
    decreases s.len(),
{
    if s.len() > 0 {
        lemma_sort_each(s.drop_last());
    }
}

/// Sorting a sorted list leaves it as it is.
pub proof fn lemma_sort_sorted(s: Seq<ItemView>)
    requires
        crate::item::sorted(s),
    ensures
        crate::item::sort_items(s) == s,
    decreases s.len(),
{
    if s.len() > 0 {
        let t = s.drop_last();
        assert(crate::item::sorted(t)) by {
            assert forall|i: int, j: int| 0 <= i < j < t.len() implies !crate::item::goes_before(
                #[trigger] t[j],
                #[trigger] t[i],
            ) by {
                assert(t[i] == s[i] && t[j] == s[j]);
            }
        }
        lemma_sort_sorted(t);
        assert(t.push(s.last()) =~= s);
        lemma_insert_end(t, s.last(), 0, s);
        assert(t.insert(t.len() as int, s.last()) =~= s);
    }
}

proof fn lemma_insert_end(t: Seq<ItemView>, x: ItemView, k: int, s: Seq<ItemView>)
    requires
        0 <= k <= t.len(),
        s == t.push(x),
        crate::item::sorted(s),
    ensures
        crate::item::insert_pos(t, x, k) == t.len(),
    decreases t.len() - k,
{
    if k < t.len() {
        assert(s[k] == t[k] && s[t.len() as int] == x);
        lemma_insert_end(t, x, k + 1, s);
    }
}

proof fn lemma_sort_tree_sorted(s: Seq<ItemView>)
    ensures
        crate::item::sort_items(sort_tree(s)) == sort_tree(s),
{
    crate::item::lemma_sort_items(sort_each(s));
    lemma_sort_sorted(sort_tree(s));
}

proof fn lemma_text_item(v: ItemView, d: nat)
    ensures
        crate::item::item_text(v, d) == crate::document::with_breaks(saved_lines(v, d)),
    decreases v, 1int,
{
    reveal_strlit("\n");
    lemma_text_list(v.items, d + 1);
    let t = crate::item::line_text(v, d);
    assert(t.last() == '\n');
    assert(t.drop_last().push('\n') =~= t);
    crate::document::lemma_one_line(t.drop_last());
    crate::document::lemma_with_breaks_concat(seq![t.drop_last()], saved_list(v.items, d + 1));
}

proof fn lemma_text_list(s: Seq<ItemView>, d: nat)
    ensures
        crate::item::items_text(s, d) == crate::document::with_breaks(saved_list(s, d)),
    decreases s, 0int,
{
    if s.len() > 0 {
        lemma_text_list(s.drop_last(), d);
        lemma_text_item(s.last(), d);
        crate::document::lemma_with_breaks_concat(saved_list(s.drop_last(), d), saved_lines(s.last(), d));
    }
}

/// A saved line: not empty, no line break, no carriage return at its end, and indented at
/// least `d` spaces.
pub open spec fn good_line(l: Seq<char>, d: nat) -> bool {
    &&& l.len() > 0
    &&& no_char(l, '\n')
    &&& l.last() != '\r'
    &&& crate::text::indentation(l) >= d
}

proof fn lemma_line_d(v: ItemView, d: nat)
    requires
        plain_fields(v),
    ensures
        good_line(crate::item::line_text(v, d).drop_last(), d),
        crate::text::indentation(crate::item::line_text(v, d).drop_last()) == d,
{
    lemma_line0(v);
    let sp = crate::error::repeat(" "@, d);
    crate::text::lemma_repeat_spaces(d);
    let l0 = crate::item::line_text(v, 0).drop_last();
    let l = crate::item::line_text(v, d).drop_last();
    assert(crate::error::repeat(" "@, 0) =~= Seq::<char>::empty());
    assert(l =~= sp + l0);
    assert(no_char(sp, '\n'));
    lemma_no_char_concat(sp, l0, '\n');
    assert(l[d as int] == l0[0]);
    crate::text::lemma_skip_spaces_from(l, d, 0);
    assert(l.last() == l0.last());
}

proof fn lemma_saved_item(v: ItemView, d: nat)
    requires
        plain_fields(v),
        plain_tree(v.items),
    ensures
        saved_lines(v, d)[0] == crate::item::line_text(v, d).drop_last(),
        crate::text::indentation(saved_lines(v, d)[0]) == d,
        forall|k: int| 0 <= k < saved_lines(v, d).len() ==> good_line(#[trigger] saved_lines(v, d)[k], d),
        forall|k: int|
            1 <= k < saved_lines(v, d).len() ==> crate::text::indentation(#[trigger] saved_lines(v, d)[k]) > d,
    decreases v, 1int,
{
    lemma_line_d(v, d);
    lemma_saved_list(v.items, d + 1);
    let a = seq![crate::item::line_text(v, d).drop_last()];
    let b = saved_list(v.items, d + 1);
    assert forall|k: int| 0 <= k < (a + b).len() implies good_line(#[trigger] (a + b)[k], d) && (k
        >= 1 ==> crate::text::indentation((a + b)[k]) > d) by {
        if k >= 1 {
            assert((a + b)[k] == b[k - 1]);
            assert(good_line(b[k - 1], d + 1));
        }
    }
}

proof fn lemma_saved_list(s: Seq<ItemView>, d: nat)
    requires
        plain_tree(s),
    ensures
        forall|k: int| 0 <= k < saved_list(s, d).len() ==> good_line(#[trigger] saved_list(s, d)[k], d),
    decreases s, 0int,
{
    if s.len() > 0 {
        let t = s.drop_last();
        assert(plain_tree(t)) by {
            assert forall|k: int| 0 <= k < t.len() implies plain_fields(#[trigger] t[k]) && plain_tree(t[k].items) by {
                assert(t[k] == s[k]);
            }
        }
        assert(plain_fields(s[s.len() - 1]) && plain_tree(s[s.len() - 1].items));
        lemma_saved_list(t, d);
        lemma_saved_item(s.last(), d);
        let a = saved_list(t, d);
        let b = saved_lines(s.last(), d);
        assert forall|k: int| 0 <= k < (a + b).len() implies good_line(#[trigger] (a + b)[k], d) by {
            if k >= a.len() {
                assert((a + b)[k] == b[k - a.len()]);
            }
        }
    }
}

proof fn lemma_saved_front(s: Seq<ItemView>, d: nat)
    requires
        s.len() > 0,
    ensures
        saved_list(s, d) == saved_lines(s[0], d) + saved_list(s.drop_first(), d),
    decreases s.len(),
{
    if s.len() == 1 {
        assert(s.drop_last() =~= Seq::<ItemView>::empty());
        assert(s.drop_first() =~= Seq::<ItemView>::empty());
        assert(saved_list(s, d) =~= saved_lines(s[0], d) + saved_list(s.drop_first(), d));
    } else {
        let t = s.drop_last();
        lemma_saved_front(t, d);
        assert(t[0] == s[0]);
        assert(t.drop_first() =~= s.drop_first().drop_last());
        assert(s.drop_first().last() == s.last());
        assert(saved_list(s, d) =~= saved_lines(s[0], d) + saved_list(s.drop_first(), d));
    }
}

proof fn lemma_sort_each_front(s: Seq<ItemView>)
    requires
        s.len() > 0,
    ensures
        sort_each(s) == seq![sort_item_tree(s[0])] + sort_each(s.drop_first()),
{
    lemma_sort_each(s);
    lemma_sort_each(s.drop_first());
    assert(sort_each(s) =~= seq![sort_item_tree(s[0])] + sort_each(s.drop_first()));
}

proof fn lemma_level_skip(ls: Seq<Seq<char>>, start: int, i: int, j: int, d: nat, today: crate::date::Date)
    requires
        0 <= start <= i <= j <= ls.len(),
        forall|k: int| i <= k < j ==> crate::text::indentation(#[trigger] ls[k]) > d,
    ensures
        level_items(ls, start, i, d as int, today) == level_items(ls, start, j, d as int, today),
    decreases j - i,
{
    if i < j {
        lemma_level_skip(ls, start, i + 1, j, d, today);
    }
}

#[verifier::rlimit(100)]
proof fn lemma_level_tree(
    ls: Seq<Seq<char>>,
    start: int,
    p: int,
    s: Seq<ItemView>,
    q: int,
    d: nat,
    today: crate::date::Date,
)
    requires
        0 <= start <= p <= q <= ls.len(),
        ls.subrange(p, q) == saved_list(s, d),
        q < ls.len() ==> crate::text::indentation(ls[q]) < d,
        plain_tree(s),
    ensures
        level_items(ls, start, p, d as int, today) == Some(sort_each(s)),
    decreases s, 0int,
{
    if s.len() == 0 {
        assert(saved_list(s, d).len() == 0);
        assert(p == q);
    } else {
        let v = s[0];
        let rest = s.drop_first();
        assert(plain_fields(s[0]) && plain_tree(s[0].items));
        assert(plain_tree(rest)) by {
            assert forall|k: int| 0 <= k < rest.len() implies plain_fields(#[trigger] rest[k]) && plain_tree(rest[k].items) by {
                assert(rest[k] == s[k + 1]);
            }
        }
        lemma_saved_front(s, d);
        lemma_saved_item(v, d);
        let sl = saved_lines(v, d);
        let sr = saved_list(rest, d);
        let c = p + sl.len();
        assert(ls.subrange(p, q).len() == q - p);
        assert(sl.len() + sr.len() == q - p);
        assert(ls.subrange(p, c) =~= sl) by {
            assert forall|k: int| 0 <= k < sl.len() implies ls.subrange(p, c)[k] == sl[k] by {
                assert(ls.subrange(p, q)[k] == ls[p + k]);
                assert((sl + sr)[k] == sl[k]);
            }
        }
        assert(ls.subrange(c, q) =~= sr) by {
            assert forall|k: int| 0 <= k < q - c implies ls.subrange(c, q)[k] == sr[k] by {
                assert(ls.subrange(p, q)[c - p + k] == ls[c + k]);
                assert((sl + sr)[c - p + k] == sr[k]);
            }
        }
        assert(ls[p] == sl[0]);
        let line = crate::item::line_text(v, d).drop_last();
        // The line after the children: a later sibling at `d`, or what follows the list.
        assert(c < ls.len() ==> crate::text::indentation(ls[c]) <= d) by {
            if c < ls.len() {
                if rest.len() > 0 {
                    lemma_saved_front(rest, d);
                    lemma_saved_item(rest[0], d);
                    assert(plain_fields(rest[0]) && plain_tree(rest[0].items));
                    assert(ls[c] == ls.subrange(c, q)[0]);
                } else {
                    assert(c == q);
                }
            }
        }
        assert forall|k: int| p + 1 <= k < c implies crate::text::indentation(#[trigger] ls[k]) > d by {
            assert(ls[k] == sl[k - p]);
        }
        let sub = sort_tree(v.items);
        if v.items.len() > 0 {
            lemma_saved_front(v.items, d + 1);
            assert(plain_fields(v.items[0]) && plain_tree(v.items[0].items));
            lemma_saved_item(v.items[0], d + 1);
            assert(ls[p + 1] == sl[1]);
            assert(crate::text::indentation(ls[p + 1]) == d + 1);
            let cl = saved_list(v.items, d + 1);
            assert(ls.subrange(p + 1, c) =~= cl) by {
                assert forall|k: int| 0 <= k < c - p - 1 implies ls.subrange(p + 1, c)[k] == cl[k] by {
                    assert(ls[p + 1 + k] == sl[k + 1]);
                }
            }
            lemma_level_tree(ls, p + 1, p + 1, v.items, c, d + 1, today);
            assert(parse_block(ls, p + 1, today) == Some(sub));
        } else {
            assert(sub =~= Seq::<ItemView>::empty()) by {
                assert(sort_each(v.items) =~= Seq::<ItemView>::empty());
            }
            assert(sl.len() == 1) by {
                assert(saved_list(v.items, d + 1) =~= Seq::<Seq<char>>::empty());
            }
        }
        lemma_sort_tree_sorted(v.items);
        crate::item::lemma_line_round_trip(v, d, today);
        assert(crate::item::line_item(line, sub, today) == Some(sort_item_tree(v)));
        lemma_level_skip(ls, start, p + 1, c, d, today);
        lemma_level_tree(ls, start, c, rest, q, d, today);
        lemma_sort_each_front(s);
    }
}

/// Saving a list of items, nested to any depth, and reading the text back gives the same
/// tree with every sibling list stably sorted (open items first, then by priority).
pub proof fn lemma_tree_round_trip(s: Seq<ItemView>, today: crate::date::Date)
    requires
        plain_tree(s),
    ensures
        parse_block(lines(crate::item::items_text(s, 0)), 0, today) == Some(sort_tree(s)),
{
    lemma_saved_lines_read(s);
    lemma_saved_parse(s, today);
}

/// The saved lines of a tree parse back as the tree with every sibling list sorted.
pub proof fn lemma_saved_parse(s: Seq<ItemView>, today: crate::date::Date)
    requires
        plain_tree(s),
    ensures
        parse_block(saved_list(s, 0), 0, today) == Some(sort_tree(s)),
{
    let ls = saved_list(s, 0);
    if s.len() == 0 {
        assert(sort_each(s) =~= Seq::<ItemView>::empty());
    } else {
        lemma_saved_front(s, 0);
        assert(plain_fields(s[0]) && plain_tree(s[0].items));
        lemma_saved_item(s[0], 0);
        assert(ls[0] == saved_lines(s[0], 0)[0]);
        assert(ls.subrange(0, ls.len() as int) == ls);
        lemma_level_tree(ls, 0, 0, s, ls.len() as int, 0, today);
    }
}

/// The lines of a saved tree are its saved lines.
pub proof fn lemma_saved_lines_read(s: Seq<ItemView>)
    requires
        plain_tree(s),
    ensures
        lines(crate::item::items_text(s, 0)) == saved_list(s, 0),
        crate::text::split(crate::item::items_text(s, 0), '\n') == saved_list(s, 0).push(Seq::empty()),
        forall|k: int| 0 <= k < saved_list(s, 0).len() ==> good_line(#[trigger] saved_list(s, 0)[k], 0),
{
    let ls = saved_list(s, 0);
    lemma_text_list(s, 0);
    lemma_saved_list(s, 0);
    assert forall|k: int| 0 <= k < ls.len() implies no_char(#[trigger] ls[k], '\n') by {
        assert(good_line(ls[k], 0));
    }
    crate::document::lemma_with_breaks_split(ls);
    assert forall|k: int| 0 <= k < ls.len() implies #[trigger] lines(crate::item::items_text(s, 0))[k] == ls[k] by {
        assert(good_line(ls[k], 0));
    }
    assert(lines(crate::item::items_text(s, 0)) =~= ls);
}

/// Index path of the first item, in preorder (an item before its children, then its next
/// sibling), whose name starts with `prefix` ignoring ASCII case; siblings searched from `k`.
pub open spec fn preorder_find(s: Seq<ItemView>, prefix: Seq<char>, k: int) -> Option<Seq<int>>
    decreases s, s.len() - k,
{
    if k < 0 || k >= s.len() {
        None
    } else if name_matches(prefix, s[k].name) {
        Some(seq![k])
    } else {
        match preorder_find(s[k].items, prefix, 0) {
            Some(q) => Some(seq![k] + q),
            None => preorder_find(s, prefix, k + 1),
        }
    }
}

proof fn lemma_preorder_valid(s: Seq<ItemView>, prefix: Seq<char>, k: int)
    ensures
        preorder_find(s, prefix, k) matches Some(p) ==> valid_path(s, p) && k <= p[0],
    decreases s, s.len() - k,
{
    if 0 <= k < s.len() && !name_matches(prefix, s[k].name) {
        lemma_preorder_valid(s[k].items, prefix, 0);
        lemma_preorder_valid(s, prefix, k + 1);
        match preorder_find(s[k].items, prefix, 0) {
            Some(q) => {
                assert((seq![k] + q).drop_first() == q);
            },
            None => {},
        }
    }
}

fn prepend_index(k: usize, q: &Vec<usize>) -> (r: Vec<usize>)
    ensures
        indices(r@) == seq![k as int] + indices(q@),
{
    let mut v: Vec<usize> = Vec::new();
    v.push(k);
    let mut j: usize = 0;
    while j < q.len()
        invariant
            j <= q@.len(),
            indices(v@) == seq![k as int] + indices(q@).subrange(0, j as int),
        decreases q@.len() - j,
    {
        let ghost vb = v@;
        v.push(q[j]);
        assert(v@ == vb.push(q@[j as int]));
        assert(indices(v@) =~= indices(vb).push(q@[j as int] as int));
        assert(indices(q@).subrange(0, j + 1) =~= indices(q@).subrange(0, j as int).push(
            q@[j as int] as int,
        ));
        j += 1;
    }
    assert(indices(q@).subrange(0, q@.len() as int) == indices(q@));
    assert(indices(v@) =~= seq![k as int] + indices(q@));
    v
}

fn preorder_exec(
    items: &Vec<Item>,
    low: &Vec<char>,
    Ghost(prefix): Ghost<Seq<char>>,
    Ghost(bound): Ghost<nat>,
) -> (r: Option<Vec<usize>>)
    requires
        low@ == crate::text::lower(prefix),
        heights(items_view(items@)) <= bound,
    ensures
        match r {
            Some(p) => preorder_find(items_view(items@), prefix, 0) == Some(indices(p@)),
            None => preorder_find(items_view(items@), prefix, 0) is None,
        },
    decreases bound,
{
    let ghost sv = items_view(items@);
    proof {
        lemma_items_view(items@);
        crate::item::lemma_height_bounds(sv);
    }
    let mut k: usize = 0;
    while k < items.len()
        invariant
            low@ == crate::text::lower(prefix),
            sv == items_view(items@),
            sv.len() == items@.len(),
            forall|j: int| 0 <= j < items@.len() ==> #[trigger] sv[j] == item_view(items@[j]),
            forall|j: int| 0 <= j < sv.len() ==> height(#[trigger] sv[j]) <= heights(sv),
            forall|j: int| 0 <= j < sv.len() ==> heights(#[trigger] sv[j].items) < height(sv[j]),
            heights(sv) <= bound,
            k <= items@.len(),
            preorder_find(sv, prefix, k as int) == preorder_find(sv, prefix, 0),
        decreases items@.len() - k,
    {
        let nc = chars_of(items[k].name.as_str());
        let nm = lower_of(&nc);
        assert(sv[k as int] == item_view(items@[k as int]));
        assert(sv[k as int].name == items@[k as int].name@);
        if starts_with(&nm, low) {
            let mut v: Vec<usize> = Vec::new();
            v.push(k);
            assert(indices(v@) =~= seq![k as int]);
            return Some(v);
        }
        assert(sv[k as int].items == items_view(items@[k as int].items@));
        assert(height(sv[k as int]) <= heights(sv));
        match preorder_exec(&items[k].items, low, Ghost(prefix), Ghost((bound - 1) as nat)) {
            Some(q) => {
                return Some(prepend_index(k, &q));
            },
            None => {},
        }
        k += 1;
    }
    None
}

fn find_first(items: &Vec<Item>, prefix: &String) -> (r: Option<Vec<usize>>)
    ensures
        match r {
            Some(p) => preorder_find(items_view(items@), prefix@, 0) == Some(indices(p@))
                && valid_path(items_view(items@), indices(p@)),
            None => preorder_find(items_view(items@), prefix@, 0) is None,
        },
{
    let pc = chars_of(prefix.as_str());
    let low = lower_of(&pc);
    let r = preorder_exec(items, &low, Ghost(prefix@), Ghost(heights(items_view(items@))));
    proof {
        lemma_preorder_valid(items_view(items@), prefix@, 0);
    }
    r
}

/// Marks completed the first item, in preorder, whose name starts with `prefix` ignoring ASCII
/// case; says whether there was one.
pub fn complete_item(list: &mut Vec<Item>, prefix: String) -> (r: bool)
    ensures
        match preorder_find(items_view(old(list)@), prefix@, 0) {
            Some(p) => r && items_view(final(list)@) == replace_at(
                items_view(old(list)@),
                p,
                ItemView { completed: true, ..item_at(items_view(old(list)@), p) },
            ),
            None => !r && *final(list) == *old(list),
        },
{
    match find_first(list, &prefix) {
        None => false,
        Some(idx) => {
            assert(indices(idx@).subrange(0, idx@.len() as int) == indices(idx@));
            let it = item_at_mut(list, &idx, 0);
            it.completed = true;
            true
        },
    }
}

/// Flips the completion of the first item, in preorder, whose name starts with `prefix`
/// ignoring ASCII case; says whether there was one.
pub fn toggle_item(list: &mut Vec<Item>, prefix: String) -> (r: bool)
    ensures
        match preorder_find(items_view(old(list)@), prefix@, 0) {
            Some(p) => r && items_view(final(list)@) == replace_at(
                items_view(old(list)@),
                p,
                ItemView {
                    completed: !item_at(items_view(old(list)@), p).completed,
                    ..item_at(items_view(old(list)@), p)
                },
            ),
            None => !r && *final(list) == *old(list),
        },
{
    match find_first(list, &prefix) {
        None => false,
        Some(idx) => {
            assert(indices(idx@).subrange(0, idx@.len() as int) == indices(idx@));
            let it = item_at_mut(list, &idx, 0);
            it.completed = !it.completed;
            true
        },
    }
}

} // verus!
