//! Pages of items: the live items, and the items that a search finds.
//!
//! A page lists items from the newest to the oldest. An offset below zero
//! counts as zero, and a limit below zero as no limit.

use crate::catalog::{
    clone_item, item_marks, items_view, lemma_item_count, opt_id, Catalog, CatalogView, Item,
    ItemView,
};
use crate::seqs::{kept, lemma_kept, lemma_kept_disjoint, lemma_kept_step};
use crate::tag::{carries_any, has_any_tag_item, TagGraph, TagGraphView};
use crate::text::{contains_folded, contains_ignoring_case, split_words, texts, words_of};
use vstd::prelude::*;

verus! {

/// Number of rows that a page skips.
pub open spec fn page_skip(len: int, offset: int) -> int {
    if offset <= 0 {
        0
    } else if offset >= len {
        len
    } else {
        offset
    }
}

/// Number of rows on a page.
pub open spec fn page_len(len: int, limit: int, offset: int) -> int {
    let avail = len - page_skip(len, offset);
    if limit < 0 || limit >= avail {
        avail
    } else {
        limit
    }
}

/// The page of `rows` that `limit` and `offset` select, the last row first.
pub open spec fn page_of(rows: Seq<ItemView>, limit: int, offset: int) -> Seq<ItemView> {
    Seq::new(
        page_len(rows.len() as int, limit, offset) as nat,
        |k: int| rows[rows.len() - 1 - page_skip(rows.len() as int, offset) - k],
    )
}

/// The page of the rows of `items` that `mask` selects, and their number.
fn select_page(items: &Vec<Item>, mask: &Vec<bool>, limit: i64, offset: i64) -> (r: (
    Vec<Item>,
    usize,
))
    requires
        mask@.len() == items@.len(),
    ensures
        items_view(r.0@) == page_of(kept(items_view(items@), mask@), limit as int, offset as int),
        r.1 == kept(items_view(items@), mask@).len(),
{
    let ghost all = items_view(items@);
    let mut picked: Vec<usize> = Vec::new();
    let mut i: usize = 0;
    assert(kept(all.take(0), mask@.take(0)) =~= Seq::<ItemView>::empty());
    while i < items.len()
        invariant
            i <= items@.len(),
            mask@.len() == items@.len(),
            all == items_view(items@),
            picked@.len() == kept(all.take(i as int), mask@.take(i as int)).len(),
            forall|k: int|
                0 <= k < picked@.len() ==> (#[trigger] picked@[k]) < items@.len() && all[picked@[k] as int]
                    == kept(all.take(i as int), mask@.take(i as int))[k],
        decreases items@.len() - i,
    {
        proof {
            lemma_kept_step(all, mask@, i as int);
        }
        let ghost before = picked@;
        let ghost rows = kept(all.take(i as int), mask@.take(i as int));
        let ghost next = kept(all.take(i + 1), mask@.take(i + 1));
        if mask[i] {
            picked.push(i);
        }
        assert forall|k: int| 0 <= k < picked@.len() implies (#[trigger] picked@[k]) < items@.len()
            && all[picked@[k] as int] == next[k] by {
            if k < before.len() {
                assert(picked@[k] == before[k]);
                assert(next[k] == rows[k]);
            }
        }
        i = i + 1;
    }
    assert(all.take(i as int) == all);
    assert(mask@.take(i as int) == mask@);
    let ghost rows = kept(all, mask@);
    let n = picked.len();
    let skip: usize = if offset <= 0 {
        0
    } else if offset as u64 >= n as u64 {
        n
    } else {
        offset as usize
    };
    let avail = n - skip;
    let count: usize = if limit < 0 || limit as u64 >= avail as u64 {
        avail
    } else {
        limit as usize
    };
    let mut out: Vec<Item> = Vec::new();
    let mut k: usize = 0;
    while k < count
        invariant
            k <= count <= avail,
            avail == n - skip,
            n == picked@.len(),
            n == rows.len(),
            all == items_view(items@),
            forall|j: int|
                0 <= j < picked@.len() ==> (#[trigger] picked@[j]) < items@.len() && all[picked@[j] as int]
                    == rows[j],
            out@.len() == k,
            forall|j: int| 0 <= j < k ==> (#[trigger] out@[j])@ == rows[n - 1 - skip - j],
        decreases count - k,
    {
        let at = picked[n - 1 - skip - k];
        out.push(clone_item(&items[at]));
        k = k + 1;
    }
    assert(items_view(out@) =~= page_of(rows, limit as int, offset as int));
    (out, n)
}

/// The live items: those whose mark is set.
pub open spec fn live_items(v: CatalogView) -> Seq<ItemView> {
    kept(v.items, item_marks(v.items))
}

/// A page of the live items, from the newest to the oldest, and the number
/// of all live items.
pub fn get(catalog: &Catalog, limit: i64, offset: i64) -> (r: (Vec<Item>, i64))
    requires
        catalog.wf(),
    ensures
        items_view(r.0@) == page_of(live_items(catalog@), limit as int, offset as int),
        r.1 == live_items(catalog@).len(),
{
    let items = catalog.items();
    let ghost all = items_view(items@);
    let mut mask: Vec<bool> = Vec::new();
    let mut i: usize = 0;
    while i < items.len()
        invariant
            i <= items@.len(),
            all == items_view(items@),
            mask@ == item_marks(all).take(i as int),
        decreases items@.len() - i,
    {
        mask.push(items[i].checked);
        assert(mask@ =~= item_marks(all).take(i + 1));
        i = i + 1;
    }
    assert(item_marks(all).take(i as int) =~= item_marks(all));
    let (page, total) = select_page(items, &mask, limit, offset);
    proof {
        lemma_item_count(catalog@);
        lemma_kept(all, mask@);
    }
    (page, total as i64)
}

/// For each item, whether it is live and has `parent` as its parent.
pub open spec fn child_mask(items: Seq<ItemView>, parent: Option<int>) -> Seq<bool> {
    Seq::new(items.len(), |i: int| items[i].checked && items[i].parent == parent)
}

/// The live items directly under `parent`; under no parent, the nodes of
/// the roots themselves.
pub open spec fn children_of(v: CatalogView, parent: Option<int>) -> Seq<ItemView> {
    kept(v.items, child_mask(v.items, parent))
}

/// A page of the live items directly under the item `parent`, from the
/// newest to the oldest, and the number of all of them. With no parent
/// given, the items that have none are listed.
pub fn get_children(catalog: &Catalog, parent: Option<i64>, limit: i64, offset: i64) -> (r: (
    Vec<Item>,
    i64,
))
    requires
        catalog.wf(),
    ensures
        items_view(r.0@) == page_of(
            children_of(catalog@, opt_id(parent)),
            limit as int,
            offset as int,
        ),
        r.1 == children_of(catalog@, opt_id(parent)).len(),
{
    let items = catalog.items();
    let ghost all = items_view(items@);
    let ghost full = child_mask(all, opt_id(parent));
    let mut mask: Vec<bool> = Vec::new();
    let mut i: usize = 0;
    while i < items.len()
        invariant
            i <= items@.len(),
            all == items_view(items@),
            full == child_mask(all, opt_id(parent)),
            mask@ == full.take(i as int),
        decreases items@.len() - i,
    {
        let item = &items[i];
        let under = match (item.parent, parent) {
            (Some(a), Some(b)) => a == b,
            (None, None) => true,
            _ => false,
        };
        mask.push(item.checked && under);
        assert(mask@ =~= full.take(i + 1));
        i = i + 1;
    }
    assert(full.take(i as int) =~= full);
    let (page, total) = select_page(items, &mask, limit, offset);
    proof {
        lemma_item_count(catalog@);
        lemma_kept(all, mask@);
    }
    (page, total as i64)
}

/// Whether the name of `x` holds `text`, the case of the letters `A` to `Z`
/// set aside. An item without a name matches nothing.
pub open spec fn name_matches(x: ItemView, text: Seq<char>) -> bool {
    x.name matches Some(n) && contains_folded(n, text)
}

/// For each item, whether its name holds `text`.
pub open spec fn name_mask(items: Seq<ItemView>, text: Seq<char>) -> Seq<bool> {
    Seq::new(items.len(), |i: int| name_matches(items[i], text))
}

/// For each item, whether it has a name that does not hold `text`, and
/// carries one of the tags `words`.
pub open spec fn tag_mask(
    items: Seq<ItemView>,
    graph: TagGraphView,
    text: Seq<char>,
    words: Seq<Seq<char>>,
) -> Seq<bool> {
    Seq::new(
        items.len(),
        |i: int|
            items[i].name is Some && !name_matches(items[i], text) && carries_any(
                graph,
                items[i].id,
                words,
            ),
    )
}

/// The items whose name holds `text`.
pub open spec fn found_by_name(v: CatalogView, text: Seq<char>) -> Seq<ItemView> {
    kept(v.items, name_mask(v.items, text))
}

/// The items that carry one of the tags `words` and were not found by name.
pub open spec fn found_by_tags(
    v: CatalogView,
    graph: TagGraphView,
    text: Seq<char>,
    words: Seq<Seq<char>>,
) -> Seq<ItemView> {
    kept(v.items, tag_mask(v.items, graph, text, words))
}

/// Whether the name of `item` holds `text`.
fn matches_name(item: &Item, text: &str) -> (r: bool)
    ensures
        r == name_matches(item@, text@),
{
    match &item.name {
        Some(n) => contains_ignoring_case(n.as_str(), text),
        None => false,
    }
}

/// A page of the items whose name holds `text`, from the newest to the
/// oldest, and the number of all such items. The case of the letters `A`
/// to `Z` plays no part.
pub fn search_by_name(catalog: &Catalog, text: &str, limit: i64, offset: i64) -> (r: (
    Vec<Item>,
    i64,
))
    requires
        catalog.wf(),
    ensures
        items_view(r.0@) == page_of(found_by_name(catalog@, text@), limit as int, offset as int),
        r.1 == found_by_name(catalog@, text@).len(),
{
    let items = catalog.items();
    let ghost all = items_view(items@);
    let mut mask: Vec<bool> = Vec::new();
    let mut i: usize = 0;
    while i < items.len()
        invariant
            i <= items@.len(),
            all == items_view(items@),
            mask@ == name_mask(all, text@).take(i as int),
        decreases items@.len() - i,
    {
        mask.push(matches_name(&items[i], text));
        assert(mask@ =~= name_mask(all, text@).take(i + 1));
        i = i + 1;
    }
    assert(name_mask(all, text@).take(i as int) =~= name_mask(all, text@));
    let (page, total) = select_page(items, &mask, limit, offset);
    proof {
        lemma_item_count(catalog@);
        lemma_kept(all, mask@);
    }
    (page, total as i64)
}

/// A page of the items that carry one of the tags `words` and whose name
/// does not hold `text`, from the newest to the oldest, and the number of
/// all such items. Each item is listed once, whatever number of the tags
/// it carries.
pub fn search_by_tags(
    catalog: &Catalog,
    graph: &TagGraph,
    text: &str,
    words: &Vec<String>,
    limit: i64,
    offset: i64,
) -> (r: (Vec<Item>, i64))
    requires
        catalog.wf(),
    ensures
        items_view(r.0@) == page_of(
            found_by_tags(catalog@, graph@, text@, texts(words@)),
            limit as int,
            offset as int,
        ),
        r.1 == found_by_tags(catalog@, graph@, text@, texts(words@)).len(),
{
    let items = catalog.items();
    let ghost all = items_view(items@);
    let ghost full = tag_mask(all, graph@, text@, texts(words@));
    let mut mask: Vec<bool> = Vec::new();
    let mut i: usize = 0;
    while i < items.len()
        invariant
            i <= items@.len(),
            all == items_view(items@),
            full == tag_mask(all, graph@, text@, texts(words@)),
            mask@ == full.take(i as int),
        decreases items@.len() - i,
    {
        let item = &items[i];
        let hit = item.name.is_some() && !matches_name(item, text) && has_any_tag_item(
            graph,
            item.id,
            words,
        );
        mask.push(hit);
        assert(mask@ =~= full.take(i + 1));
        i = i + 1;
    }
    assert(full.take(i as int) =~= full);
    let (page, total) = select_page(items, &mask, limit, offset);
    proof {
        lemma_item_count(catalog@);
        lemma_kept(all, mask@);
    }
    (page, total as i64)
}

/// Searches for `text`: first the items whose name holds `text`, then the
/// items that carry a tag named like one of the words of `text` and were
/// not found by name. Each of the two lists is a page of its own under
/// `limit` and `offset`. The number returned counts every item that either
/// way finds, each once.
pub fn search(catalog: &Catalog, graph: &TagGraph, text: &str, limit: i64, offset: i64) -> (r: (
    Vec<Item>,
    i64,
))
    requires
        catalog.wf(),
    ensures
        items_view(r.0@) == page_of(found_by_name(catalog@, text@), limit as int, offset as int)
            + page_of(
            found_by_tags(catalog@, graph@, text@, words_of(text@)),
            limit as int,
            offset as int,
        ),
        r.1 == found_by_name(catalog@, text@).len() + found_by_tags(
            catalog@,
            graph@,
            text@,
            words_of(text@),
        ).len(),
{
    let (mut page, by_name) = search_by_name(catalog, text, limit, offset);
    let words = split_words(text);
    let (mut more, by_tags) = search_by_tags(catalog, graph, text, &words, limit, offset);
    proof {
        let v = catalog@;
        lemma_item_count(v);
        lemma_kept_disjoint(
            v.items,
            name_mask(v.items, text@),
            tag_mask(v.items, graph@, text@, words_of(text@)),
        );
    }
    let ghost first = items_view(page@);
    let ghost second = items_view(more@);
    page.append(&mut more);
    assert(items_view(page@) =~= first + second);
    (page, by_name + by_tags)
}

} // verus!
