//! Tags: labels that are attached to catalog items.
//!
//! A tag has a name, which no other tag has. An item and a tag are
//! associated at most once. A tag may imply others; attaching it with its
//! implications attaches those too, one level deep.

use crate::catalog::CatalogError;
use crate::civitai::{derived_tags, tags_from_model_info, CivitaiFileMetadata, CivitaiModel};
use crate::seqs::{
    distinct, kept, kept_source, lemma_kept, lemma_kept_distinct, lemma_kept_step, lemma_occurs_at,
    lemma_occurs_pushed, lemma_position, lemma_position_push, lemma_position_unique, occurs,
    position,
};
use crate::text::{clone_text, opt_text, same_text, texts};
use vstd::prelude::*;

verus! {

/// A label that items can carry.
#[derive(Debug, Clone, PartialEq, Eq)]
pub struct Tag {
    pub id: i64,
    pub name: String,
}

/// An association of an item with a tag.
#[derive(Debug, Clone, Copy, PartialEq, Eq)]
pub struct TagItem {
    pub item: i64,
    pub tag: i64,
}

/// A rule that whoever carries `tag` also carries `implied`.
#[derive(Debug, Clone, Copy, PartialEq, Eq)]
pub struct TagRule {
    pub tag: i64,
    pub implied: i64,
}

/// A `Tag` in contracts.
pub struct TagView {
    pub id: int,
    pub name: Seq<char>,
}

/// A `TagItem` in contracts.
pub struct LinkView {
    pub item: int,
    pub tag: int,
}

/// A `TagRule` in contracts.
pub struct RuleView {
    pub tag: int,
    pub implied: int,
}

/// A `TagGraph` in contracts: its rows in the order in which they were made.
pub struct TagGraphView {
    pub tags: Seq<TagView>,
    pub links: Seq<LinkView>,
    pub rules: Seq<RuleView>,
    /// The id that the next new tag gets.
    pub next_id: int,
}

impl View for Tag {
    type V = TagView;

    open spec fn view(&self) -> TagView {
        TagView { id: self.id as int, name: self.name@ }
    }
}

impl View for TagItem {
    type V = LinkView;

    open spec fn view(&self) -> LinkView {
        LinkView { item: self.item as int, tag: self.tag as int }
    }
}

impl View for TagRule {
    type V = RuleView;

    open spec fn view(&self) -> RuleView {
        RuleView { tag: self.tag as int, implied: self.implied as int }
    }
}

/// The views of `rows`, in order.
pub open spec fn tags_view(rows: Seq<Tag>) -> Seq<TagView> {
    Seq::new(rows.len(), |i: int| rows[i]@)
}

/// The views of `rows`, in order.
pub open spec fn links_view(rows: Seq<TagItem>) -> Seq<LinkView> {
    Seq::new(rows.len(), |i: int| rows[i]@)
}

/// The views of `rows`, in order.
pub open spec fn rules_view(rows: Seq<TagRule>) -> Seq<RuleView> {
    Seq::new(rows.len(), |i: int| rows[i]@)
}

/// The name of each tag.
pub open spec fn tag_names(tags: Seq<TagView>) -> Seq<Seq<char>> {
    Seq::new(tags.len(), |i: int| tags[i].name)
}

/// The id of each tag.
pub open spec fn tag_ids(tags: Seq<TagView>) -> Seq<int> {
    Seq::new(tags.len(), |i: int| tags[i].id)
}

/// Whether a tag has the id `id`.
pub open spec fn has_tag_id(v: TagGraphView, id: int) -> bool {
    occurs(tag_ids(v.tags), id)
}

/// Every association is with a tag that there is.
pub open spec fn links_sound(v: TagGraphView) -> bool {
    forall|i: int| 0 <= i < v.links.len() ==> has_tag_id(v, (#[trigger] v.links[i]).tag)
}

/// Every rule is between tags that there are.
pub open spec fn rules_sound(v: TagGraphView) -> bool {
    forall|i: int|
        0 <= i < v.rules.len() ==> has_tag_id(v, (#[trigger] v.rules[i]).tag) && has_tag_id(
            v,
            v.rules[i].implied,
        )
}

/// What holds of every tag graph: one tag per name, ids that grow with the
/// rows and stay below the next id, no association or rule twice, and no
/// association or rule with a tag that is not there.
pub open spec fn graph_wf(v: TagGraphView) -> bool {
    &&& 1 <= v.next_id <= i64::MAX
    &&& distinct(tag_names(v.tags))
    &&& distinct(v.links)
    &&& distinct(v.rules)
    &&& links_sound(v)
    &&& rules_sound(v)
    &&& forall|i: int| 0 <= i < v.tags.len() ==> 1 <= (#[trigger] v.tags[i]).id < v.next_id
    &&& forall|i: int, j: int|
        0 <= i < j < v.tags.len() ==> (#[trigger] v.tags[i]).id < (#[trigger] v.tags[j]).id
}

/// The graph without tags.
pub open spec fn empty_graph() -> TagGraphView {
    TagGraphView { tags: Seq::empty(), links: Seq::empty(), rules: Seq::empty(), next_id: 1 }
}

/// Whether a tag is named `name`.
pub open spec fn has_tag(v: TagGraphView, name: Seq<char>) -> bool {
    occurs(tag_names(v.tags), name)
}

/// The id of the tag named `name`.
pub open spec fn tag_id_of(v: TagGraphView, name: Seq<char>) -> Option<int> {
    let i = position(tag_names(v.tags), name);
    if i < v.tags.len() {
        Some(v.tags[i].id)
    } else {
        None
    }
}

/// The name of the tag with the id `id`.
pub open spec fn tag_name_of(v: TagGraphView, id: int) -> Option<Seq<char>> {
    let i = position(tag_ids(v.tags), id);
    if i < v.tags.len() {
        Some(v.tags[i].name)
    } else {
        None
    }
}

/// The graph with a tag named `name`: as it is where there is one or where
/// no id is left, else with a new tag at the end.
pub open spec fn tag_added(v: TagGraphView, name: Seq<char>) -> TagGraphView {
    if has_tag(v, name) || v.next_id >= i64::MAX {
        v
    } else {
        TagGraphView {
            tags: v.tags.push(TagView { id: v.next_id, name }),
            next_id: v.next_id + 1,
            ..v
        }
    }
}

/// The graph with `item` and the tag `tag` associated: as it is where they
/// are, else with a new association at the end.
pub open spec fn link_added(v: TagGraphView, item: int, tag: int) -> TagGraphView {
    if occurs(v.links, LinkView { item, tag }) {
        v
    } else {
        TagGraphView { links: v.links.push(LinkView { item, tag }), ..v }
    }
}

/// Whether a tag named `name` exists or can be made.
pub open spec fn can_tag(v: TagGraphView, name: Seq<char>) -> bool {
    has_tag(v, name) || v.next_id < i64::MAX
}

/// The graph after `item` got the tag named `name`, which is made where it
/// is missing. Where it cannot be made the graph stays as it is.
pub open spec fn tagged(v: TagGraphView, item: int, name: Seq<char>) -> TagGraphView {
    match tag_id_of(tag_added(v, name), name) {
        Some(t) => link_added(tag_added(v, name), item, t),
        None => v,
    }
}

/// The graph after `item` got the tags `names`, one after the other, up to
/// the first that cannot be made.
pub open spec fn tagged_all(v: TagGraphView, item: int, names: Seq<Seq<char>>) -> TagGraphView
    decreases names.len(),
{
    if names.len() == 0 || !can_tag(v, names[0]) {
        v
    } else {
        tagged_all(tagged(v, item, names[0]), item, names.drop_first())
    }
}

/// Whether each of `names` can be attached in turn.
pub open spec fn can_tag_all(v: TagGraphView, item: int, names: Seq<Seq<char>>) -> bool
    decreases names.len(),
{
    if names.len() == 0 {
        true
    } else if !can_tag(v, names[0]) {
        false
    } else {
        can_tag_all(tagged(v, item, names[0]), item, names.drop_first())
    }
}

/// For each tag, whether its id is not `t`.
pub open spec fn tags_but(tags: Seq<TagView>, t: int) -> Seq<bool> {
    Seq::new(tags.len(), |i: int| tags[i].id != t)
}

/// For each association, whether its tag is not `t`.
pub open spec fn links_but_tag(links: Seq<LinkView>, t: int) -> Seq<bool> {
    Seq::new(links.len(), |i: int| links[i].tag != t)
}

/// For each association, whether it is not that of `item` with `t`.
pub open spec fn links_but(links: Seq<LinkView>, item: int, t: int) -> Seq<bool> {
    Seq::new(links.len(), |i: int| !(links[i].item == item && links[i].tag == t))
}

/// For each rule, whether `t` is neither its tag nor the tag it implies.
pub open spec fn rules_but(rules: Seq<RuleView>, t: int) -> Seq<bool> {
    Seq::new(rules.len(), |i: int| rules[i].tag != t && rules[i].implied != t)
}

/// The graph without the tag named `name`, and without the associations and
/// the rules that mention it.
pub open spec fn tag_removed(v: TagGraphView, name: Seq<char>) -> TagGraphView {
    match tag_id_of(v, name) {
        None => v,
        Some(t) => TagGraphView {
            tags: kept(v.tags, tags_but(v.tags, t)),
            links: kept(v.links, links_but_tag(v.links, t)),
            rules: kept(v.rules, rules_but(v.rules, t)),
            next_id: v.next_id,
        },
    }
}

/// The graph with the tag `name` renamed to `new_name`. It stays as it is
/// where a tag named `new_name` exists, or none named `name`.
pub open spec fn tag_renamed(
    v: TagGraphView,
    name: Seq<char>,
    new_name: Seq<char>,
) -> TagGraphView {
    let i = position(tag_names(v.tags), name);
    if has_tag(v, new_name) || i >= v.tags.len() {
        v
    } else {
        TagGraphView { tags: v.tags.update(i, TagView { name: new_name, ..v.tags[i] }), ..v }
    }
}

/// The graph without the association of `item` with the tag named `name`.
pub open spec fn link_removed(v: TagGraphView, item: int, name: Seq<char>) -> TagGraphView {
    match tag_id_of(v, name) {
        None => v,
        Some(t) => TagGraphView { links: kept(v.links, links_but(v.links, item, t)), ..v },
    }
}

/// The names of the tags that `links` associate with `item`, in the order
/// of the associations.
pub open spec fn names_linked(v: TagGraphView, links: Seq<LinkView>, item: int) -> Seq<Seq<char>>
    decreases links.len(),
{
    if links.len() == 0 {
        Seq::empty()
    } else {
        let rest = names_linked(v, links.drop_last(), item);
        let link = links.last();
        if link.item == item && tag_name_of(v, link.tag) is Some {
            rest.push(tag_name_of(v, link.tag)->0)
        } else {
            rest
        }
    }
}

/// The names of the tags of `item`.
pub open spec fn tags_of(v: TagGraphView, item: int) -> Seq<Seq<char>> {
    names_linked(v, v.links, item)
}

/// The graph with the rule that `tag` implies `implied`, added unless it is there.
pub open spec fn rule_added(v: TagGraphView, tag: int, implied: int) -> TagGraphView {
    if occurs(v.rules, RuleView { tag, implied }) {
        v
    } else {
        TagGraphView { rules: v.rules.push(RuleView { tag, implied }), ..v }
    }
}

/// The graph after it was declared that the tag `name` implies the tag
/// `implied`. Both tags are made where they are missing; where one cannot
/// be made, no rule is added.
pub open spec fn dependency_added(
    v: TagGraphView,
    name: Seq<char>,
    implied: Seq<char>,
) -> TagGraphView {
    let with_tags = tag_added(tag_added(v, name), implied);
    if tag_id_of(with_tags, name) is Some && tag_id_of(with_tags, implied) is Some {
        rule_added(with_tags, tag_id_of(with_tags, name)->0, tag_id_of(with_tags, implied)->0)
    } else {
        with_tags
    }
}

/// The graph after `item` got every tag that one of `rules` says `t` implies.
pub open spec fn implied_linked(
    v: TagGraphView,
    item: int,
    t: int,
    rules: Seq<RuleView>,
) -> TagGraphView
    decreases rules.len(),
{
    if rules.len() == 0 {
        v
    } else {
        let rest = implied_linked(v, item, t, rules.drop_last());
        if rules.last().tag == t {
            link_added(rest, item, rules.last().implied)
        } else {
            rest
        }
    }
}

/// The graph after `item` got the tag named `name` and the tags that it
/// implies directly. What those imply in turn is not followed.
pub open spec fn tagged_with_dependencies(
    v: TagGraphView,
    item: int,
    name: Seq<char>,
) -> TagGraphView {
    let with_tag = tagged(v, item, name);
    match tag_id_of(with_tag, name) {
        Some(t) => implied_linked(with_tag, item, t, with_tag.rules),
        None => with_tag,
    }
}

/// Making a tag takes no id away: associations and rules stay sound.
pub proof fn lemma_tag_added_sound(v: TagGraphView, name: Seq<char>)
    requires
        links_sound(v),
        rules_sound(v),
    ensures
        links_sound(tag_added(v, name)),
        rules_sound(tag_added(v, name)),
        forall|id: int| has_tag_id(v, id) ==> #[trigger] has_tag_id(tag_added(v, name), id),
{
    let w = tag_added(v, name);
    if w != v {
        let added = TagView { id: v.next_id, name };
        assert(tag_ids(w.tags) =~= tag_ids(v.tags).push(v.next_id));
        assert forall|id: int| has_tag_id(v, id) implies #[trigger] has_tag_id(w, id) by {
            lemma_position_push(tag_ids(v.tags), v.next_id, id);
        }
        assert forall|i: int| 0 <= i < w.links.len() implies has_tag_id(
            w,
            (#[trigger] w.links[i]).tag,
        ) by {
            assert(has_tag_id(v, v.links[i].tag));
        }
        assert forall|i: int| 0 <= i < w.rules.len() implies has_tag_id(
            w,
            (#[trigger] w.rules[i]).tag,
        ) && has_tag_id(w, w.rules[i].implied) by {
            assert(has_tag_id(v, v.rules[i].tag) && has_tag_id(v, v.rules[i].implied));
        }
    }
}

/// The id of a tag that has a name is the id of a tag.
pub proof fn lemma_named_tag_has_id(v: TagGraphView, name: Seq<char>)
    requires
        tag_id_of(v, name) is Some,
    ensures
        has_tag_id(v, tag_id_of(v, name)->0),
{
    lemma_position(tag_names(v.tags), name);
    let i = position(tag_names(v.tags), name);
    assert(tag_ids(v.tags)[i] == v.tags[i].id);
    lemma_occurs_at(tag_ids(v.tags), i);
}

/// An association with a tag that there is keeps the associations sound.
pub proof fn lemma_link_added_sound(v: TagGraphView, item: int, tag: int)
    requires
        links_sound(v),
        has_tag_id(v, tag),
    ensures
        links_sound(link_added(v, item, tag)),
{
    let w = link_added(v, item, tag);
    assert forall|i: int| 0 <= i < w.links.len() implies has_tag_id(
        w,
        (#[trigger] w.links[i]).tag,
    ) by {
        if i < v.links.len() {
            assert(w.links[i] == v.links[i]);
            assert(has_tag_id(v, v.links[i].tag));
        }
    }
}

/// A rule between tags that there are keeps the rules sound.
pub proof fn lemma_rule_added_sound(v: TagGraphView, tag: int, implied: int)
    requires
        rules_sound(v),
        has_tag_id(v, tag),
        has_tag_id(v, implied),
    ensures
        rules_sound(rule_added(v, tag, implied)),
{
    let w = rule_added(v, tag, implied);
    assert forall|i: int| 0 <= i < w.rules.len() implies has_tag_id(
        w,
        (#[trigger] w.rules[i]).tag,
    ) && has_tag_id(w, w.rules[i].implied) by {
        if i < v.rules.len() {
            assert(w.rules[i] == v.rules[i]);
            assert(has_tag_id(v, v.rules[i].tag) && has_tag_id(v, v.rules[i].implied));
        }
    }
}

/// The tags, their associations with items, and their rules.
pub struct TagGraph {
    tags: Vec<Tag>,
    links: Vec<TagItem>,
    rules: Vec<TagRule>,
    next_id: i64,
}

impl View for TagGraph {
    type V = TagGraphView;

    closed spec fn view(&self) -> TagGraphView {
        TagGraphView {
            tags: tags_view(self.tags@),
            links: links_view(self.links@),
            rules: rules_view(self.rules@),
            next_id: self.next_id as int,
        }
    }
}

impl TagGraph {
    /// Whether the graph keeps its invariant.
    pub open spec fn wf(&self) -> bool {
        graph_wf(self@)
    }

    /// A graph without tags.
    pub fn new() -> (graph: TagGraph)
        ensures
            graph.wf(),
            graph@ == empty_graph(),
    {
        let graph = TagGraph {
            tags: Vec::new(),
            links: Vec::new(),
            rules: Vec::new(),
            next_id: 1,
        };
        assert(graph@.tags =~= Seq::empty());
        assert(graph@.links =~= Seq::empty());
        assert(graph@.rules =~= Seq::empty());
        graph
    }

    /// Makes a graph of rows that were stored before. Gives nothing where
    /// the rows break the invariant of a graph: a tag name, an association or
    /// a rule that occurs twice, ids that do not grow, an id that is not
    /// below `next_id`, or an association or a rule with a tag that is not there.
    pub fn restore(tags: Vec<Tag>, links: Vec<TagItem>, rules: Vec<TagRule>, next_id: i64) -> (r:
        Option<TagGraph>)
        ensures
            match r {
                Some(graph) => graph.wf() && graph@ == (TagGraphView {
                    tags: tags_view(tags@),
                    links: links_view(links@),
                    rules: rules_view(rules@),
                    next_id: next_id as int,
                }),
                None => !graph_wf(
                    (TagGraphView {
                        tags: tags_view(tags@),
                        links: links_view(links@),
                        rules: rules_view(rules@),
                        next_id: next_id as int,
                    }),
                ),
            },
    {
        if next_id < 1 {
            return None;
        }
        if !tag_ids_in_order(&tags, next_id) || !names_distinct(&tags) || !links_distinct(&links)
            || !rules_distinct(&rules) || !links_point_at_tags(&tags, &links)
            || !rules_point_at_tags(&tags, &rules) {
            return None;
        }
        Some(TagGraph { tags, links, rules, next_id })
    }

    /// Whether the graph keeps its invariant, found out by looking at every row.
    pub fn check(&self) -> (r: bool)
        ensures
            r == self.wf(),
    {
        self.next_id >= 1 && tag_ids_in_order(&self.tags, self.next_id) && names_distinct(
            &self.tags,
        ) && links_distinct(&self.links) && rules_distinct(&self.rules) && links_point_at_tags(
            &self.tags,
            &self.links,
        ) && rules_point_at_tags(&self.tags, &self.rules)
    }

    /// The tags, in the order in which they were made.
    pub fn tags(&self) -> (rows: &Vec<Tag>)
        ensures
            tags_view(rows@) == self@.tags,
    {
        &self.tags
    }

    /// The associations, in the order in which they were made.
    pub fn links(&self) -> (rows: &Vec<TagItem>)
        ensures
            links_view(rows@) == self@.links,
    {
        &self.links
    }

    /// The rules, in the order in which they were made.
    pub fn rules(&self) -> (rows: &Vec<TagRule>)
        ensures
            rules_view(rows@) == self@.rules,
    {
        &self.rules
    }

    /// The id that the next new tag gets.
    pub fn next_id(&self) -> (id: i64)
        ensures
            id == self@.next_id,
    {
        self.next_id
    }

    /// Index of the tag named `name`.
    fn find_name(&self, name: &String) -> (r: Option<usize>)
        ensures
            match r {
                Some(i) => i < self@.tags.len() && i == position(tag_names(self@.tags), name@),
                None => !has_tag(self@, name@),
            },
    {
        let ghost names = tag_names(self@.tags);
        let mut i: usize = 0;
        while i < self.tags.len()
            invariant
                i <= self.tags@.len(),
                names == tag_names(self@.tags),
                forall|j: int| 0 <= j < i ==> names[j] != name@,
            decreases self.tags@.len() - i,
        {
            if same_text(&self.tags[i].name, name) {
                proof {
                    lemma_position_unique(names, name@, i as int);
                }
                return Some(i);
            }
            i = i + 1;
        }
        proof {
            lemma_position_unique(names, name@, i as int);
        }
        None
    }

    /// Index of the tag with the id `id`.
    fn find_id(&self, id: i64) -> (r: Option<usize>)
        ensures
            match r {
                Some(i) => i < self@.tags.len() && i == position(tag_ids(self@.tags), id as int),
                None => position(tag_ids(self@.tags), id as int) == self@.tags.len(),
            },
    {
        let ghost ids = tag_ids(self@.tags);
        let mut i: usize = 0;
        while i < self.tags.len()
            invariant
                i <= self.tags@.len(),
                ids == tag_ids(self@.tags),
                forall|j: int| 0 <= j < i ==> ids[j] != id as int,
            decreases self.tags@.len() - i,
        {
            if self.tags[i].id == id {
                proof {
                    lemma_position_unique(ids, id as int, i as int);
                }
                return Some(i);
            }
            i = i + 1;
        }
        proof {
            lemma_position_unique(ids, id as int, i as int);
        }
        None
    }

    /// Whether `item` and `tag` are associated.
    fn has_link(&self, item: i64, tag: i64) -> (r: bool)
        ensures
            r == occurs(self@.links, (LinkView { item: item as int, tag: tag as int })),
    {
        let ghost links = self@.links;
        let ghost link = LinkView { item: item as int, tag: tag as int };
        let mut i: usize = 0;
        while i < self.links.len()
            invariant
                i <= self.links@.len(),
                links == self@.links,
                link == (LinkView { item: item as int, tag: tag as int }),
                forall|j: int| 0 <= j < i ==> links[j] != link,
            decreases self.links@.len() - i,
        {
            if self.links[i].item == item && self.links[i].tag == tag {
                proof {
                    assert(links[i as int] == self.links@[i as int]@);
                    lemma_position_unique(links, link, i as int);
                }
                return true;
            }
            assert(links[i as int] == self.links@[i as int]@);
            i = i + 1;
        }
        proof {
            lemma_position_unique(links, link, i as int);
        }
        false
    }

    /// Finds the tag named `name` or makes it; gives its id.
    fn ensure_tag(&mut self, name: &str) -> (r: Option<i64>)
        requires
            old(self).wf(),
        ensures
            final(self).wf(),
            final(self)@ == tag_added(old(self)@, name@),
            match r {
                Some(t) => tag_id_of(final(self)@, name@) == Some(t as int) && can_tag(
                    old(self)@,
                    name@,
                ),
                None => tag_id_of(final(self)@, name@) is None && !can_tag(old(self)@, name@),
            },
    {
        let ghost before = self@;
        let text = name.to_owned();
        proof {
            lemma_position(tag_names(before.tags), name@);
        }
        match self.find_name(&text) {
            Some(i) => Some(self.tags[i].id),
            None => {
                if self.next_id == i64::MAX {
                    return None;
                }
                let id = self.next_id;
                self.tags.push(Tag { id, name: text });
                self.next_id = id + 1;
                assert(self@.tags =~= before.tags.push(TagView { id: id as int, name: name@ }));
                proof {
                    let names = tag_names(self@.tags);
                    let old_names = tag_names(before.tags);
                    assert forall|a: int, b: int| 0 <= a < b < names.len() implies names[a]
                        != names[b] by {
                        assert(names[a] == old_names[a]);
                        if b < old_names.len() {
                            assert(names[b] == old_names[b]);
                        }
                    }
                    assert forall|j: int| 0 <= j < old_names.len() implies names[j] != name@ by {
                        assert(names[j] == old_names[j]);
                    }
                    lemma_position_unique(names, name@, old_names.len() as int);
                    lemma_tag_added_sound(before, name@);
                }
                Some(id)
            },
        }
    }

    /// Associates `item` with the tag `tag` unless they are associated.
    fn ensure_link(&mut self, item: i64, tag: i64)
        requires
            old(self).wf(),
            has_tag_id(old(self)@, tag as int),
        ensures
            final(self).wf(),
            final(self)@ == link_added(old(self)@, item as int, tag as int),
    {
        let ghost before = self@;
        if !self.has_link(item, tag) {
            proof {
                lemma_position(before.links, (LinkView { item: item as int, tag: tag as int }));
            }
            self.links.push(TagItem { item, tag });
            assert(self@.links =~= before.links.push(
                LinkView { item: item as int, tag: tag as int },
            ));
            proof {
                lemma_link_added_sound(before, item as int, tag as int);
            }
        }
    }
}

/// Makes a tag named `name` unless there is one. Fails only when a new tag
/// is needed and no id is left.
pub fn add_tag(graph: &mut TagGraph, name: &str) -> (r: Result<(), CatalogError>)
    requires
        old(graph).wf(),
    ensures
        final(graph).wf(),
        final(graph)@ == tag_added(old(graph)@, name@),
        match r {
            Ok(_) => can_tag(old(graph)@, name@),
            Err(e) => e == CatalogError::IdsExhausted && !can_tag(old(graph)@, name@),
        },
{
    match graph.ensure_tag(name) {
        Some(_) => Ok(()),
        None => Err(CatalogError::IdsExhausted),
    }
}

/// Attaches each of `tags` to `item`, in order: a tag that is missing is
/// made, an association that exists is left alone. Stops at the first tag
/// that cannot be made, and fails then.
pub fn add_tag_item(graph: &mut TagGraph, item: i64, tags: &Vec<String>) -> (r: Result<
    (),
    CatalogError,
>)
    requires
        old(graph).wf(),
    ensures
        final(graph).wf(),
        final(graph)@ == tagged_all(old(graph)@, item as int, texts(tags@)),
        match r {
            Ok(_) => can_tag_all(old(graph)@, item as int, texts(tags@)),
            Err(e) => e == CatalogError::IdsExhausted && !can_tag_all(
                old(graph)@,
                item as int,
                texts(tags@),
            ),
        },
{
    let ghost start = graph@;
    let ghost names = texts(tags@);
    let mut i: usize = 0;
    assert(names.skip(0) == names);
    while i < tags.len()
        invariant
            i <= tags@.len(),
            graph.wf(),
            names == texts(tags@),
            start == old(graph)@,
            tagged_all(start, item as int, names) == tagged_all(
                graph@,
                item as int,
                names.skip(i as int),
            ),
            can_tag_all(start, item as int, names) == can_tag_all(
                graph@,
                item as int,
                names.skip(i as int),
            ),
        decreases tags@.len() - i,
    {
        let ghost rest = names.skip(i as int);
        assert(rest[0] == tags@[i as int]@);
        assert(rest.drop_first() == names.skip(i + 1));
        match graph.ensure_tag(tags[i].as_str()) {
            Some(t) => {
                proof {
                    lemma_named_tag_has_id(graph@, tags@[i as int]@);
                }
                graph.ensure_link(item, t);
            },
            None => {
                return Err(CatalogError::IdsExhausted);
            },
        }
        i = i + 1;
    }
    Ok(())
}

/// Removing a tag keeps a graph well formed.
pub proof fn lemma_tag_removed_wf(v: TagGraphView, name: Seq<char>)
    requires
        graph_wf(v),
    ensures
        graph_wf(tag_removed(v, name)),
{
    if tag_id_of(v, name) is Some {
        let t = tag_id_of(v, name)->0;
        let w = tag_removed(v, name);
        let mask = tags_but(v.tags, t);
        lemma_kept(v.tags, mask);
        lemma_kept_distinct(v.links, links_but_tag(v.links, t));
        lemma_kept_distinct(v.rules, rules_but(v.rules, t));
        let names = tag_names(w.tags);
        assert forall|a: int, b: int| 0 <= a < b < names.len() implies names[a] != names[b] by {
            let i = kept_source(v.tags, mask, a);
            let j = kept_source(v.tags, mask, b);
            assert(tag_names(v.tags)[i] != tag_names(v.tags)[j]);
        }
        assert forall|a: int| 0 <= a < w.tags.len() implies 1 <= (#[trigger] w.tags[a]).id
            < w.next_id by {
            let i = kept_source(v.tags, mask, a);
            assert(w.tags[a] == v.tags[i]);
        }
        assert forall|a: int, b: int| 0 <= a < b < w.tags.len() implies (#[trigger] w.tags[a]).id < (
        #[trigger] w.tags[b]).id by {
            let i = kept_source(v.tags, mask, a);
            let j = kept_source(v.tags, mask, b);
            assert(w.tags[a] == v.tags[i]);
            assert(w.tags[b] == v.tags[j]);
        }
        let ids_v = tag_ids(v.tags);
        let ids_w = tag_ids(w.tags);
        assert forall|id: int| id != t && has_tag_id(v, id) implies #[trigger] has_tag_id(
            w,
            id,
        ) by {
            lemma_position(ids_v, id);
            let j = position(ids_v, id);
            assert(v.tags[j].id == id);
            assert(mask[j]);
            let q = choose|q: int| 0 <= q < w.tags.len() && kept_source(v.tags, mask, q) == j;
            assert(ids_w[q] == id);
            lemma_occurs_at(ids_w, q);
        }
        let lm = links_but_tag(v.links, t);
        lemma_kept(v.links, lm);
        assert forall|i: int| 0 <= i < w.links.len() implies has_tag_id(
            w,
            (#[trigger] w.links[i]).tag,
        ) by {
            let src = kept_source(v.links, lm, i);
            assert(w.links[i] == v.links[src]);
            assert(lm[src]);
            assert(has_tag_id(v, v.links[src].tag));
        }
        let rm = rules_but(v.rules, t);
        lemma_kept(v.rules, rm);
        assert forall|i: int| 0 <= i < w.rules.len() implies has_tag_id(
            w,
            (#[trigger] w.rules[i]).tag,
        ) && has_tag_id(w, w.rules[i].implied) by {
            let src = kept_source(v.rules, rm, i);
            assert(w.rules[i] == v.rules[src]);
            assert(rm[src]);
            assert(has_tag_id(v, v.rules[src].tag) && has_tag_id(v, v.rules[src].implied));
        }
    }
}

/// The tags whose id is not `t`.
fn tags_without(rows: Vec<Tag>, t: i64) -> (out: Vec<Tag>)
    ensures
        tags_view(out@) == kept(tags_view(rows@), tags_but(tags_view(rows@), t as int)),
{
    let ghost all = tags_view(rows@);
    let ghost mask = tags_but(all, t as int);
    let mut out: Vec<Tag> = Vec::new();
    assert(tags_view(out@) =~= kept(all.take(0), mask.take(0)));
    for tag in it: rows
        invariant
            it.seq() == rows@,
            all == tags_view(rows@),
            mask == tags_but(all, t as int),
            tags_view(out@) == kept(all.take(it.index() as int), mask.take(it.index() as int)),
    {
        proof {
            lemma_kept_step(all, mask, it.index() as int);
        }
        let ghost prev = tags_view(out@);
        if tag.id != t {
            out.push(tag);
            assert(tags_view(out@) =~= prev.push(all[it.index() as int]));
        }
    }
    assert(all.take(all.len() as int) == all);
    assert(mask.take(all.len() as int) == mask);
    out
}

/// The associations that are not of `item` with `t`; where `item` is
/// `None`, those whose tag is not `t`.
fn links_without(rows: &Vec<TagItem>, item: Option<i64>, t: i64) -> (out: Vec<TagItem>)
    ensures
        links_view(out@) == kept(
            links_view(rows@),
            match item {
                Some(x) => links_but(links_view(rows@), x as int, t as int),
                None => links_but_tag(links_view(rows@), t as int),
            },
        ),
{
    let ghost all = links_view(rows@);
    let ghost mask = match item {
        Some(x) => links_but(all, x as int, t as int),
        None => links_but_tag(all, t as int),
    };
    let mut out: Vec<TagItem> = Vec::new();
    assert(links_view(out@) =~= kept(all.take(0), mask.take(0)));
    let mut i: usize = 0;
    while i < rows.len()
        invariant
            i <= rows@.len(),
            all == links_view(rows@),
            mask == match item {
                Some(x) => links_but(all, x as int, t as int),
                None => links_but_tag(all, t as int),
            },
            links_view(out@) == kept(all.take(i as int), mask.take(i as int)),
        decreases rows@.len() - i,
    {
        proof {
            lemma_kept_step(all, mask, i as int);
        }
        let ghost prev = links_view(out@);
        let link = rows[i];
        let drop = match item {
            Some(x) => link.item == x && link.tag == t,
            None => link.tag == t,
        };
        if !drop {
            out.push(link);
            assert(links_view(out@) =~= prev.push(all[i as int]));
        }
        i = i + 1;
    }
    assert(all.take(all.len() as int) == all);
    assert(mask.take(all.len() as int) == mask);
    out
}

/// The rules that do not mention `t`.
fn rules_without(rows: &Vec<TagRule>, t: i64) -> (out: Vec<TagRule>)
    ensures
        rules_view(out@) == kept(rules_view(rows@), rules_but(rules_view(rows@), t as int)),
{
    let ghost all = rules_view(rows@);
    let ghost mask = rules_but(all, t as int);
    let mut out: Vec<TagRule> = Vec::new();
    assert(rules_view(out@) =~= kept(all.take(0), mask.take(0)));
    let mut i: usize = 0;
    while i < rows.len()
        invariant
            i <= rows@.len(),
            all == rules_view(rows@),
            mask == rules_but(all, t as int),
            rules_view(out@) == kept(all.take(i as int), mask.take(i as int)),
        decreases rows@.len() - i,
    {
        proof {
            lemma_kept_step(all, mask, i as int);
        }
        let ghost prev = rules_view(out@);
        let rule = rows[i];
        if rule.tag != t && rule.implied != t {
            out.push(rule);
            assert(rules_view(out@) =~= prev.push(all[i as int]));
        }
        i = i + 1;
    }
    assert(all.take(all.len() as int) == all);
    assert(mask.take(all.len() as int) == mask);
    out
}

/// Deletes the tag named `name`, with every association and every rule
/// that mentions it. Does nothing where no tag has that name.
pub fn remove_tag(graph: &mut TagGraph, name: &str)
    requires
        old(graph).wf(),
    ensures
        final(graph).wf(),
        final(graph)@ == tag_removed(old(graph)@, name@),
{
    let ghost before = graph@;
    let text = name.to_owned();
    match graph.find_name(&text) {
        Some(i) => {
            let t = graph.tags[i].id;
            let mut tags: Vec<Tag> = Vec::new();
            core::mem::swap(&mut graph.tags, &mut tags);
            graph.tags = tags_without(tags, t);
            graph.links = links_without(&graph.links, None, t);
            graph.rules = rules_without(&graph.rules, t);
            proof {
                lemma_tag_removed_wf(before, name@);
            }
        },
        None => {
            proof {
                lemma_position(tag_names(before.tags), name@);
            }
        },
    }
}

/// Deletes the association of `item` with the tag named `tag`. Does
/// nothing where there is no such tag.
pub fn remove_tag_item(graph: &mut TagGraph, item: i64, tag: &str)
    requires
        old(graph).wf(),
    ensures
        final(graph).wf(),
        final(graph)@ == link_removed(old(graph)@, item as int, tag@),
{
    let ghost before = graph@;
    let text = tag.to_owned();
    match graph.find_name(&text) {
        Some(i) => {
            let t = graph.tags[i].id;
            graph.links = links_without(&graph.links, Some(item), t);
            proof {
                let mask = links_but(before.links, item as int, t as int);
                lemma_kept_distinct(before.links, mask);
                lemma_kept(before.links, mask);
                assert forall|k: int| 0 <= k < graph@.links.len() implies has_tag_id(
                    graph@,
                    (#[trigger] graph@.links[k]).tag,
                ) by {
                    let src = kept_source(before.links, mask, k);
                    assert(graph@.links[k] == before.links[src]);
                    assert(has_tag_id(before, before.links[src].tag));
                }
            }
        },
        None => {
            proof {
                lemma_position(tag_names(before.tags), tag@);
            }
        },
    }
}

/// Renames the tag `name` to `new_name`. Fails when a tag named `new_name`
/// exists; two tags are never merged. Does nothing where no tag is named `name`.
pub fn rename_tag(graph: &mut TagGraph, name: &str, new_name: &str) -> (r: Result<(), CatalogError>)
    requires
        old(graph).wf(),
    ensures
        final(graph).wf(),
        final(graph)@ == tag_renamed(old(graph)@, name@, new_name@),
        match r {
            Ok(_) => !has_tag(old(graph)@, new_name@),
            Err(e) => e == CatalogError::TagExists && has_tag(old(graph)@, new_name@),
        },
{
    let ghost before = graph@;
    let new_text = new_name.to_owned();
    if graph.find_name(&new_text).is_some() {
        return Err(CatalogError::TagExists);
    }
    let text = name.to_owned();
    proof {
        lemma_position(tag_names(before.tags), name@);
        lemma_position(tag_names(before.tags), new_name@);
    }
    match graph.find_name(&text) {
        Some(i) => {
            let id = graph.tags[i].id;
            graph.tags.set(i, Tag { id, name: new_text });
            assert(graph@.tags =~= before.tags.update(
                i as int,
                TagView { name: new_name@, ..before.tags[i as int] },
            ));
            proof {
                let names = tag_names(graph@.tags);
                let old_names = tag_names(before.tags);
                assert forall|a: int, b: int| 0 <= a < b < names.len() implies names[a]
                    != names[b] by {
                    if a != i {
                        assert(names[a] == old_names[a]);
                    }
                    if b != i {
                        assert(names[b] == old_names[b]);
                    }
                }
                assert forall|a: int| 0 <= a < graph@.tags.len() implies 1 <= (
                #[trigger] graph@.tags[a]).id < graph@.next_id by {
                    assert(graph@.tags[a].id == before.tags[a].id);
                }
                assert forall|a: int, b: int| 0 <= a < b < graph@.tags.len() implies (
                #[trigger] graph@.tags[a]).id < (#[trigger] graph@.tags[b]).id by {
                    assert(graph@.tags[a].id == before.tags[a].id);
                    assert(graph@.tags[b].id == before.tags[b].id);
                }
                assert(tag_ids(graph@.tags) =~= tag_ids(before.tags));
                assert forall|k: int| 0 <= k < graph@.links.len() implies has_tag_id(
                    graph@,
                    (#[trigger] graph@.links[k]).tag,
                ) by {
                    assert(has_tag_id(before, before.links[k].tag));
                }
                assert forall|k: int| 0 <= k < graph@.rules.len() implies has_tag_id(
                    graph@,
                    (#[trigger] graph@.rules[k]).tag,
                ) && has_tag_id(graph@, graph@.rules[k].implied) by {
                    assert(has_tag_id(before, before.rules[k].tag) && has_tag_id(
                        before,
                        before.rules[k].implied,
                    ));
                }
            }
            Ok(())
        },
        None => Ok(()),
    }
}

/// The names of the tags of the item `id`, in the order in which they were
/// attached.
pub fn get_tags(graph: &TagGraph, id: i64) -> (names: Vec<String>)
    ensures
        texts(names@) == tags_of(graph@, id as int),
{
    let ghost v = graph@;
    let mut names: Vec<String> = Vec::new();
    assert(texts(names@) =~= names_linked(v, v.links.take(0), id as int));
    let mut i: usize = 0;
    while i < graph.links.len()
        invariant
            i <= graph.links@.len(),
            v == graph@,
            texts(names@) == names_linked(v, v.links.take(i as int), id as int),
        decreases graph.links@.len() - i,
    {
        assert(v.links.take(i + 1).drop_last() == v.links.take(i as int));
        assert(v.links.take(i + 1).last() == graph.links@[i as int]@);
        let ghost prev = texts(names@);
        let link = graph.links[i];
        if link.item == id {
            match graph.find_id(link.tag) {
                Some(k) => {
                    names.push(clone_text(&graph.tags[k].name));
                    assert(texts(names@) =~= prev.push(v.tags[k as int].name));
                },
                None => {},
            }
        }
        i = i + 1;
    }
    assert(v.links.take(i as int) == v.links);
    names
}

/// Declares that the tag `tag` implies the tag `implied`. Both tags are
/// made where they are missing. Fails only when one is needed and no id is left.
pub fn add_tag_dependency(graph: &mut TagGraph, tag: &str, implied: &str) -> (r: Result<
    (),
    CatalogError,
>)
    requires
        old(graph).wf(),
    ensures
        final(graph).wf(),
        final(graph)@ == dependency_added(old(graph)@, tag@, implied@),
        match r {
            Ok(_) => can_tag(old(graph)@, tag@) && can_tag(tag_added(old(graph)@, tag@), implied@),
            Err(e) => e == CatalogError::IdsExhausted && !(can_tag(old(graph)@, tag@) && can_tag(
                tag_added(old(graph)@, tag@),
                implied@,
            )),
        },
{
    let first = graph.ensure_tag(tag);
    let ghost mid = graph@;
    let second = graph.ensure_tag(implied);
    let ghost with_tags = graph@;
    proof {
        lemma_tag_added_keeps(mid, implied@, tag@);
    }
    match (first, second) {
        (Some(a), Some(b)) => {
            let ghost rule = RuleView { tag: a as int, implied: b as int };
            let mut found = false;
            let mut i: usize = 0;
            while i < graph.rules.len()
                invariant
                    i <= graph.rules@.len(),
                    graph@ == with_tags,
                    rule == (RuleView { tag: a as int, implied: b as int }),
                    !found ==> forall|j: int| 0 <= j < i ==> with_tags.rules[j] != rule,
                    found ==> occurs(with_tags.rules, rule),
                decreases graph.rules@.len() - i,
            {
                assert(with_tags.rules[i as int] == graph.rules@[i as int]@);
                if graph.rules[i].tag == a && graph.rules[i].implied == b {
                    proof {
                        if !found {
                            lemma_position_unique(with_tags.rules, rule, i as int);
                        }
                    }
                    found = true;
                }
                i = i + 1;
            }
            if !found {
                proof {
                    lemma_position_unique(with_tags.rules, rule, i as int);
                }
                graph.rules.push(TagRule { tag: a, implied: b });
                assert(graph@.rules =~= with_tags.rules.push(rule));
                proof {
                    lemma_position(with_tags.rules, rule);
                    lemma_named_tag_has_id(with_tags, tag@);
                    lemma_named_tag_has_id(with_tags, implied@);
                    lemma_rule_added_sound(with_tags, a as int, b as int);
                }
            }
            Ok(())
        },
        _ => Err(CatalogError::IdsExhausted),
    }
}

/// Making a tag leaves the ids of the tags that exist as they are.
pub proof fn lemma_tag_added_keeps(v: TagGraphView, name: Seq<char>, other: Seq<char>)
    requires
        graph_wf(v),
    ensures
        tag_id_of(v, other) is Some ==> tag_id_of(tag_added(v, name), other) == tag_id_of(v, other),
        (tag_id_of(v, other) is None && other != name) ==> tag_id_of(tag_added(v, name), other)
            is None,
{
    let w = tag_added(v, name);
    let nv = tag_names(v.tags);
    let nw = tag_names(w.tags);
    lemma_position(nv, other);
    lemma_position(nv, name);
    if w != v {
        let i = position(nv, other);
        assert forall|j: int| 0 <= j < i && j < nw.len() implies nw[j] != other by {
            if j < nv.len() {
                assert(nw[j] == nv[j]);
            }
        }
        if i < nv.len() {
            assert(nw[i] == nv[i]);
            lemma_position_unique(nw, other, i);
        } else if other != name {
            assert(nw[i] == name);
            lemma_position_unique(nw, other, nw.len() as int);
        }
    }
}

/// Attaches the tag `tag` to `item`, and every tag that `tag` implies
/// directly. Fails only when `tag` is missing and cannot be made.
pub fn add_tag_item_with_dependencies(graph: &mut TagGraph, item: i64, tag: &str) -> (r: Result<
    (),
    CatalogError,
>)
    requires
        old(graph).wf(),
    ensures
        final(graph).wf(),
        final(graph)@ == tagged_with_dependencies(old(graph)@, item as int, tag@),
        match r {
            Ok(_) => can_tag(old(graph)@, tag@),
            Err(e) => e == CatalogError::IdsExhausted && !can_tag(old(graph)@, tag@),
        },
{
    let t = match graph.ensure_tag(tag) {
        Some(t) => t,
        None => {
            return Err(CatalogError::IdsExhausted);
        },
    };
    proof {
        lemma_named_tag_has_id(graph@, tag@);
    }
    graph.ensure_link(item, t);
    let ghost with_tag = graph@;
    let ghost rules = with_tag.rules;
    let mut i: usize = 0;
    while i < graph.rules.len()
        invariant
            i <= graph.rules@.len(),
            graph.wf(),
            graph@.rules == rules,
            graph@.tags == with_tag.tags,
            graph@ == implied_linked(with_tag, item as int, t as int, rules.take(i as int)),
        decreases graph.rules@.len() - i,
    {
        assert(rules.take(i + 1).drop_last() == rules.take(i as int));
        assert(rules.take(i + 1).last() == graph.rules@[i as int]@);
        let rule = graph.rules[i];
        if rule.tag == t {
            assert(has_tag_id(graph@, graph@.rules[i as int].implied));
            graph.ensure_link(item, rule.implied);
        }
        i = i + 1;
    }
    assert(rules.take(i as int) == rules);
    Ok(())
}

/// Attaches to `item` the tags that follow from what the registry reports
/// of it, and the extra tags of the caller.
pub fn add_tag_from_model_info(
    graph: &mut TagGraph,
    item: i64,
    extra_tags: &Vec<String>,
    model_info: &CivitaiModel,
    file_metadata: &CivitaiFileMetadata,
) -> (r: Result<(), CatalogError>)
    requires
        old(graph).wf(),
    ensures
        final(graph).wf(),
        final(graph)@ == tagged_all(
            old(graph)@,
            item as int,
            derived_tags(
                texts(extra_tags@),
                model_info.model_type@,
                model_info.nsfw,
                model_info.poi,
                file_metadata.format@,
                opt_text(file_metadata.fp),
            ),
        ),
        match r {
            Ok(_) => can_tag_all(
                old(graph)@,
                item as int,
                derived_tags(
                    texts(extra_tags@),
                    model_info.model_type@,
                    model_info.nsfw,
                    model_info.poi,
                    file_metadata.format@,
                    opt_text(file_metadata.fp),
                ),
            ),
            Err(e) => e == CatalogError::IdsExhausted && !can_tag_all(
                old(graph)@,
                item as int,
                derived_tags(
                    texts(extra_tags@),
                    model_info.model_type@,
                    model_info.nsfw,
                    model_info.poi,
                    file_metadata.format@,
                    opt_text(file_metadata.fp),
                ),
            ),
        },
{
    let tags = tags_from_model_info(extra_tags, model_info, file_metadata);
    add_tag_item(graph, item, &tags)
}

/// `item` carries the tag named `name`.
pub open spec fn carries(v: TagGraphView, item: int, name: Seq<char>) -> bool {
    tag_id_of(v, name) matches Some(t) && occurs(v.links, LinkView { item, tag: t })
}

/// Attaching a tag keeps a graph well formed, and the item carries the tag
/// then, if the tag exists or can be made.
pub proof fn lemma_tagged(v: TagGraphView, item: int, name: Seq<char>)
    requires
        graph_wf(v),
    ensures
        graph_wf(tagged(v, item, name)),
        can_tag(v, name) ==> carries(tagged(v, item, name), item, name),
        !can_tag(v, name) ==> tagged(v, item, name) == v,
{
    let v1 = tag_added(v, name);
    let names = tag_names(v.tags);
    lemma_position(names, name);
    if v1 != v {
        let n1 = tag_names(v1.tags);
        assert forall|a: int, b: int| 0 <= a < b < n1.len() implies n1[a] != n1[b] by {
            assert(n1[a] == names[a]);
            if b < names.len() {
                assert(n1[b] == names[b]);
            }
        }
        assert forall|j: int| 0 <= j < names.len() implies n1[j] != name by {
            assert(n1[j] == names[j]);
        }
        lemma_position_unique(n1, name, names.len() as int);
        assert forall|a: int| 0 <= a < v1.tags.len() implies 1 <= (#[trigger] v1.tags[a]).id
            < v1.next_id by {
            if a < v.tags.len() {
                assert(v1.tags[a] == v.tags[a]);
            }
        }
        assert forall|a: int, b: int| 0 <= a < b < v1.tags.len() implies (#[trigger] v1.tags[a]).id < (
        #[trigger] v1.tags[b]).id by {
            assert(v1.tags[a] == v.tags[a]);
            if b < v.tags.len() {
                assert(v1.tags[b] == v.tags[b]);
            }
        }
    }
    lemma_tag_added_sound(v, name);
    if tag_id_of(v1, name) is Some {
        let t = tag_id_of(v1, name)->0;
        let link = LinkView { item, tag: t };
        let w = link_added(v1, item, t);
        lemma_position(v1.links, link);
        lemma_named_tag_has_id(v1, name);
        lemma_link_added_sound(v1, item, t);
        if w != v1 {
            lemma_occurs_pushed(v1.links, link);
        }
    }
}

/// Attaching a tag that the item carries changes nothing.
pub proof fn lemma_tagged_again(v: TagGraphView, item: int, name: Seq<char>)
    requires
        carries(v, item, name),
    ensures
        tagged(v, item, name) == v,
{
}

/// Attaching a tag to an item twice is attaching it once: the second time
/// changes nothing, so the two are associated by one row.
pub proof fn lemma_tagging_twice(v: TagGraphView, item: int, name: Seq<char>)
    requires
        graph_wf(v),
    ensures
        graph_wf(tagged(v, item, name)),
        tagged(tagged(v, item, name), item, name) == tagged(v, item, name),
        can_tag(v, name) ==> carries(tagged(v, item, name), item, name),
        distinct(tagged(v, item, name).links),
{
    lemma_tagged(v, item, name);
    if can_tag(v, name) {
        lemma_tagged_again(tagged(v, item, name), item, name);
    } else {
        lemma_position(tag_names(v.tags), name);
    }
}

/// What an item carries it still carries when a tag was attached, to it or
/// to another item.
pub proof fn lemma_tagged_keeps(
    v: TagGraphView,
    item: int,
    name: Seq<char>,
    other_item: int,
    other: Seq<char>,
)
    requires
        graph_wf(v),
        carries(v, other_item, other),
    ensures
        carries(tagged(v, item, name), other_item, other),
{
    let v1 = tag_added(v, name);
    lemma_tag_added_keeps(v, name, other);
    if tag_id_of(v1, name) is Some {
        let t = tag_id_of(v1, name)->0;
        let link = LinkView { item, tag: t };
        if !occurs(v1.links, link) {
            lemma_position_push(
                v1.links,
                link,
                (LinkView { item: other_item, tag: tag_id_of(v, other)->0 }),
            );
        }
    }
}

/// What an item carries it still carries when a list of tags was attached.
pub proof fn lemma_tagged_all_keeps(
    v: TagGraphView,
    item: int,
    names: Seq<Seq<char>>,
    other_item: int,
    other: Seq<char>,
)
    requires
        graph_wf(v),
        carries(v, other_item, other),
    ensures
        graph_wf(tagged_all(v, item, names)),
        carries(tagged_all(v, item, names), other_item, other),
    decreases names.len(),
{
    if names.len() > 0 && can_tag(v, names[0]) {
        lemma_tagged(v, item, names[0]);
        lemma_tagged_keeps(v, item, names[0], other_item, other);
        lemma_tagged_all_keeps(tagged(v, item, names[0]), item, names.drop_first(), other_item, other);
    }
}

/// Once a list of tags was attached to an item, it carries each of them.
pub proof fn lemma_tagged_all_carries(v: TagGraphView, item: int, names: Seq<Seq<char>>, i: int)
    requires
        graph_wf(v),
        can_tag_all(v, item, names),
        0 <= i < names.len(),
    ensures
        carries(tagged_all(v, item, names), item, names[i]),
    decreases names.len(),
{
    let first = tagged(v, item, names[0]);
    let rest = names.drop_first();
    lemma_tagged(v, item, names[0]);
    if i == 0 {
        lemma_tagged_all_keeps(first, item, rest, item, names[0]);
    } else {
        assert(rest[i - 1] == names[i]);
        lemma_tagged_all_carries(first, item, rest, i - 1);
    }
}

/// Attaching tags that the item carries changes nothing.
pub proof fn lemma_tagged_all_again(v: TagGraphView, item: int, names: Seq<Seq<char>>)
    requires
        forall|i: int| 0 <= i < names.len() ==> carries(v, item, #[trigger] names[i]),
    ensures
        tagged_all(v, item, names) == v,
    decreases names.len(),
{
    if names.len() > 0 {
        let rest = names.drop_first();
        assert(carries(v, item, names[0]));
        lemma_position(tag_names(v.tags), names[0]);
        lemma_tagged_again(v, item, names[0]);
        assert forall|i: int| 0 <= i < rest.len() implies carries(v, item, #[trigger] rest[i]) by {
            assert(rest[i] == names[i + 1]);
        }
        lemma_tagged_all_again(v, item, rest);
    }
}

/// Attaching a list of tags to an item twice is attaching it once.
pub proof fn lemma_tagging_all_twice(v: TagGraphView, item: int, names: Seq<Seq<char>>)
    requires
        graph_wf(v),
        can_tag_all(v, item, names),
    ensures
        tagged_all(tagged_all(v, item, names), item, names) == tagged_all(v, item, names),
{
    let w = tagged_all(v, item, names);
    assert forall|i: int| 0 <= i < names.len() implies carries(w, item, #[trigger] names[i]) by {
        lemma_tagged_all_carries(v, item, names, i);
    }
    lemma_tagged_all_again(w, item, names);
}

/// `item` carries one of the tags named in `names`.
pub open spec fn carries_any(v: TagGraphView, item: int, names: Seq<Seq<char>>) -> bool {
    exists|j: int| 0 <= j < names.len() && carries(v, item, #[trigger] names[j])
}

/// Whether `item` carries the tag named `name`.
pub fn has_tag_item(graph: &TagGraph, item: i64, name: &str) -> (r: bool)
    ensures
        r == carries(graph@, item as int, name@),
{
    let text = name.to_owned();
    match graph.find_name(&text) {
        Some(i) => graph.has_link(item, graph.tags[i].id),
        None => {
            proof {
                lemma_position(tag_names(graph@.tags), name@);
            }
            false
        },
    }
}

/// Whether `item` carries one of the tags named in `names`.
pub fn has_any_tag_item(graph: &TagGraph, item: i64, names: &Vec<String>) -> (r: bool)
    ensures
        r == carries_any(graph@, item as int, texts(names@)),
{
    let mut j: usize = 0;
    while j < names.len()
        invariant
            j <= names@.len(),
            forall|k: int| 0 <= k < j ==> !carries(graph@, item as int, #[trigger] texts(names@)[k]),
        decreases names@.len() - j,
    {
        if has_tag_item(graph, item, names[j].as_str()) {
            assert(carries(graph@, item as int, texts(names@)[j as int]));
            return true;
        }
        j = j + 1;
    }
    false
}

/// Whether the ids of `tags` are at least one, grow from row to row, and
/// stay below `next_id`.
fn tag_ids_in_order(tags: &Vec<Tag>, next_id: i64) -> (r: bool)
    ensures
        r == {
            let rows = tags_view(tags@);
            &&& forall|i: int| 0 <= i < rows.len() ==> 1 <= (#[trigger] rows[i]).id < next_id
            &&& forall|i: int, j: int|
                0 <= i < j < rows.len() ==> (#[trigger] rows[i]).id < (#[trigger] rows[j]).id
        },
{
    let ghost rows = tags_view(tags@);
    let mut i: usize = 0;
    while i < tags.len()
        invariant
            i <= tags@.len(),
            rows == tags_view(tags@),
            forall|k: int| 0 <= k < i ==> 1 <= (#[trigger] rows[k]).id < next_id,
            forall|a: int, b: int|
                0 <= a < b < i ==> (#[trigger] rows[a]).id < (#[trigger] rows[b]).id,
        decreases tags@.len() - i,
    {
        let id = tags[i].id;
        if id < 1 || id >= next_id {
            assert(!(1 <= rows[i as int].id < next_id));
            return false;
        }
        if i > 0 && tags[i - 1].id >= id {
            assert(!(rows[i - 1].id < rows[i as int].id));
            return false;
        }
        assert forall|a: int, b: int| 0 <= a < b < i + 1 implies (#[trigger] rows[a]).id < (
        #[trigger] rows[b]).id by {
            if b == i && a < i - 1 {
                assert(rows[a].id < rows[i - 1].id);
            }
        }
        i = i + 1;
    }
    true
}

/// Whether no two of `tags` have the same name.
fn names_distinct(tags: &Vec<Tag>) -> (r: bool)
    ensures
        r == distinct(tag_names(tags_view(tags@))),
{
    let ghost names = tag_names(tags_view(tags@));
    let mut j: usize = 0;
    while j < tags.len()
        invariant
            j <= tags@.len(),
            names == tag_names(tags_view(tags@)),
            forall|a: int, b: int| 0 <= a < b < j ==> names[a] != names[b],
        decreases tags@.len() - j,
    {
        let mut i: usize = 0;
        while i < j
            invariant
                i <= j < tags@.len(),
                names == tag_names(tags_view(tags@)),
                forall|a: int| 0 <= a < i ==> names[a] != names[j as int],
            decreases j - i,
        {
            if same_text(&tags[i].name, &tags[j].name) {
                assert(names[i as int] == names[j as int]);
                return false;
            }
            i = i + 1;
        }
        j = j + 1;
    }
    true
}

/// Whether no association occurs twice in `links`.
fn links_distinct(links: &Vec<TagItem>) -> (r: bool)
    ensures
        r == distinct(links_view(links@)),
{
    let ghost rows = links_view(links@);
    let mut j: usize = 0;
    while j < links.len()
        invariant
            j <= links@.len(),
            rows == links_view(links@),
            forall|a: int, b: int| 0 <= a < b < j ==> rows[a] != rows[b],
        decreases links@.len() - j,
    {
        let mut i: usize = 0;
        while i < j
            invariant
                i <= j < links@.len(),
                rows == links_view(links@),
                forall|a: int| 0 <= a < i ==> rows[a] != rows[j as int],
            decreases j - i,
        {
            if links[i].item == links[j].item && links[i].tag == links[j].tag {
                assert(rows[i as int] == rows[j as int]);
                return false;
            }
            assert(rows[i as int] != rows[j as int]);
            i = i + 1;
        }
        j = j + 1;
    }
    true
}

/// Whether no rule occurs twice in `rules`.
fn rules_distinct(rules: &Vec<TagRule>) -> (r: bool)
    ensures
        r == distinct(rules_view(rules@)),
{
    let ghost rows = rules_view(rules@);
    let mut j: usize = 0;
    while j < rules.len()
        invariant
            j <= rules@.len(),
            rows == rules_view(rules@),
            forall|a: int, b: int| 0 <= a < b < j ==> rows[a] != rows[b],
        decreases rules@.len() - j,
    {
        let mut i: usize = 0;
        while i < j
            invariant
                i <= j < rules@.len(),
                rows == rules_view(rules@),
                forall|a: int| 0 <= a < i ==> rows[a] != rows[j as int],
            decreases j - i,
        {
            if rules[i].tag == rules[j].tag && rules[i].implied == rules[j].implied {
                assert(rows[i as int] == rows[j as int]);
                return false;
            }
            assert(rows[i as int] != rows[j as int]);
            i = i + 1;
        }
        j = j + 1;
    }
    true
}

/// Whether a tag of `tags` has the id `id`.
fn some_tag_has_id(tags: &Vec<Tag>, id: i64) -> (r: bool)
    ensures
        r == occurs(tag_ids(tags_view(tags@)), id as int),
{
    let ghost ids = tag_ids(tags_view(tags@));
    let mut i: usize = 0;
    while i < tags.len()
        invariant
            i <= tags@.len(),
            ids == tag_ids(tags_view(tags@)),
            forall|j: int| 0 <= j < i ==> ids[j] != id as int,
        decreases tags@.len() - i,
    {
        if tags[i].id == id {
            proof {
                lemma_position_unique(ids, id as int, i as int);
            }
            return true;
        }
        i = i + 1;
    }
    proof {
        lemma_position_unique(ids, id as int, i as int);
    }
    false
}

/// Whether every association is with a tag of `tags`.
fn links_point_at_tags(tags: &Vec<Tag>, links: &Vec<TagItem>) -> (r: bool)
    ensures
        r == forall|i: int|
            0 <= i < links@.len() ==> occurs(
                tag_ids(tags_view(tags@)),
                (#[trigger] links_view(links@)[i]).tag,
            ),
{
    let ghost rows = links_view(links@);
    let mut i: usize = 0;
    while i < links.len()
        invariant
            i <= links@.len(),
            rows == links_view(links@),
            forall|j: int|
                0 <= j < i ==> occurs(tag_ids(tags_view(tags@)), (#[trigger] rows[j]).tag),
        decreases links@.len() - i,
    {
        if !some_tag_has_id(tags, links[i].tag) {
            assert(!occurs(tag_ids(tags_view(tags@)), rows[i as int].tag));
            return false;
        }
        i = i + 1;
    }
    true
}

/// Whether every rule is between tags of `tags`.
fn rules_point_at_tags(tags: &Vec<Tag>, rules: &Vec<TagRule>) -> (r: bool)
    ensures
        r == forall|i: int|
            0 <= i < rules@.len() ==> occurs(
                tag_ids(tags_view(tags@)),
                (#[trigger] rules_view(rules@)[i]).tag,
            ) && occurs(tag_ids(tags_view(tags@)), rules_view(rules@)[i].implied),
{
    let ghost rows = rules_view(rules@);
    let mut i: usize = 0;
    while i < rules.len()
        invariant
            i <= rules@.len(),
            rows == rules_view(rules@),
            forall|j: int|
                0 <= j < i ==> occurs(tag_ids(tags_view(tags@)), (#[trigger] rows[j]).tag)
                    && occurs(tag_ids(tags_view(tags@)), rows[j].implied),
        decreases rules@.len() - i,
    {
        if !some_tag_has_id(tags, rules[i].tag) || !some_tag_has_id(tags, rules[i].implied) {
            assert(!(occurs(tag_ids(tags_view(tags@)), rows[i as int].tag) && occurs(
                tag_ids(tags_view(tags@)),
                rows[i as int].implied,
            )));
            return false;
        }
        i = i + 1;
    }
    true
}

} // verus!
