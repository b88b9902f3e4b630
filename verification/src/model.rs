//! The record model: tasks with ordered typed metadata, the workspace that
//! holds them, and the pre-aggregated category index.
use vstd::prelude::*;

use crate::text::str_eq;
use crate::values::clone_strings;
use crate::values::str_views;
use crate::values::TagValue;

verus! {

/// The metadata block of one task: key/value pairs in insertion order.
#[derive(Clone, Debug)]
pub struct FrontMatter {
    pub tags: Vec<(String, TagValue)>,
}

/// The first value stored under `key`, if any.
pub open spec fn lookup_tag_in(tags: Seq<(String, TagValue)>, key: Seq<char>) -> Option<
    TagValue,
>
    decreases tags.len(),
{
    if tags.len() == 0 {
        None
    } else if tags[0].0@ == key {
        Some(tags[0].1)
    } else {
        lookup_tag_in(tags.drop_first(), key)
    }
}

impl FrontMatter {
    /// Keys are pairwise distinct.
    pub open spec fn wf(&self) -> bool {
        forall|i: int, j: int|
            0 <= i < j < self.tags@.len() ==> self.tags@[i].0@ != self.tags@[j].0@
    }

    /// The value stored under `key`, if any.
    pub open spec fn spec_get(&self, key: Seq<char>) -> Option<TagValue> {
        lookup_tag_in(self.tags@, key)
    }

    /// Looks up the value stored under `key`.
    pub fn get(&self, key: &str) -> (r: Option<&TagValue>)
        ensures
            match r {
                Some(v) => self.spec_get(key@) == Some(*v),
                None => self.spec_get(key@) is None,
            },
    {
        let mut i: usize = 0;
        proof {
            assert(self.tags@.skip(0) =~= self.tags@);
        }
        while i < self.tags.len()
            invariant
                0 <= i <= self.tags@.len(),
                lookup_tag_in(self.tags@, key@) == lookup_tag_in(
                    self.tags@.skip(i as int),
                    key@,
                ),
            decreases self.tags@.len() - i,
        {
            proof {
                assert(self.tags@.skip(i as int)[0] == self.tags@[i as int]);
                assert(self.tags@.skip(i as int).drop_first() =~= self.tags@.skip(i + 1));
            }
            if str_eq(self.tags[i].0.as_str(), key) {
                return Some(&self.tags[i].1);
            }
            i = i + 1;
        }
        None
    }
}

/// One task: an identifier, its metadata, the free-text body, the caller's
/// last-modified stamp, and the metadata key order seen on input.
#[derive(Clone, Debug)]
pub struct Task {
    pub id: String,
    pub front_matter: FrontMatter,
    pub content: String,
    pub modified_at: i64,
    pub tag_order: Option<Vec<String>>,
}

/// The text of the string value stored under `key` in `task`, if the value
/// is a string.
pub open spec fn tag_string(task: Task, key: Seq<char>) -> Option<Seq<char>> {
    match task.front_matter.spec_get(key) {
        Some(TagValue::String(s)) => Some(s@),
        _ => None,
    }
}

/// The texts of the array value stored under `key` in `task`, if the value
/// is an array.
pub open spec fn tag_array(task: Task, key: Seq<char>) -> Option<Seq<Seq<char>>> {
    match task.front_matter.spec_get(key) {
        Some(TagValue::Array(a)) => Some(str_views(a@)),
        _ => None,
    }
}

/// Extracts the string value stored under `field`, if it is a string.
pub fn extract_tag_value_string(task: &Task, field: &str) -> (r: Option<String>)
    ensures
        match r {
            Some(s) => tag_string(*task, field@) == Some(s@),
            None => tag_string(*task, field@) is None,
        },
{
    match task.front_matter.get(field) {
        Some(TagValue::String(s)) => Some(s.clone()),
        _ => None,
    }
}

/// Extracts the array value stored under `field`, if it is an array.
pub fn extract_tag_value_array(task: &Task, field: &str) -> (r: Option<Vec<String>>)
    ensures
        match r {
            Some(a) => tag_array(*task, field@) == Some(str_views(a@)),
            None => tag_array(*task, field@) is None,
        },
{
    match task.front_matter.get(field) {
        Some(TagValue::Array(a)) => Some(clone_strings(a)),
        _ => None,
    }
}

/// One category of the index: its name, each seen value text with its
/// occurrence count, and the ids of the tasks carrying the category.
#[derive(Clone, Debug)]
pub struct TagCategory {
    pub name: String,
    pub values: Vec<(String, u64)>,
    pub task_ids: Vec<String>,
}

impl TagCategory {
    /// A fresh category with no recorded values.
    pub fn new(name: String) -> (r: TagCategory)
        ensures
            r.name == name,
            r.values@.len() == 0,
            r.task_ids@.len() == 0,
    {
        TagCategory { name, values: Vec::new(), task_ids: Vec::new() }
    }
}

/// The count recorded for value text `t`, if any.
pub open spec fn lookup_count(values: Seq<(String, u64)>, t: Seq<char>) -> Option<u64>
    decreases values.len(),
{
    if values.len() == 0 {
        None
    } else if values[0].0@ == t {
        Some(values[0].1)
    } else {
        lookup_count(values.drop_first(), t)
    }
}

impl TagCategory {
    /// Value labels are pairwise distinct and every count leaves room for
    /// the renderer's axis headroom.
    pub open spec fn wf(&self) -> bool {
        &&& forall|i: int, j: int|
            0 <= i < j < self.values@.len() ==> (#[trigger] self.values@[i]).0@ != (
            #[trigger] self.values@[j]).0@
        &&& forall|i: int|
            0 <= i < self.values@.len() ==> (#[trigger] self.values@[i]).1 + 5 <= u64::MAX
    }
}

/// The pre-aggregated index over all tasks: one entry per category name.
#[derive(Clone, Debug)]
pub struct TagIndex {
    pub categories: Vec<TagCategory>,
}

/// The first category named `name`, if any.
pub open spec fn lookup_category(cats: Seq<TagCategory>, name: Seq<char>) -> Option<
    TagCategory,
>
    decreases cats.len(),
{
    if cats.len() == 0 {
        None
    } else if cats[0].name@ == name {
        Some(cats[0])
    } else {
        lookup_category(cats.drop_first(), name)
    }
}

impl TagIndex {
    /// A fresh empty index.
    pub fn new() -> (r: TagIndex)
        ensures
            r.categories@.len() == 0,
    {
        TagIndex { categories: Vec::new() }
    }

    /// Category names are pairwise distinct and every category is well
    /// formed.
    pub open spec fn wf(&self) -> bool {
        &&& forall|i: int, j: int|
            0 <= i < j < self.categories@.len() ==> (#[trigger] self.categories@[i]).name@
                != (#[trigger] self.categories@[j]).name@
        &&& forall|i: int|
            0 <= i < self.categories@.len() ==> (#[trigger] self.categories@[i]).wf()
    }

    /// The category named `name`, if any.
    pub open spec fn spec_category(&self, name: Seq<char>) -> Option<TagCategory> {
        lookup_category(self.categories@, name)
    }

    /// Looks up the category named `name`.
    pub fn category(&self, name: &str) -> (r: Option<&TagCategory>)
        ensures
            match r {
                Some(c) => self.spec_category(name@) == Some(*c),
                None => self.spec_category(name@) is None,
            },
    {
        let mut i: usize = 0;
        proof {
            assert(self.categories@.skip(0) =~= self.categories@);
        }
        while i < self.categories.len()
            invariant
                0 <= i <= self.categories@.len(),
                lookup_category(self.categories@, name@) == lookup_category(
                    self.categories@.skip(i as int),
                    name@,
                ),
            decreases self.categories@.len() - i,
        {
            proof {
                assert(self.categories@.skip(i as int)[0] == self.categories@[i as int]);
                assert(self.categories@.skip(i as int).drop_first() =~= self.categories@.skip(
                    i + 1,
                ));
            }
            if str_eq(self.categories[i].name.as_str(), name) {
                return Some(&self.categories[i]);
            }
            i = i + 1;
        }
        None
    }
}

/// The field-name mapping for the schedule builder; `None` selects the
/// default field.
#[derive(Clone, Debug)]
pub struct GanttMapping {
    pub title_field: Option<String>,
    pub start_field: Option<String>,
    pub end_field: Option<String>,
    pub depends_on_field: Option<String>,
    pub section_field: Option<String>,
}

/// How many occurrence slots one tag value contributes when categories are
/// counted by a live scan: one per array element, one otherwise.
pub open spec fn value_slots(v: TagValue) -> int {
    match v {
        TagValue::Array(a) => a@.len() as int,
        _ => 1,
    }
}

/// The occurrence slots of the entries of one metadata block.
pub open spec fn tags_slots(tags: Seq<(String, TagValue)>) -> int
    decreases tags.len(),
{
    if tags.len() == 0 {
        0
    } else {
        tags_slots(tags.drop_last()) + value_slots(tags.last().1)
    }
}

/// The occurrence slots of a whole task sequence.
pub open spec fn total_slots(tasks: Seq<Task>) -> int
    decreases tasks.len(),
{
    if tasks.len() == 0 {
        0
    } else {
        total_slots(tasks.drop_last()) + tags_slots(tasks.last().front_matter.tags@)
    }
}

/// The tasks of `tasks` at the positions `idxs`.
pub open spec fn seq_at(tasks: Seq<Task>, idxs: Seq<usize>) -> Seq<Task> {
    Seq::new(idxs.len(), |k: int| tasks[idxs[k] as int])
}

/// The loaded task collection handed to the engine, with its category index.
#[derive(Clone, Debug)]
pub struct Workspace {
    pub tasks: Vec<Task>,
    pub tag_index: TagIndex,
}

impl Workspace {
    /// A fresh workspace with no tasks.
    pub fn new() -> (r: Workspace)
        ensures
            r.tasks@.len() == 0,
            r.tag_index.categories@.len() == 0,
    {
        Workspace { tasks: Vec::new(), tag_index: TagIndex::new() }
    }

    /// Task ids are pairwise distinct, every metadata block is well formed,
    /// and the occurrence slots leave room for the renderer's axis headroom.
    pub open spec fn wf(&self) -> bool {
        &&& forall|i: int, j: int|
            0 <= i < j < self.tasks@.len() ==> self.tasks@[i].id@ != self.tasks@[j].id@
        &&& forall|i: int|
            0 <= i < self.tasks@.len() ==> (#[trigger] self.tasks@[i]).front_matter.wf()
        &&& total_slots(self.tasks@) + 5 <= u64::MAX
        &&& self.tasks@.len() <= crate::metric::MAX_METRIC_TASKS
        &&& self.tag_index.wf()
    }
}

/// Every tag value contributes at least nothing.
pub proof fn lemma_tags_slots_nonneg(tags: Seq<(String, TagValue)>)
    ensures
        tags_slots(tags) >= 0,
    decreases tags.len(),
{
    if tags.len() > 0 {
        lemma_tags_slots_nonneg(tags.drop_last());
    }
}

/// A prefix of the tasks contributes no more than all of them.
pub proof fn lemma_total_slots_prefix(tasks: Seq<Task>, i: int)
    requires
        0 <= i <= tasks.len(),
    ensures
        total_slots(tasks.take(i)) <= total_slots(tasks),
    decreases tasks.len() - i,
{
    if i < tasks.len() {
        lemma_total_slots_prefix(tasks, i + 1);
        assert(tasks.take(i + 1).drop_last() =~= tasks.take(i));
        assert(tasks.take(i + 1).last() == tasks[i]);
        lemma_tags_slots_nonneg(tasks[i].front_matter.tags@);
    } else {
        assert(tasks.take(i) =~= tasks);
    }
}

/// The value found under a key contributes no more than the whole block.
pub proof fn lemma_lookup_slots(tags: Seq<(String, TagValue)>, key: Seq<char>)
    ensures
        lookup_tag_in(tags, key) matches Some(v) ==> value_slots(v) <= tags_slots(tags),
    decreases tags.len(),
{
    if tags.len() > 0 {
        if tags[0].0@ == key {
            lemma_entry_slots(tags, 0);
        } else {
            lemma_lookup_slots(tags.drop_first(), key);
            lemma_drop_first_slots(tags);
        }
    }
}

/// One entry contributes no more than the whole block.
proof fn lemma_entry_slots(tags: Seq<(String, TagValue)>, e: int)
    requires
        0 <= e < tags.len(),
    ensures
        value_slots(tags[e].1) <= tags_slots(tags),
    decreases tags.len(),
{
    if e == tags.len() - 1 {
        lemma_tags_slots_nonneg(tags.drop_last());
    } else {
        lemma_entry_slots(tags.drop_last(), e);
    }
}

/// Dropping the first entry only lowers the contribution.
proof fn lemma_drop_first_slots(tags: Seq<(String, TagValue)>)
    requires
        tags.len() > 0,
    ensures
        tags_slots(tags.drop_first()) <= tags_slots(tags),
    decreases tags.len(),
{
    if tags.len() == 1 {
        assert(tags.drop_first() =~= Seq::<(String, TagValue)>::empty());
        assert(tags_slots(tags.drop_first()) == 0);
        lemma_tags_slots_nonneg(tags);
    } else {
        lemma_drop_first_slots(tags.drop_last());
        assert(tags.drop_first().drop_last() =~= tags.drop_last().drop_first());
        assert(tags.drop_first().last() == tags.last());
        assert(tags_slots(tags.drop_first()) == tags_slots(tags.drop_last().drop_first())
            + value_slots(tags.last().1));
        assert(tags_slots(tags) == tags_slots(tags.drop_last()) + value_slots(
            tags.last().1,
        ));
    }
}

} // verus!
