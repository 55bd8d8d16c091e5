//! The task store: an ordered collection of task records.
//!
//! A task has a positive id, a free-form title and a completion flag.
//! Ids are assigned as `length + 1` at creation time, so after a deletion
//! a fresh task may share its id with a surviving one; the store keeps
//! that behaviour and `lemma_add_can_collide` states it.

use vstd::prelude::*;

verus! {

/// The mathematical value of one task record.
#[verifier::ext_equal]
pub ghost struct TaskView {
    pub id: u32,
    pub title: Seq<char>,
    pub completed: bool,
}

/// One task record: a positive id, a title and a completion flag.
pub struct Task {
    pub id: u32,
    pub title: String,
    pub completed: bool,
}

impl View for Task {
    type V = TaskView;

    open spec fn view(&self) -> TaskView {
        TaskView { id: self.id, title: self.title@, completed: self.completed }
    }
}

/// True when some task in `s` has id `id`.
pub open spec fn has_id(s: Seq<TaskView>, id: u32) -> bool {
    exists|i: int| 0 <= i < s.len() && s[i].id == id
}

/// The index of the first task in `s` whose id is `id`
/// (meaningful only when `has_id(s, id)` holds).
pub open spec fn first_id_index(s: Seq<TaskView>, id: u32) -> int
    decreases s.len(),
{
    if s.len() == 0 {
        0
    } else if s[0].id == id {
        0
    } else {
        1 + first_id_index(s.drop_first(), id)
    }
}

/// `first_id_index` is exactly the unique position that carries `id`
/// with no earlier occurrence.
pub proof fn lemma_first_id_index_unique(s: Seq<TaskView>, id: u32, k: int)
    requires
        0 <= k < s.len(),
        s[k].id == id,
        forall|j: int| 0 <= j < k ==> s[j].id != id,
    ensures
        has_id(s, id),
        first_id_index(s, id) == k,
    decreases s.len(),
{
    assert(has_id(s, id));
    if k > 0 {
        assert(s[0].id != id);
        assert(s.drop_first()[k - 1] == s[k]);
        assert(forall|j: int| 0 <= j < k - 1 ==> s.drop_first()[j] == s[j + 1]);
        lemma_first_id_index_unique(s.drop_first(), id, k - 1);
    }
}

/// Where a matching task exists, `first_id_index` points at the first one.
pub proof fn lemma_first_id_index(s: Seq<TaskView>, id: u32)
    requires
        has_id(s, id),
    ensures
        0 <= first_id_index(s, id) < s.len(),
        s[first_id_index(s, id)].id == id,
        forall|j: int| 0 <= j < first_id_index(s, id) ==> s[j].id != id,
    decreases s.len(),
{
    if s.len() > 0 && s[0].id != id {
        let i = choose|i: int| 0 <= i < s.len() && s[i].id == id;
        assert(s.drop_first()[i - 1] == s[i]);
        assert(has_id(s.drop_first(), id));
        lemma_first_id_index(s.drop_first(), id);
        let k1 = first_id_index(s.drop_first(), id);
        assert(s[k1 + 1] == s.drop_first()[k1]);
        assert(forall|j: int| 1 <= j < k1 + 1 ==> s[j] == s.drop_first()[j - 1]);
    }
}

/// The record that `add_task` appends to a store of value `s`.
pub open spec fn added_task(s: Seq<TaskView>, title: Seq<char>) -> TaskView {
    TaskView { id: (s.len() + 1) as u32, title: title, completed: false }
}

/// The store after deleting id `id`: the first match is removed,
/// an absent id leaves the store unchanged.
pub open spec fn spec_delete(s: Seq<TaskView>, id: u32) -> Seq<TaskView> {
    if has_id(s, id) {
        s.remove(first_id_index(s, id))
    } else {
        s
    }
}

/// The store after retitling id `id`: only the title of the first match
/// changes, an absent id leaves the store unchanged.
pub open spec fn spec_edit(s: Seq<TaskView>, id: u32, title: Seq<char>) -> Seq<TaskView> {
    if has_id(s, id) {
        let k = first_id_index(s, id);
        s.update(k, TaskView { id: s[k].id, title: title, completed: s[k].completed })
    } else {
        s
    }
}

/// The store after completing id `id`: only the flag of the first match
/// changes, an absent id leaves the store unchanged.
pub open spec fn spec_complete(s: Seq<TaskView>, id: u32) -> Seq<TaskView> {
    if has_id(s, id) {
        let k = first_id_index(s, id);
        s.update(k, TaskView { id: s[k].id, title: s[k].title, completed: true })
    } else {
        s
    }
}

/// The ordered collection of tasks; insertion order is display order.
pub struct TaskList {
    tasks: Vec<Task>,
}

impl View for TaskList {
    type V = Seq<TaskView>;

    closed spec fn view(&self) -> Seq<TaskView> {
        self.tasks@.map_values(|t: Task| t@)
    }
}

impl TaskList {
    /// An empty store.
    pub fn new() -> (r: Self)
        ensures
            r@ == Seq::<TaskView>::empty(),
    {
        let r = TaskList { tasks: Vec::new() };
        proof {
            assert(r@ =~= Seq::<TaskView>::empty());
        }
        r
    }

    /// Wraps already-built records as a store.
    pub(crate) fn from_tasks(tasks: Vec<Task>) -> (r: TaskList)
        ensures
            r@ == tasks@.map_values(|t: Task| t@),
    {
        TaskList { tasks }
    }

    /// How many tasks the store holds.
    pub fn len(&self) -> (n: usize)
        ensures
            n == self@.len(),
    {
        self.tasks.len()
    }

    /// The task at display position `i`.
    pub fn get(&self, i: usize) -> (t: &Task)
        requires
            i < self@.len(),
        ensures
            t@ == self@[i as int],
    {
        &self.tasks[i]
    }

    /// Appends a new task titled `title`; its id is the new length,
    /// and it starts out not completed.
    pub fn add_task(&mut self, title: String)
        requires
            old(self)@.len() < u32::MAX,
        ensures
            final(self)@ == old(self)@.push(added_task(old(self)@, title@)),
    {
        let new_id = (self.tasks.len() as u32) + 1;
        let ghost pre = self@;
        self.tasks.push(Task { id: new_id, title, completed: false });
        proof {
            assert(final(self)@ =~= pre.push(added_task(pre, final(self).tasks@.last().title@)));
        }
    }

    /// The position of the first task with id `id`, if any.
    pub fn find_index(&self, id: u32) -> (r: Option<usize>)
        ensures
            match r {
                Some(k) => {
                    &&& has_id(self@, id)
                    &&& k == first_id_index(self@, id)
                    &&& k < self@.len()
                },
                None => !has_id(self@, id),
            },
    {
        let n = self.tasks.len();
        for i in iter: 0..n
            invariant
                n == self.tasks.len(),
                forall|j: int| 0 <= j < i ==> self@[j].id != id,
        {
            if self.tasks[i].id == id {
                proof {
                    lemma_first_id_index_unique(self@, id, i as int);
                }
                return Some(i);
            }
        }
        proof {
            assert(forall|j: int| 0 <= j < self@.len() ==> self@[j].id != id);
        }
        None
    }

    /// Removes the first task with id `id`; an absent id is a no-op.
    pub fn delete_task(&mut self, id: u32)
        ensures
            final(self)@ == spec_delete(old(self)@, id),
    {
        let ghost pre = self@;
        if let Some(k) = self.find_index(id) {
            self.tasks.remove(k);
            proof {
                assert(final(self)@ =~= pre.remove(first_id_index(pre, id)));
            }
        }
    }

    /// Retitles the first task with id `id`; reports whether it was found.
    /// An absent id leaves the store unchanged.
    pub fn edit_task(&mut self, id: u32, new_title: String) -> (found: bool)
        ensures
            final(self)@ == spec_edit(old(self)@, id, new_title@),
            found == has_id(old(self)@, id),
    {
        let ghost pre = self@;
        if let Some(k) = self.find_index(id) {
            let old_task = self.tasks.remove(k);
            self.tasks.insert(
                k,
                Task { id: old_task.id, title: new_title, completed: old_task.completed },
            );
            proof {
                let ki = first_id_index(pre, id);
                assert(final(self)@ =~= pre.update(
                    ki,
                    TaskView { id: pre[ki].id, title: new_title@, completed: pre[ki].completed },
                ));
            }
            true
        } else {
            false
        }
    }

    /// Marks the first task with id `id` as completed; reports whether it
    /// was found. An absent id leaves the store unchanged.
    pub fn complete_task(&mut self, id: u32) -> (found: bool)
        ensures
            final(self)@ == spec_complete(old(self)@, id),
            found == has_id(old(self)@, id),
    {
        let ghost pre = self@;
        if let Some(k) = self.find_index(id) {
            let old_task = self.tasks.remove(k);
            self.tasks.insert(k, Task { id: old_task.id, title: old_task.title, completed: true });
            proof {
                let ki = first_id_index(pre, id);
                assert(final(self)@ =~= pre.update(
                    ki,
                    TaskView { id: pre[ki].id, title: pre[ki].title, completed: true },
                ));
            }
            true
        } else {
            false
        }
    }
}

/// Every task's id is its 1-based display position.
pub open spec fn sequentially_numbered(s: Seq<TaskView>) -> bool {
    forall|i: int| 0 <= i < s.len() ==> s[i].id == i + 1
}

/// On a store built by adds alone, the nth added task receives id n:
/// adding preserves sequential numbering, and the new record's id is the
/// new length.
pub proof fn lemma_add_assigns_next_id(s: Seq<TaskView>, title: Seq<char>)
    requires
        sequentially_numbered(s),
        s.len() < u32::MAX,
    ensures
        sequentially_numbered(s.push(added_task(s, title))),
        s.push(added_task(s, title))[s.len() as int].id == s.len() + 1,
{
    let s2 = s.push(added_task(s, title));
    assert forall|i: int| 0 <= i < s2.len() implies s2[i].id == i + 1 by {
        if i < s.len() {
            assert(s2[i] == s[i]);
        }
    }
}

/// Deleting can make ids collide: when a surviving task already carries
/// id `length + 1`, the next added task duplicates that id.
pub proof fn lemma_add_can_collide(s: Seq<TaskView>, title: Seq<char>, j: int)
    requires
        0 <= j < s.len(),
        s[j].id == s.len() + 1,
        s.len() < u32::MAX,
    ensures
        s.push(added_task(s, title))[j].id == s.push(added_task(s, title))[s.len() as int].id,
        j != s.len() as int,
{
}

/// Completing is idempotent: a second `complete_task` on the same id
/// changes nothing.
pub proof fn lemma_complete_idempotent(s: Seq<TaskView>, id: u32)
    ensures
        spec_complete(spec_complete(s, id), id) == spec_complete(s, id),
{
    if has_id(s, id) {
        lemma_first_id_index(s, id);
        let k = first_id_index(s, id);
        let s2 = spec_complete(s, id);
        assert(s2[k].id == id);
        assert(forall|j: int| 0 <= j < k ==> s2[j].id != id);
        lemma_first_id_index_unique(s2, id, k);
        assert(spec_complete(s2, id) =~= s2);
    }
}

} // verus!
