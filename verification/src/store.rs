//! The task store: an ordered list of tasks plus the next id to hand
//! out, with the add / complete / delete operations and the laws they
//! obey.

use vstd::prelude::*;

use crate::codec::{
    encode_doc, encode_tasks, lemma_parse_doc_props, lemma_parse_of_encode, parse_doc, parse_doc_x,
};
use crate::date::{date_lt, Date};
use crate::sorting::{sort_spec, sorted_tasks};
use crate::task::{views_of, TaskView, Todo};
use crate::text::str_to_chars;

verus! {

/// The mathematical value of a store: the task views in stored
/// (insertion) order, and the id the next added task will get.
pub struct StoreView {
    pub tasks: Seq<TaskView>,
    pub next_id: u64,
}

/// Well-formedness: ids were handed out below `next_id`, and every due
/// date on file names a real calendar day.
pub open spec fn store_wf(s: StoreView) -> bool {
    &&& s.next_id >= 1
    &&& forall|i: int| 0 <= i < s.tasks.len() ==> (#[trigger] s.tasks[i]).id < s.next_id
    &&& forall|i: int| 0 <= i < s.tasks.len() ==> (#[trigger] s.tasks[i]).dates_valid()
}

/// The in-memory task store.
pub struct TodoList {
    todos: Vec<Todo>,
    next_id: u64,
}

impl View for TodoList {
    type V = StoreView;

    closed spec fn view(&self) -> StoreView {
        StoreView { tasks: views_of(self.todos@), next_id: self.next_id }
    }
}

/// The due date a task is stored with: a date strictly earlier than
/// today is dropped, never rejected.
pub open spec fn effective_due(due: Option<Date>, today: Date) -> Option<Date> {
    match due {
        Some(d) => if date_lt(d, today) {
            None
        } else {
            Some(d)
        },
        None => None,
    }
}

/// What `add` does to the store's value.
pub open spec fn add_spec(s: StoreView, descr: Seq<char>, due: Option<Date>, today: Date) -> StoreView {
    StoreView {
        tasks: s.tasks.push(
            TaskView {
                id: s.next_id,
                task: descr,
                completed: false,
                due_date: effective_due(due, today),
            },
        ),
        next_id: (s.next_id + 1) as u64,
    }
}

/// The position of the first task with the given id, or -1 if none.
pub open spec fn find_index(tasks: Seq<TaskView>, id: u64) -> int
    decreases tasks.len(),
{
    if tasks.len() == 0 {
        -1
    } else if tasks[0].id == id {
        0
    } else {
        let r = find_index(tasks.drop_first(), id);
        if r < 0 {
            -1
        } else {
            r + 1
        }
    }
}

/// What `complete` does to the store's value.
pub open spec fn complete_spec(s: StoreView, id: u64) -> StoreView {
    let i = find_index(s.tasks, id);
    if i < 0 {
        s
    } else {
        StoreView {
            tasks: s.tasks.update(i, TaskView { completed: true, ..s.tasks[i] }),
            next_id: s.next_id,
        }
    }
}

/// What `delete` does to the store's value.
pub open spec fn delete_spec(s: StoreView, id: u64) -> StoreView {
    let i = find_index(s.tasks, id);
    if i < 0 {
        s
    } else {
        StoreView { tasks: s.tasks.remove(i), next_id: s.next_id }
    }
}

/// `find_index` points at the first occurrence of the id, and is -1
/// exactly when the id is absent.
pub proof fn lemma_find_index(tasks: Seq<TaskView>, id: u64)
    ensures
        find_index(tasks, id) == -1 || 0 <= find_index(tasks, id) < tasks.len(),
        find_index(tasks, id) >= 0 ==> tasks[find_index(tasks, id)].id == id,
        forall|j: int|
            0 <= j < tasks.len() && (#[trigger] tasks[j]).id == id ==> 0 <= find_index(tasks, id)
                <= j,
        find_index(tasks, id) == -1 ==> forall|j: int|
            0 <= j < tasks.len() ==> (#[trigger] tasks[j]).id != id,
        forall|j: int| 0 <= j < find_index(tasks, id) ==> (#[trigger] tasks[j]).id != id,
    decreases tasks.len(),
{
    if tasks.len() > 0 && tasks[0].id != id {
        let rest = tasks.drop_first();
        lemma_find_index(rest, id);
        let r = find_index(rest, id);
        if r >= 0 {
            assert(tasks[r + 1] == rest[r]);
            assert forall|j: int|
                0 <= j < tasks.len() && (#[trigger] tasks[j]).id == id implies 0 <= find_index(
                tasks,
                id,
            ) <= j by {
                assert(rest[j - 1] == tasks[j]);
            }
            assert forall|j: int|
                0 <= j < find_index(tasks, id) implies (#[trigger] tasks[j]).id != id by {
                if j > 0 {
                    assert(rest[j - 1] == tasks[j]);
                }
            }
        } else {
            assert forall|j: int| 0 <= j < tasks.len() implies (#[trigger] tasks[j]).id != id by {
                if j > 0 {
                    assert(rest[j - 1] == tasks[j]);
                }
            }
        }
    }
}

impl TodoList {
    /// Well-formedness of the store's value.
    pub open spec fn wf(self) -> bool {
        store_wf(self@)
    }

    /// An empty store; the first task added will get id 1.
    pub fn new() -> (r: TodoList)
        ensures
            r@.tasks == Seq::<TaskView>::empty(),
            r@.next_id == 1,
            r.wf(),
    {
        let r = TodoList { todos: Vec::new(), next_id: 1 };
        proof {
            assert(r@.tasks =~= Seq::<TaskView>::empty());
        }
        r
    }

    /// The stored tasks, in insertion order.
    pub fn tasks(&self) -> (r: &Vec<Todo>)
        ensures
            views_of(r@) == self@.tasks,
    {
        &self.todos
    }

    /// The id the next added task will receive.
    pub fn next_id(&self) -> (r: u64)
        ensures
            r == self@.next_id,
    {
        self.next_id
    }

    /// Appends a new, not yet completed task under the next free id.  A
    /// due date strictly earlier than `today` is dropped, so the task is
    /// stored without one; the add itself never fails.
    pub fn add(&mut self, task: String, due_date: Option<Date>, today: Date)
        requires
            old(self).wf(),
            old(self)@.next_id < u64::MAX,
            due_date matches Some(d) ==> d.valid(),
        ensures
            final(self)@ == add_spec(old(self)@, task@, due_date, today),
            final(self).wf(),
    {
        let due = match due_date {
            Some(d) => if d.is_before(&today) {
                None
            } else {
                Some(d)
            },
            None => None,
        };
        let todo = Todo { id: self.next_id, task, completed: false, due_date: due };
        self.todos.push(todo);
        self.next_id = self.next_id + 1;
        proof {
            assert(self@.tasks =~= add_spec(old(self)@, task@, due_date, today).tasks);
        }
    }

    /// The position of the first task with the given id, if any.
    fn find_pos(&self, id: u64) -> (r: Option<usize>)
        ensures
            match r {
                Some(j) => j == find_index(self@.tasks, id),
                None => find_index(self@.tasks, id) == -1,
            },
    {
        proof {
            lemma_find_index(self@.tasks, id);
        }
        let n = self.todos.len();
        let mut i: usize = 0;
        while i < n
            invariant
                i <= n,
                n == self.todos.len(),
                forall|k: int| 0 <= k < i ==> (#[trigger] self@.tasks[k]).id != id,
            decreases n - i,
        {
            if self.todos[i].id == id {
                proof {
                    lemma_find_index(self@.tasks, id);
                    let f = find_index(self@.tasks, id);
                    assert(self@.tasks[i as int] == self.todos@[i as int]@);
                    assert(self@.tasks[i as int].id == id);
                    assert(0 <= f <= i);
                    if f < i {
                        assert(self@.tasks[f].id != id);
                        assert(false);
                    }
                }
                return Some(i);
            }
            i += 1;
        }
        None
    }

    /// Marks the first task with the given id as completed and says
    /// whether one was found; completing an already completed task
    /// changes nothing.  Nothing else about the store changes.
    pub fn complete(&mut self, id: u64) -> (found: bool)
        requires
            old(self).wf(),
        ensures
            final(self)@ == complete_spec(old(self)@, id),
            found == (find_index(old(self)@.tasks, id) >= 0),
            final(self).wf(),
    {
        proof {
            lemma_find_index(self@.tasks, id);
        }
        match self.find_pos(id) {
            Some(i) => {
                let old_todo = &self.todos[i];
                let updated = Todo {
                    id: old_todo.id,
                    task: old_todo.task.clone(),
                    completed: true,
                    due_date: old_todo.due_date,
                };
                self.todos[i] = updated;
                proof {
                    assert(self@.tasks =~= complete_spec(old(self)@, id).tasks);
                }
                true
            },
            None => false,
        }
    }

    /// A freshly computed copy of the tasks in display order, leaving
    /// the stored order untouched.
    pub fn list(&self) -> (r: Vec<Todo>)
        ensures
            views_of(r@) == sort_spec(self@.tasks),
    {
        sorted_tasks(&self.todos)
    }

    /// The text under which this store's tasks are persisted; writing
    /// it out is the caller's business.
    pub fn save(&self) -> (r: String)
        requires
            self.wf(),
        ensures
            r@ == encode_doc(self@.tasks),
    {
        proof {
            assert forall|i: int|
                0 <= i < self.todos@.len() implies (#[trigger] self.todos@[i]@).dates_valid() by {
                assert(self@.tasks[i] == self.todos@[i]@);
            }
        }
        encode_tasks(&self.todos)
    }

    /// Builds the store the persisted text describes.  No text, or text
    /// not of the schema, gives a fresh empty store — loading never
    /// fails; otherwise the next id is recomputed as one past the
    /// largest id on file.
    pub fn load(text: Option<&str>) -> (r: TodoList)
        ensures
            r@ == load_spec(
                match text {
                    Some(s) => Some(s@),
                    None => None,
                },
            ),
            r.wf(),
    {
        match text {
            None => TodoList::new(),
            Some(s) => {
                let chars = str_to_chars(s);
                match parse_doc_x(&chars) {
                    None => TodoList::new(),
                    Some(v) => {
                        proof {
                            lemma_parse_doc_props(s@);
                            lemma_max_id_bounds(views_of(v@));
                        }
                        let n = v.len();
                        let mut m: u64 = 0;
                        let mut i: usize = 0;
                        proof {
                            assert(views_of(v@).take(0) =~= Seq::<TaskView>::empty());
                        }
                        while i < n
                            invariant
                                i <= n,
                                n == v@.len(),
                                m == max_id(views_of(v@).take(i as int)),
                                m < u64::MAX,
                                forall|k: int|
                                    0 <= k < n ==> (#[trigger] views_of(v@)[k]).id < u64::MAX,
                            decreases n - i,
                        {
                            if v[i].id > m {
                                m = v[i].id;
                            }
                            i += 1;
                            proof {
                                let vw = views_of(v@);
                                assert(vw.take(i as int).drop_last() =~= vw.take(i as int - 1));
                                assert(vw.take(i as int).last() == vw[i as int - 1]);
                                assert(vw[i as int - 1] == v@[i as int - 1]@);
                            }
                        }
                        proof {
                            assert(views_of(v@).take(n as int) =~= views_of(v@));
                        }
                        let r = TodoList { todos: v, next_id: m + 1 };
                        proof {
                            lemma_max_id_bounds(r@.tasks);
                        }
                        r
                    },
                }
            },
        }
    }

    /// Removes the first task with the given id and says whether one was
    /// found; ids of the remaining tasks are untouched, and the next id
    /// never goes back down.
    pub fn delete(&mut self, id: u64) -> (found: bool)
        requires
            old(self).wf(),
        ensures
            final(self)@ == delete_spec(old(self)@, id),
            found == (find_index(old(self)@.tasks, id) >= 0),
            final(self).wf(),
    {
        proof {
            lemma_find_index(self@.tasks, id);
        }
        match self.find_pos(id) {
            Some(i) => {
                self.todos.remove(i);
                proof {
                    assert(self@.tasks =~= delete_spec(old(self)@, id).tasks);
                }
                true
            },
            None => false,
        }
    }
}

/// The largest id among the tasks, 0 when there are none.
pub open spec fn max_id(tasks: Seq<TaskView>) -> u64
    decreases tasks.len(),
{
    if tasks.len() == 0 {
        0
    } else {
        let m = max_id(tasks.drop_last());
        if tasks.last().id > m {
            tasks.last().id
        } else {
            m
        }
    }
}

/// The largest id bounds every id, and is one of them when any exist.
pub proof fn lemma_max_id_bounds(tasks: Seq<TaskView>)
    ensures
        forall|i: int| 0 <= i < tasks.len() ==> (#[trigger] tasks[i]).id <= max_id(tasks),
        tasks.len() > 0 ==> exists|i: int|
            0 <= i < tasks.len() && (#[trigger] tasks[i]).id == max_id(tasks),
        tasks.len() == 0 ==> max_id(tasks) == 0,
    decreases tasks.len(),
{
    if tasks.len() > 0 {
        let head = tasks.drop_last();
        lemma_max_id_bounds(head);
        assert forall|i: int| 0 <= i < tasks.len() implies (#[trigger] tasks[i]).id <= max_id(
            tasks,
        ) by {
            if i < tasks.len() - 1 {
                assert(head[i] == tasks[i]);
                assert(head[i].id <= max_id(head));
            }
        }
        if tasks.last().id > max_id(head) {
            assert(tasks[tasks.len() - 1].id == max_id(tasks));
        } else if head.len() > 0 {
            let i = choose|i: int| 0 <= i < head.len() && #[trigger] head[i].id == max_id(head);
            assert(tasks[i].id == max_id(tasks));
        }
    }
}

/// What `load` means: no persisted text, or text not of the schema,
/// gives the empty store with next id 1; good text gives its tasks with
/// the next id one past the largest id on file.
pub open spec fn load_spec(text: Option<Seq<char>>) -> StoreView {
    match text {
        None => StoreView { tasks: Seq::empty(), next_id: 1 },
        Some(t) => match parse_doc(t) {
            None => StoreView { tasks: Seq::empty(), next_id: 1 },
            Some(ts) => StoreView { tasks: ts, next_id: (max_id(ts) + 1) as u64 },
        },
    }
}

/// Law: saving a store and reading the text back gives exactly the
/// same tasks; only the next id is not carried over — the loader
/// recomputes it as one past the largest id, 1 for an empty list.
pub proof fn lemma_save_then_load(s: StoreView)
    requires
        store_wf(s),
    ensures
        ({
            let l = load_spec(Some(encode_doc(s.tasks)));
            &&& l.tasks == s.tasks
            &&& l.next_id == (max_id(s.tasks) + 1) as u64
            &&& s.tasks.len() == 0 ==> l.next_id == 1
        }),
{
    lemma_parse_of_encode(s.tasks);
}

/// Law: an add appends exactly one task, that task gets the next id —
/// strictly greater than every id already in the store — and the next
/// id moves up by one, so deletion never makes an id come back.
pub proof fn lemma_add_ids_increase(s: StoreView, descr: Seq<char>, due: Option<Date>, today: Date)
    requires
        store_wf(s),
        s.next_id < u64::MAX,
        due matches Some(d) ==> d.valid(),
    ensures
        ({
            let s1 = add_spec(s, descr, due, today);
            &&& s1.tasks.len() == s.tasks.len() + 1
            &&& s1.tasks.last().id == s.next_id
            &&& forall|i: int| 0 <= i < s.tasks.len() ==> #[trigger] s1.tasks[i] == s.tasks[i]
            &&& forall|i: int|
                0 <= i < s.tasks.len() ==> (#[trigger] s1.tasks[i]).id < s1.tasks.last().id
            &&& s1.next_id == s.next_id + 1
            &&& store_wf(s1)
        }),
{
}

/// The store after a run of adds, one per description / due date pair,
/// all judged against the same current date.
pub open spec fn add_all(s: StoreView, items: Seq<(Seq<char>, Option<Date>)>, today: Date) -> StoreView
    decreases items.len(),
{
    if items.len() == 0 {
        s
    } else {
        add_all(add_spec(s, items[0].0, items[0].1, today), items.drop_first(), today)
    }
}

/// Law: a run of adds assigns consecutive ids with no gaps, starting at
/// the store's next id (so starting at 1 on a fresh store), and leaves
/// the tasks already present untouched.
pub proof fn lemma_adds_gapless(s: StoreView, items: Seq<(Seq<char>, Option<Date>)>, today: Date)
    requires
        store_wf(s),
        s.next_id + items.len() <= u64::MAX,
        forall|k: int| 0 <= k < items.len() ==> ((#[trigger] items[k]).1 matches Some(d) ==> d.valid()),
    ensures
        ({
            let s1 = add_all(s, items, today);
            &&& s1.tasks.len() == s.tasks.len() + items.len()
            &&& s1.next_id == s.next_id + items.len()
            &&& forall|i: int| 0 <= i < s.tasks.len() ==> #[trigger] s1.tasks[i] == s.tasks[i]
            &&& forall|k: int|
                0 <= k < items.len() ==> (#[trigger] s1.tasks[s.tasks.len() + k]).id == s.next_id
                    + k
            &&& store_wf(s1)
        }),
    decreases items.len(),
{
    if items.len() > 0 {
        let s_mid = add_spec(s, items[0].0, items[0].1, today);
        lemma_add_ids_increase(s, items[0].0, items[0].1, today);
        lemma_adds_gapless(s_mid, items.drop_first(), today);
        let s1 = add_all(s, items, today);
        assert forall|k: int|
            0 <= k < items.len() implies (#[trigger] s1.tasks[s.tasks.len() + k]).id == s.next_id
            + k by {
            if k == 0 {
                assert(s1.tasks[s.tasks.len() as int] == s_mid.tasks[s_mid.tasks.len() - 1]);
            } else {
                assert(s1.tasks[s_mid.tasks.len() + (k - 1)].id == s_mid.next_id + (k - 1));
            }
        }
    }
}

/// `find_index` looks only at ids, so it is unmoved by changes that
/// keep every id in place.
proof fn lemma_find_index_same_ids(a: Seq<TaskView>, b: Seq<TaskView>, id: u64)
    requires
        a.len() == b.len(),
        forall|i: int| 0 <= i < a.len() ==> (#[trigger] a[i]).id == (#[trigger] b[i]).id,
    ensures
        find_index(a, id) == find_index(b, id),
    decreases a.len(),
{
    if a.len() > 0 {
        assert(a[0].id == b[0].id);
        lemma_find_index_same_ids(a.drop_first(), b.drop_first(), id);
        assert(forall|i: int|
            0 <= i < a.len() - 1 ==> (#[trigger] a.drop_first()[i]) == a[i + 1] && (
            #[trigger] b.drop_first()[i]) == b[i + 1]);
    }
}

/// Law: completing the same id twice leaves exactly the state one
/// completion leaves; completing an absent id changes nothing.
pub proof fn lemma_complete_idempotent(s: StoreView, id: u64)
    ensures
        complete_spec(complete_spec(s, id), id) == complete_spec(s, id),
{
    lemma_find_index(s.tasks, id);
    let i = find_index(s.tasks, id);
    if i >= 0 {
        let s1 = complete_spec(s, id);
        lemma_find_index_same_ids(s.tasks, s1.tasks, id);
        let t1 = s1.tasks[i];
        assert(TaskView { completed: true, ..t1 } == t1);
        assert(complete_spec(s1, id).tasks =~= s1.tasks);
        assert(complete_spec(s1, id) == s1);
    }
}

/// Law: when the id is present, a delete removes exactly that one task
/// — the first carrying the id — and every other task, and in
/// particular its id, is untouched; the next id does not move.
pub proof fn lemma_delete_removes_exactly_one(s: StoreView, id: u64)
    requires
        find_index(s.tasks, id) >= 0,
    ensures
        ({
            let i = find_index(s.tasks, id);
            let s1 = delete_spec(s, id);
            &&& s1.tasks.len() == s.tasks.len() - 1
            &&& s.tasks[i].id == id
            &&& forall|j: int| 0 <= j < i ==> #[trigger] s1.tasks[j] == s.tasks[j]
            &&& forall|j: int|
                i <= j < s1.tasks.len() ==> #[trigger] s1.tasks[j] == s.tasks[j + 1]
            &&& s1.next_id == s.next_id
        }),
{
    lemma_find_index(s.tasks, id);
}

} // verus!
