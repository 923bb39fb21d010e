//! The display ordering of tasks: dated tasks first in ascending date
//! order, then undated tasks in ascending id order, computed without
//! touching the stored order.  Equal keys keep their stored order.

use vstd::prelude::*;
use vstd::seq_lib::lemma_multiset_commutative;

use crate::date::date_lt;
use crate::task::{views_of, TaskView, Todo};

verus! {

/// Display order: a task with a due date comes before one without; two
/// dated tasks go by date; two undated tasks go by id.
pub open spec fn task_le(a: TaskView, b: TaskView) -> bool {
    match (a.due_date, b.due_date) {
        (Some(da), Some(db)) => !date_lt(db, da),
        (Some(_), None) => true,
        (None, Some(_)) => false,
        (None, None) => a.id <= b.id,
    }
}

/// Non-decreasing in the display order.
pub open spec fn sorted_by_due(s: Seq<TaskView>) -> bool {
    forall|i: int, j: int| 0 <= i < j < s.len() ==> task_le(#[trigger] s[i], #[trigger] s[j])
}

/// Places `x` before the first entry strictly greater than it, so an
/// entry equal in the order to earlier ones goes after them.
pub open spec fn insert_sorted(s: Seq<TaskView>, x: TaskView) -> Seq<TaskView>
    decreases s.len(),
{
    if s.len() == 0 {
        seq![x]
    } else if !task_le(s[0], x) {
        seq![x] + s
    } else {
        seq![s[0]] + insert_sorted(s.drop_first(), x)
    }
}

/// The display ordering of a task sequence: a stable insertion sort.
pub open spec fn sort_spec(s: Seq<TaskView>) -> Seq<TaskView>
    decreases s.len(),
{
    if s.len() == 0 {
        Seq::empty()
    } else {
        insert_sorted(sort_spec(s.drop_last()), s.last())
    }
}

proof fn lemma_insert_sorted_props(s: Seq<TaskView>, x: TaskView)
    requires
        sorted_by_due(s),
    ensures
        sorted_by_due(insert_sorted(s, x)),
        insert_sorted(s, x).to_multiset() == s.to_multiset().insert(x),
        insert_sorted(s, x).len() == s.len() + 1,
        forall|k: int|
            0 <= k < insert_sorted(s, x).len() ==> #[trigger] insert_sorted(s, x)[k] == x
                || s.contains(insert_sorted(s, x)[k]),
    decreases s.len(),
{
    broadcast use vstd::seq_lib::group_to_multiset_ensures;

    let r = insert_sorted(s, x);
    if s.len() == 0 {
        assert(seq![x] =~= Seq::<TaskView>::empty().push(x));
        assert(r.to_multiset() =~= s.to_multiset().insert(x));
    } else if !task_le(s[0], x) {
        lemma_multiset_commutative(seq![x], s);
        assert(seq![x] =~= Seq::<TaskView>::empty().push(x));
        assert(r.to_multiset() =~= s.to_multiset().insert(x));
        assert forall|i: int, j: int| 0 <= i < j < r.len() implies task_le(
            #[trigger] r[i],
            #[trigger] r[j],
        ) by {
            if i == 0 {
                assert(r[j] == s[j - 1]);
                assert(task_le(x, s[0]));
                if j > 1 {
                    assert(task_le(s[0], s[j - 1]));
                }
            } else {
                assert(r[i] == s[i - 1] && r[j] == s[j - 1]);
            }
        }
        assert forall|k: int| 0 <= k < r.len() implies #[trigger] r[k] == x || s.contains(
            r[k],
        ) by {
            if k > 0 {
                assert(r[k] == s[k - 1]);
            }
        }
    } else {
        let rest = s.drop_first();
        assert forall|i: int, j: int| 0 <= i < j < rest.len() implies task_le(
            #[trigger] rest[i],
            #[trigger] rest[j],
        ) by {
            assert(rest[i] == s[i + 1] && rest[j] == s[j + 1]);
        }
        lemma_insert_sorted_props(rest, x);
        let ir = insert_sorted(rest, x);
        lemma_multiset_commutative(seq![s[0]], ir);
        assert(seq![s[0]] =~= Seq::<TaskView>::empty().push(s[0]));
        assert(s =~= seq![s[0]] + rest);
        lemma_multiset_commutative(seq![s[0]], rest);
        assert(r.to_multiset() =~= s.to_multiset().insert(x));
        assert forall|k: int| 0 <= k < r.len() implies #[trigger] r[k] == x || s.contains(
            r[k],
        ) by {
            if k == 0 {
                assert(r[0] == s[0] && s[0] == s[0int]);
            } else {
                assert(r[k] == ir[k - 1]);
                if ir[k - 1] != x {
                    assert(rest.contains(ir[k - 1]));
                    let m = choose|m: int| 0 <= m < rest.len() && rest[m] == ir[k - 1];
                    assert(s[m + 1] == rest[m]);
                }
            }
        }
        assert forall|i: int, j: int| 0 <= i < j < r.len() implies task_le(
            #[trigger] r[i],
            #[trigger] r[j],
        ) by {
            if i == 0 {
                assert(r[j] == ir[j - 1]);
                if ir[j - 1] == x {
                    assert(task_le(s[0], x));
                } else {
                    assert(rest.contains(ir[j - 1]));
                    let m = choose|m: int| 0 <= m < rest.len() && rest[m] == ir[j - 1];
                    assert(s[m + 1] == rest[m]);
                    assert(task_le(s[0], s[m + 1]));
                }
            } else {
                assert(r[i] == ir[i - 1] && r[j] == ir[j - 1]);
            }
        }
    }
}

/// Law: the display ordering neither loses nor invents tasks — it is a
/// permutation of the stored tasks — and it is sorted in the display
/// order.
pub proof fn lemma_sort_spec_correct(s: Seq<TaskView>)
    ensures
        sort_spec(s).to_multiset() == s.to_multiset(),
        sorted_by_due(sort_spec(s)),
        sort_spec(s).len() == s.len(),
    decreases s.len(),
{
    broadcast use vstd::seq_lib::group_to_multiset_ensures;

    if s.len() > 0 {
        let head = s.drop_last();
        lemma_sort_spec_correct(head);
        lemma_insert_sorted_props(sort_spec(head), s.last());
        assert(s =~= head.push(s.last()));
        assert(sort_spec(s).to_multiset() =~= s.to_multiset());
    }
}

fn le_exec(a: &Todo, b: &Todo) -> (r: bool)
    ensures
        r == task_le(a@, b@),
{
    match (&a.due_date, &b.due_date) {
        (Some(da), Some(db)) => !db.is_before(da),
        (Some(_), None) => true,
        (None, Some(_)) => false,
        (None, None) => a.id <= b.id,
    }
}

proof fn lemma_insert_sorted_at(s: Seq<TaskView>, x: TaskView, p: int)
    requires
        0 <= p <= s.len(),
        forall|j: int| 0 <= j < p ==> task_le(#[trigger] s[j], x),
        p < s.len() ==> !task_le(s[p], x),
    ensures
        insert_sorted(s, x) == s.insert(p, x),
    decreases s.len(),
{
    if p == 0 {
        if s.len() == 0 {
            assert(insert_sorted(s, x) =~= s.insert(0, x));
        } else {
            assert(insert_sorted(s, x) =~= s.insert(0, x));
        }
    } else {
        assert(task_le(s[0], x));
        let rest = s.drop_first();
        assert forall|j: int| 0 <= j < p - 1 implies task_le(#[trigger] rest[j], x) by {
            assert(rest[j] == s[j + 1]);
        }
        assert(p - 1 < rest.len() ==> !task_le(rest[p - 1], x));
        lemma_insert_sorted_at(rest, x, p - 1);
        assert(insert_sorted(s, x) =~= s.insert(p, x));
    }
}

/// A freshly computed copy of the tasks in display order; the input
/// order is untouched.
pub fn sorted_tasks(todos: &Vec<Todo>) -> (r: Vec<Todo>)
    ensures
        views_of(r@) == sort_spec(views_of(todos@)),
{
    let v = Ghost(views_of(todos@));
    let mut r: Vec<Todo> = Vec::new();
    let mut k: usize = 0;
    proof {
        assert(views_of(r@) =~= sort_spec(v@.take(0)));
    }
    while k < todos.len()
        invariant
            k <= todos.len(),
            v@ == views_of(todos@),
            views_of(r@) == sort_spec(v@.take(k as int)),
        decreases todos.len() - k,
    {
        let x = todos[k].duplicate();
        let mut p: usize = 0;
        loop
            invariant
                p <= r.len(),
                forall|j: int| 0 <= j < p ==> task_le(#[trigger] views_of(r@)[j], x@),
            ensures
                p <= r.len(),
                forall|j: int| 0 <= j < p ==> task_le(#[trigger] views_of(r@)[j], x@),
                p < r.len() ==> !task_le(views_of(r@)[p as int], x@),
            decreases r.len() - p,
        {
            if p >= r.len() {
                break ;
            }
            if !le_exec(&r[p], &x) {
                break ;
            }
            proof {
                assert(views_of(r@)[p as int] == r@[p as int]@);
            }
            p += 1;
        }
        proof {
            lemma_insert_sorted_at(views_of(r@), x@, p as int);
        }
        let ghost r_old = r@;
        r.insert(p, x);
        k += 1;
        proof {
            assert(views_of(r@) =~= views_of(r_old).insert(p as int, x@));
            assert(v@.take(k as int).drop_last() =~= v@.take(k as int - 1));
            assert(v@.take(k as int).last() == x@);
        }
    }
    proof {
        assert(v@.take(todos@.len() as int) =~= v@);
    }
    r
}

} // verus!
