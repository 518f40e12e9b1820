//! In-memory operations over a loaded collection: id assignment and the
//! mutations that the done, edit, remove and clear operations perform.

use vstd::prelude::*;

use crate::task::{Date, Priority, Task, TaskView};

verus! {

/// Some task in `s` carries the id `id`.
pub open spec fn contains_id(s: Seq<TaskView>, id: int) -> bool {
    exists|i: int| 0 <= i < s.len() && (#[trigger] s[i]).id == id
}

/// The largest id in `s`, and 0 when `s` is empty.
pub open spec fn max_id(s: Seq<TaskView>) -> int
    decreases s.len(),
{
    if s.len() == 0 {
        0
    } else {
        let rest = max_id(s.drop_last());
        if s.last().id >= rest {
            s.last().id
        } else {
            rest
        }
    }
}

/// `max_id` is an upper bound on every id and, over nonnegative ids, is
/// itself the id of some task whenever the collection is non-empty.
pub proof fn lemma_max_id_is_max(s: Seq<TaskView>)
    requires
        forall|i: int| 0 <= i < s.len() ==> (#[trigger] s[i]).id >= 0,
    ensures
        forall|i: int| 0 <= i < s.len() ==> (#[trigger] s[i]).id <= max_id(s),
        s.len() > 0 ==> exists|i: int| 0 <= i < s.len() && (#[trigger] s[i]).id == max_id(s),
    decreases s.len(),
{
    if s.len() > 0 {
        assert forall|i: int| 0 <= i < s.drop_last().len() implies (#[trigger] s.drop_last()[i]).id
            >= 0 by {
            assert(s.drop_last()[i] == s[i]);
        }
        lemma_max_id_is_max(s.drop_last());
        assert forall|i: int| 0 <= i < s.len() implies (#[trigger] s[i]).id <= max_id(s) by {
            if i < s.len() - 1 {
                assert(s.drop_last()[i] == s[i]);
            }
        }
        if s.len() == 1 {
            assert(s[0].id == max_id(s));
        } else if s.last().id < max_id(s.drop_last()) {
            let j = choose|j: int|
                0 <= j < s.drop_last().len() && (#[trigger] s.drop_last()[j]).id == max_id(
                    s.drop_last(),
                );
            assert(s.drop_last()[j] == s[j]);
            assert(s[j].id == max_id(s));
        } else {
            assert(s[s.len() - 1].id == max_id(s));
        }
    }
}

/// The id that the next added task receives: one more than the largest
/// id present, hence 1 for an empty collection.
pub fn next_id(tasks: &Vec<Task>) -> (r: usize)
    requires
        forall|i: int|
            0 <= i < tasks.deep_view().len() ==> (#[trigger] tasks.deep_view()[i]).id
                < usize::MAX as int,
    ensures
        r == max_id(tasks.deep_view()) + 1,
        tasks.deep_view().len() == 0 ==> r == 1,
{
    let ghost s = tasks.deep_view();
    let mut m: usize = 0;
    let mut i: usize = 0;
    while i < tasks.len()
        invariant
            s == tasks.deep_view(),
            s.len() == tasks@.len(),
            i <= tasks@.len(),
            m == max_id(s.take(i as int)),
            m < usize::MAX,
            forall|k: int|
                0 <= k < s.len() ==> (#[trigger] s[k]).id < usize::MAX as int,
        decreases tasks@.len() - i,
    {
        proof {
            assert(s.take(i + 1).drop_last() =~= s.take(i as int));
            assert(s.take(i + 1).last() == s[i as int]);
        }
        if tasks[i].id > m {
            m = tasks[i].id;
            assert(m as int == s[i as int].id);
        }
        i += 1;
    }
    proof {
        assert(s.take(s.len() as int) =~= s);
    }
    m + 1
}

/// The collection's standing invariant: every id is positive and no two
/// tasks share one.
pub open spec fn wf_collection(s: Seq<TaskView>) -> bool {
    &&& forall|i: int| 0 <= i < s.len() ==> (#[trigger] s[i]).id >= 1
    &&& forall|i: int, j: int| 0 <= i < j < s.len() ==> (#[trigger] s[i]).id != (#[trigger] s[j]).id
}

/// Adding a task under the next free id keeps ids positive and unique,
/// so an id is never reused while its task stands.
pub proof fn lemma_add_preserves_wf(s: Seq<TaskView>, t: TaskView)
    requires
        wf_collection(s),
        t.id == max_id(s) + 1,
    ensures
        wf_collection(s.push(t)),
{
    assert forall|i: int| 0 <= i < s.len() implies (#[trigger] s[i]).id >= 0 by {}
    lemma_max_id_is_max(s);
    let p = s.push(t);
    assert forall|i: int| 0 <= i < p.len() implies (#[trigger] p[i]).id >= 1 by {
        if i < s.len() {
            assert(p[i] == s[i]);
        } else {
            assert(p[i] == t);
            assert(max_id(s) >= 0) by {
                if s.len() > 0 {
                    let j = choose|j: int|
                        0 <= j < s.len() && (#[trigger] s[j]).id == max_id(s);
                    assert(s[j].id >= 1);
                }
            }
        }
    }
    assert forall|i: int, j: int| 0 <= i < j < p.len() implies (#[trigger] p[i]).id != (#[trigger] p[j]).id by {
        if j < s.len() {
            assert(p[i] == s[i] && p[j] == s[j]);
        } else {
            assert(p[j] == t);
            assert(p[i] == s[i]);
            assert(s[i].id <= max_id(s));
        }
    }
}

/// The same task with its completion flag set.
pub open spec fn set_done(t: TaskView) -> TaskView {
    TaskView { done: true, ..t }
}

/// The same task with its description replaced.
pub open spec fn set_text(t: TaskView, text: Seq<char>) -> TaskView {
    TaskView { text: text, ..t }
}

/// The collection after marking the first task with id `id` done;
/// unchanged when no task carries that id.
pub open spec fn mark_done_spec(s: Seq<TaskView>, id: int) -> Seq<TaskView>
    decreases s.len(),
{
    if s.len() == 0 {
        s
    } else if s[0].id == id {
        seq![set_done(s[0])] + s.skip(1)
    } else {
        seq![s[0]] + mark_done_spec(s.skip(1), id)
    }
}

/// The collection after replacing the text of the first task with id `id`;
/// unchanged when no task carries that id.
pub open spec fn edit_text_spec(s: Seq<TaskView>, id: int, text: Seq<char>) -> Seq<TaskView>
    decreases s.len(),
{
    if s.len() == 0 {
        s
    } else if s[0].id == id {
        seq![set_text(s[0], text)] + s.skip(1)
    } else {
        seq![s[0]] + edit_text_spec(s.skip(1), id, text)
    }
}

/// The collection after deleting every task with id `id`.
pub open spec fn remove_spec(s: Seq<TaskView>, id: int) -> Seq<TaskView> {
    s.filter(|t: TaskView| t.id != id)
}

/// Filtering a sequence extended by one element keeps the filtered prefix
/// and appends the element exactly when it satisfies the predicate.
proof fn lemma_filter_push(s: Seq<TaskView>, pred: spec_fn(TaskView) -> bool, x: TaskView)
    ensures
        (s + seq![x]).filter(pred) == if pred(x) {
            s.filter(pred).push(x)
        } else {
            s.filter(pred)
        },
{
    reveal_with_fuel(Seq::filter, 2);
    assert((s + seq![x]).drop_last() =~= s);
    assert((s + seq![x]).last() == x);
    assert((s + seq![x]).len() == s.len() + 1);
}

proof fn lemma_mark_done_at(s: Seq<TaskView>, id: int, i: int)
    requires
        0 <= i < s.len(),
        s[i].id == id,
        forall|k: int| 0 <= k < i ==> (#[trigger] s[k]).id != id,
    ensures
        mark_done_spec(s, id) == s.update(i, set_done(s[i])),
    decreases i,
{
    if i == 0 {
        assert(mark_done_spec(s, id) =~= s.update(0, set_done(s[0])));
    } else {
        assert(s.skip(1)[i - 1].id == id);
        assert forall|k: int| 0 <= k < i - 1 implies (#[trigger] s.skip(1)[k]).id != id by {
            assert(s.skip(1)[k] == s[k + 1]);
        }
        lemma_mark_done_at(s.skip(1), id, i - 1);
        assert(mark_done_spec(s, id) =~= s.update(i, set_done(s[i])));
    }
}

proof fn lemma_mark_done_absent(s: Seq<TaskView>, id: int)
    requires
        !contains_id(s, id),
    ensures
        mark_done_spec(s, id) == s,
    decreases s.len(),
{
    if s.len() > 0 {
        assert(s[0].id != id);
        assert forall|k: int| 0 <= k < s.skip(1).len() implies (#[trigger] s.skip(1)[k]).id
            != id by {
            assert(s.skip(1)[k] == s[k + 1]);
        }
        lemma_mark_done_absent(s.skip(1), id);
        assert(mark_done_spec(s, id) =~= s);
    }
}

proof fn lemma_edit_text_at(s: Seq<TaskView>, id: int, text: Seq<char>, i: int)
    requires
        0 <= i < s.len(),
        s[i].id == id,
        forall|k: int| 0 <= k < i ==> (#[trigger] s[k]).id != id,
    ensures
        edit_text_spec(s, id, text) == s.update(i, set_text(s[i], text)),
    decreases i,
{
    if i == 0 {
        assert(edit_text_spec(s, id, text) =~= s.update(0, set_text(s[0], text)));
    } else {
        assert(s.skip(1)[i - 1].id == id);
        assert forall|k: int| 0 <= k < i - 1 implies (#[trigger] s.skip(1)[k]).id != id by {
            assert(s.skip(1)[k] == s[k + 1]);
        }
        lemma_edit_text_at(s.skip(1), id, text, i - 1);
        assert(edit_text_spec(s, id, text) =~= s.update(i, set_text(s[i], text)));
    }
}

proof fn lemma_edit_text_absent(s: Seq<TaskView>, id: int, text: Seq<char>)
    requires
        !contains_id(s, id),
    ensures
        edit_text_spec(s, id, text) == s,
    decreases s.len(),
{
    if s.len() > 0 {
        assert(s[0].id != id);
        assert forall|k: int| 0 <= k < s.skip(1).len() implies (#[trigger] s.skip(1)[k]).id
            != id by {
            assert(s.skip(1)[k] == s[k + 1]);
        }
        lemma_edit_text_absent(s.skip(1), id, text);
        assert(edit_text_spec(s, id, text) =~= s);
    }
}

/// Marks the first task with id `id` as done. Returns whether such a task
/// exists; the collection is unchanged when none does.
pub fn mark_done(tasks: &mut Vec<Task>, id: usize) -> (found: bool)
    ensures
        final (tasks).deep_view() == mark_done_spec(old(tasks).deep_view(), id as int),
        found == contains_id(old(tasks).deep_view(), id as int),
{
    let ghost s = old(tasks).deep_view();
    let mut i: usize = 0;
    while i < tasks.len()
        invariant
            s == old(tasks).deep_view(),
            tasks.deep_view() == s,
            tasks@.len() == s.len(),
            i <= s.len(),
            forall|k: int| 0 <= k < i ==> (#[trigger] s[k]).id != id as int,
        decreases tasks@.len() - i,
    {
        if tasks[i].id == id {
            proof {
                assert(s[i as int] == tasks@[i as int]@);
                assert(s[i as int].id == id as int);
                assert(contains_id(s, id as int));
            }
            let mut t = tasks[i].duplicate();
            t.done = true;
            assert(t@ == set_done(s[i as int]));
            tasks[i] = t;
            proof {
                assert(tasks.deep_view() =~= s.update(i as int, set_done(s[i as int])));
                lemma_mark_done_at(s, id as int, i as int);
            }
            return true;
        }
        proof {
            assert(s[i as int] == tasks@[i as int]@);
        }
        i += 1;
    }
    proof {
        lemma_mark_done_absent(s, id as int);
        assert(tasks.deep_view() =~= s);
    }
    false
}

/// Replaces the text of the first task with id `id`. Returns whether such
/// a task exists; the collection is unchanged when none does.
pub fn edit_text(tasks: &mut Vec<Task>, id: usize, text: &String) -> (found: bool)
    ensures
        final (tasks).deep_view() == edit_text_spec(old(tasks).deep_view(), id as int, text@),
        found == contains_id(old(tasks).deep_view(), id as int),
{
    let ghost s = old(tasks).deep_view();
    let mut i: usize = 0;
    while i < tasks.len()
        invariant
            s == old(tasks).deep_view(),
            tasks.deep_view() == s,
            tasks@.len() == s.len(),
            i <= s.len(),
            forall|k: int| 0 <= k < i ==> (#[trigger] s[k]).id != id as int,
        decreases tasks@.len() - i,
    {
        if tasks[i].id == id {
            proof {
                assert(s[i as int] == tasks@[i as int]@);
                assert(s[i as int].id == id as int);
                assert(contains_id(s, id as int));
            }
            let mut t = tasks[i].duplicate();
            t.text = text.clone();
            assert(t@ == set_text(s[i as int], text@));
            tasks[i] = t;
            proof {
                assert(tasks.deep_view() =~= s.update(i as int, set_text(s[i as int], text@)));
                lemma_edit_text_at(s, id as int, text@, i as int);
            }
            return true;
        }
        proof {
            assert(s[i as int] == tasks@[i as int]@);
        }
        i += 1;
    }
    proof {
        lemma_edit_text_absent(s, id as int, text@);
        assert(tasks.deep_view() =~= s);
    }
    false
}

/// Deletes every task with id `id`. Returns whether any task was deleted;
/// the collection is unchanged when none carries that id.
pub fn remove(tasks: &mut Vec<Task>, id: usize) -> (found: bool)
    ensures
        final (tasks).deep_view() == remove_spec(old(tasks).deep_view(), id as int),
        found == contains_id(old(tasks).deep_view(), id as int),
{
    broadcast use vstd::seq_lib::group_seq_properties;

    let ghost s = old(tasks).deep_view();
    let ghost pred = |t: TaskView| t.id != id as int;
    let mut kept: Vec<Task> = Vec::new();
    let mut found = false;
    let mut i: usize = 0;
    proof {
        assert(s.take(0).filter(pred) =~= Seq::<TaskView>::empty()) by {
            reveal(Seq::filter);
        }
    }
    while i < tasks.len()
        invariant
            s == old(tasks).deep_view(),
            pred == (|t: TaskView| t.id != id as int),
            tasks.deep_view() == s,
            tasks@.len() == s.len(),
            i <= s.len(),
            kept.deep_view() == s.take(i as int).filter(pred),
            found == contains_id(s.take(i as int), id as int),
        decreases tasks@.len() - i,
    {
        proof {
            assert(s[i as int] == tasks@[i as int]@);
            assert(s.take(i + 1) =~= s.take(i as int) + seq![s[i as int]]);
            lemma_filter_push(s.take(i as int), pred, s[i as int]);
        }
        if tasks[i].id == id {
            found = true;
            proof {
                assert(s.take(i + 1)[i as int] == s[i as int]);
                assert(contains_id(s.take(i + 1), id as int));
            }
        } else {
            kept.push(tasks[i].duplicate());
            proof {
                assert(kept.deep_view() =~= s.take(i as int).filter(pred).push(s[i as int]));
            }
        }
        proof {
            if contains_id(s.take(i as int), id as int) {
                let w = choose|k: int|
                    0 <= k < i && (#[trigger] s.take(i as int)[k]).id == id as int;
                assert(s.take(i + 1)[w].id == id as int);
            }
            if !found {
                assert forall|k: int| 0 <= k < i + 1 implies (#[trigger] s.take(i + 1)[k]).id
                    != id as int by {
                    if k < i {
                        assert(s.take(i as int)[k].id != id as int);
                    }
                }
            }
        }
        i += 1;
    }
    proof {
        assert(s.take(s.len() as int) =~= s);
    }
    *tasks = kept;
    found
}

/// `remove` on an id that no task carries leaves the collection unchanged.
pub proof fn lemma_remove_absent(s: Seq<TaskView>, id: int)
    requires
        !contains_id(s, id),
    ensures
        remove_spec(s, id) == s,
    decreases s.len(),
{
    reveal(Seq::filter);
    if s.len() > 0 {
        assert forall|k: int| 0 <= k < s.drop_last().len() implies (#[trigger] s.drop_last()[k]).id
            != id by {
            assert(s.drop_last()[k] == s[k]);
        }
        lemma_remove_absent(s.drop_last(), id);
        assert(s.last().id != id);
        assert(remove_spec(s, id) =~= s);
    }
}

/// Appends a fresh task under the next free id: one more than the largest
/// id present. Only the new task is added; everything else stands.
pub fn add_task(
    tasks: &mut Vec<Task>,
    text: String,
    due: Option<Date>,
    priority: Priority,
    tags: Vec<String>,
) -> (id: usize)
    requires
        forall|i: int|
            0 <= i < old(tasks).deep_view().len() ==> (#[trigger] old(tasks).deep_view()[i]).id
                < usize::MAX as int,
    ensures
        id == max_id(old(tasks).deep_view()) + 1,
        final (tasks).deep_view() == old(tasks).deep_view().push(
            TaskView {
                id: id as int,
                text: text@,
                done: false,
                due: due,
                priority: priority,
                tags: tags.deep_view(),
            },
        ),
{
    let ghost s = old(tasks).deep_view();
    let id = next_id(tasks);
    let ghost text_v = text@;
    let ghost tags_v = tags.deep_view();
    let t = Task { id, text, done: false, due, priority, tags };
    let ghost tv = t@;
    proof {
        assert(tv == TaskView {
            id: id as int,
            text: text_v,
            done: false,
            due: due,
            priority: priority,
            tags: tags_v,
        });
    }
    tasks.push(t);
    proof {
        assert(tasks.deep_view() =~= s.push(tv));
    }
    id
}

/// What clearing leaves behind, whatever stood before: nothing.
pub open spec fn clear_spec(s: Seq<TaskView>) -> Seq<TaskView> {
    Seq::empty()
}

/// Empties the collection unconditionally.
pub fn clear(tasks: &mut Vec<Task>)
    ensures
        final (tasks).deep_view() == clear_spec(old(tasks).deep_view()),
        final (tasks).deep_view() == Seq::<TaskView>::empty(),
{
    tasks.clear();
    proof {
        assert(tasks.deep_view() =~= Seq::<TaskView>::empty());
    }
}

/// Clearing is idempotent: one clear leaves the collection empty, and a
/// second clear leaves it empty again.
pub proof fn lemma_clear_idempotent(s: Seq<TaskView>)
    ensures
        clear_spec(s) == Seq::<TaskView>::empty(),
        clear_spec(clear_spec(s)) == Seq::<TaskView>::empty(),
{
}

/// Marking a task done is idempotent: doing it twice changes no more than
/// doing it once, and the task is still found the second time.
pub proof fn lemma_mark_done_idempotent(s: Seq<TaskView>, id: int)
    ensures
        mark_done_spec(mark_done_spec(s, id), id) == mark_done_spec(s, id),
        contains_id(mark_done_spec(s, id), id) == contains_id(s, id),
    decreases s.len(),
{
    if s.len() == 0 {
    } else if s[0].id == id {
        let m = mark_done_spec(s, id);
        assert(m[0] == set_done(s[0]));
        assert(m[0].id == id);
        assert(set_done(set_done(s[0])) == set_done(s[0]));
        assert(mark_done_spec(m, id) =~= m);
        assert(contains_id(s, id));
        assert(contains_id(m, id));
    } else {
        lemma_mark_done_idempotent(s.skip(1), id);
        let m = mark_done_spec(s, id);
        assert(m =~= seq![s[0]] + mark_done_spec(s.skip(1), id));
        assert(m[0] == s[0]);
        assert(m.skip(1) =~= mark_done_spec(s.skip(1), id));
        assert(mark_done_spec(m, id) =~= seq![m[0]] + mark_done_spec(m.skip(1), id));
        assert(mark_done_spec(m, id) =~= m);
        assert(contains_id(m, id) == contains_id(s, id)) by {
            if contains_id(s, id) {
                let w = choose|k: int| 0 <= k < s.len() && (#[trigger] s[k]).id == id;
                assert(w != 0);
                assert(mark_done_spec(s.skip(1), id)[w - 1].id == id || s.skip(1)[w - 1].id == id);
                assert(contains_id(s.skip(1), id)) by {
                    assert(s.skip(1)[w - 1].id == id);
                }
                assert(contains_id(mark_done_spec(s.skip(1), id), id));
                let v = choose|k: int|
                    0 <= k < mark_done_spec(s.skip(1), id).len() && (#[trigger] mark_done_spec(
                        s.skip(1),
                        id,
                    )[k]).id == id;
                assert(m[v + 1].id == id);
            }
            if contains_id(m, id) {
                let w = choose|k: int| 0 <= k < m.len() && (#[trigger] m[k]).id == id;
                assert(w != 0);
                assert(contains_id(mark_done_spec(s.skip(1), id), id)) by {
                    assert(m.skip(1)[w - 1].id == id);
                }
                let v = choose|k: int|
                    0 <= k < s.skip(1).len() && (#[trigger] s.skip(1)[k]).id == id;
                assert(s[v + 1].id == id);
            }
        }
    }
}

} // verus!
