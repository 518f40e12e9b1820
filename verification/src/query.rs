//! The query pipeline applied before listing: status filter, then search
//! filter, then tag filter, then sort.

use vstd::multiset::Multiset;
use vstd::prelude::*;
use vstd::relations::sorted_by;

use crate::task::{Task, TaskView};
use crate::text::{
    chars_of, contains_chars, contains_seq, eq_ignore_case, eq_ignore_case_spec, lower_of,
    lowercase,
};

verus! {

/// Which key the listing is ordered by.
#[derive(Debug, Clone, Copy, PartialEq, Eq, Structural)]
pub enum SortBy {
    Id,
    Date,
}

/// The status filter: with exactly one of the two flags set, only the
/// matching tasks are kept; with neither or both set, nothing is filtered.
pub open spec fn status_filter_spec(s: Seq<TaskView>, done_only: bool, pending_only: bool) -> Seq<
    TaskView,
> {
    if done_only && !pending_only {
        s.filter(|t: TaskView| t.done)
    } else if pending_only && !done_only {
        s.filter(|t: TaskView| !t.done)
    } else {
        s
    }
}

/// Requesting done-only and pending-only together filters exactly as
/// requesting neither: the full list is kept.
pub proof fn lemma_status_filter_both_is_neither(s: Seq<TaskView>)
    ensures
        status_filter_spec(s, true, true) == status_filter_spec(s, false, false),
        status_filter_spec(s, true, true) == s,
{
}

/// The task's text contains the keyword, both taken case-insensitively.
pub open spec fn matches_search_spec(t: TaskView, keyword: Seq<char>) -> bool {
    contains_seq(lower_of(t.text), lower_of(keyword))
}

/// Whether `task`'s text contains `keyword` as a case-insensitive substring.
pub fn matches_search(task: &Task, keyword: &str) -> (r: bool)
    ensures
        r == matches_search_spec(task@, keyword@),
{
    let low_text = lowercase(task.text.as_str());
    let low_key = lowercase(keyword);
    let hay = chars_of(low_text.as_str());
    let needle = chars_of(low_key.as_str());
    contains_chars(&hay, &needle)
}

/// The task carries a tag equal to `tag` ignoring ASCII case.
pub open spec fn has_tag(t: TaskView, tag: Seq<char>) -> bool {
    exists|i: int| 0 <= i < t.tags.len() && eq_ignore_case_spec(#[trigger] t.tags[i], tag)
}

/// The task carries every requested tag, ignoring ASCII case.
pub open spec fn has_all_tags(t: TaskView, tags: Seq<Seq<char>>) -> bool {
    forall|i: int| 0 <= i < tags.len() ==> has_tag(t, #[trigger] tags[i])
}

/// Whether `task` carries every tag in `tags`, ignoring ASCII case.
pub fn task_has_all_tags(task: &Task, tags: &Vec<String>) -> (r: bool)
    ensures
        r == has_all_tags(task@, tags.deep_view()),
{
    let ghost tgs = tags.deep_view();
    let mut i: usize = 0;
    while i < tags.len()
        invariant
            tgs == tags.deep_view(),
            tgs.len() == tags@.len(),
            i <= tgs.len(),
            forall|k: int| 0 <= k < i ==> has_tag(task@, #[trigger] tgs[k]),
        decreases tags@.len() - i,
    {
        proof {
            assert(tgs[i as int] == tags@[i as int]@);
        }
        let mut found = false;
        let mut j: usize = 0;
        while j < task.tags.len()
            invariant
                tgs == tags.deep_view(),
                i < tgs.len(),
                tgs[i as int] == tags@[i as int]@,
                j <= task.tags@.len(),
                found == exists|m: int|
                    0 <= m < j && eq_ignore_case_spec(
                        #[trigger] task@.tags[m],
                        tags@[i as int]@,
                    ),
            decreases task.tags@.len() - j,
        {
            proof {
                assert(task@.tags[j as int] == task.tags@[j as int]@);
            }
            if eq_ignore_case(task.tags[j].as_str(), tags[i].as_str()) {
                found = true;
            }
            j += 1;
        }
        if !found {
            proof {
                assert(!has_tag(task@, tgs[i as int]));
            }
            return false;
        }
        proof {
            assert(has_tag(task@, tgs[i as int]));
        }
        i += 1;
    }
    true
}

/// The pipeline's search step: tasks whose text contains the keyword.
pub open spec fn search_filter_spec(s: Seq<TaskView>, keyword: Seq<char>) -> Seq<TaskView> {
    s.filter(|t: TaskView| matches_search_spec(t, keyword))
}

/// The pipeline's tag step: tasks carrying every requested tag.
pub open spec fn tag_filter_spec(s: Seq<TaskView>, tags: Seq<Seq<char>>) -> Seq<TaskView> {
    if tags.len() == 0 {
        s
    } else {
        s.filter(|t: TaskView| has_all_tags(t, tags))
    }
}

/// Filtering a sequence extended by one element keeps the filtered prefix
/// and appends the element exactly when it satisfies the predicate.
proof fn lemma_filter_push(s: Seq<TaskView>, pred: spec_fn(TaskView) -> bool, x: TaskView)
    ensures
        (s + seq![x]).filter(pred) == if pred(x) {
            s.filter(pred).push(x)
        } else {
            s.filter(pred)
        },
{
    reveal_with_fuel(Seq::filter, 2);
    assert((s + seq![x]).drop_last() =~= s);
    assert((s + seq![x]).last() == x);
    assert((s + seq![x]).len() == s.len() + 1);
}

/// Keeps the tasks that match the requested status, per `status_filter_spec`.
pub fn filter_status(tasks: &Vec<Task>, done_only: bool, pending_only: bool) -> (out: Vec<Task>)
    ensures
        out.deep_view() == status_filter_spec(tasks.deep_view(), done_only, pending_only),
{
    let ghost s = tasks.deep_view();
    if done_only == pending_only {
        let mut out: Vec<Task> = Vec::new();
        let mut i: usize = 0;
        while i < tasks.len()
            invariant
                s == tasks.deep_view(),
                s.len() == tasks@.len(),
                i <= s.len(),
                out.deep_view() == s.take(i as int),
            decreases tasks@.len() - i,
        {
            proof {
                assert(s[i as int] == tasks@[i as int]@);
            }
            let d = tasks[i].duplicate();
            proof {
                assert(d@ == s[i as int]);
            }
            out.push(d);
            proof {
                assert(s.take(i + 1) =~= s.take(i as int).push(s[i as int]));
                assert(out.deep_view() =~= s.take(i as int).push(s[i as int]));
            }
            i += 1;
        }
        proof {
            assert(s.take(s.len() as int) =~= s);
        }
        out
    } else {
        let ghost pred: spec_fn(TaskView) -> bool = if done_only {
            |t: TaskView| t.done
        } else {
            |t: TaskView| !t.done
        };
        let mut out: Vec<Task> = Vec::new();
        let mut i: usize = 0;
        proof {
            assert(s.take(0).filter(pred) =~= Seq::<TaskView>::empty()) by {
                reveal(Seq::filter);
            }
        }
        while i < tasks.len()
            invariant
                s == tasks.deep_view(),
                s.len() == tasks@.len(),
                pred == (if done_only {
                    |t: TaskView| t.done
                } else {
                    |t: TaskView| !t.done
                }),
                done_only != pending_only,
                i <= s.len(),
                out.deep_view() == s.take(i as int).filter(pred),
            decreases tasks@.len() - i,
        {
            proof {
                assert(s[i as int] == tasks@[i as int]@);
                assert(s.take(i + 1) =~= s.take(i as int) + seq![s[i as int]]);
                lemma_filter_push(s.take(i as int), pred, s[i as int]);
            }
            if tasks[i].done == done_only {
                out.push(tasks[i].duplicate());
                proof {
                    assert(out.deep_view() =~= s.take(i as int).filter(pred).push(s[i as int]));
                }
            }
            i += 1;
        }
        proof {
            assert(s.take(s.len() as int) =~= s);
        }
        out
    }
}

/// Keeps the tasks whose text contains `keyword` case-insensitively,
/// per `search_filter_spec`.
pub fn filter_search(tasks: &Vec<Task>, keyword: &str) -> (out: Vec<Task>)
    ensures
        out.deep_view() == search_filter_spec(tasks.deep_view(), keyword@),
{
    let ghost s = tasks.deep_view();
    let ghost pred: spec_fn(TaskView) -> bool = |t: TaskView| matches_search_spec(t, keyword@);
    let mut out: Vec<Task> = Vec::new();
    let mut i: usize = 0;
    proof {
        assert(s.take(0).filter(pred) =~= Seq::<TaskView>::empty()) by {
            reveal(Seq::filter);
        }
    }
    while i < tasks.len()
        invariant
            s == tasks.deep_view(),
            s.len() == tasks@.len(),
            pred == (|t: TaskView| matches_search_spec(t, keyword@)),
            i <= s.len(),
            out.deep_view() == s.take(i as int).filter(pred),
        decreases tasks@.len() - i,
    {
        proof {
            assert(s[i as int] == tasks@[i as int]@);
            assert(s.take(i + 1) =~= s.take(i as int) + seq![s[i as int]]);
            lemma_filter_push(s.take(i as int), pred, s[i as int]);
        }
        if matches_search(&tasks[i], keyword) {
            out.push(tasks[i].duplicate());
            proof {
                assert(out.deep_view() =~= s.take(i as int).filter(pred).push(s[i as int]));
            }
        }
        i += 1;
    }
    proof {
        assert(s.take(s.len() as int) =~= s);
    }
    out
}

/// Keeps the tasks carrying every tag in `tags`, per `tag_filter_spec`.
pub fn filter_tags(tasks: &Vec<Task>, tags: &Vec<String>) -> (out: Vec<Task>)
    ensures
        out.deep_view() == tag_filter_spec(tasks.deep_view(), tags.deep_view()),
{
    let ghost s = tasks.deep_view();
    let ghost tgs = tags.deep_view();
    let ghost pred: spec_fn(TaskView) -> bool = |t: TaskView| has_all_tags(t, tgs);
    if tags.len() == 0 {
        let out = filter_status(tasks, false, false);
        return out;
    }
    let mut out: Vec<Task> = Vec::new();
    let mut i: usize = 0;
    proof {
        assert(s.take(0).filter(pred) =~= Seq::<TaskView>::empty()) by {
            reveal(Seq::filter);
        }
    }
    while i < tasks.len()
        invariant
            s == tasks.deep_view(),
            tgs == tags.deep_view(),
            tgs.len() > 0,
            s.len() == tasks@.len(),
            pred == (|t: TaskView| has_all_tags(t, tgs)),
            i <= s.len(),
            out.deep_view() == s.take(i as int).filter(pred),
        decreases tasks@.len() - i,
    {
        proof {
            assert(s[i as int] == tasks@[i as int]@);
            assert(s.take(i + 1) =~= s.take(i as int) + seq![s[i as int]]);
            lemma_filter_push(s.take(i as int), pred, s[i as int]);
        }
        if task_has_all_tags(&tasks[i], tags) {
            out.push(tasks[i].duplicate());
            proof {
                assert(out.deep_view() =~= s.take(i as int).filter(pred).push(s[i as int]));
            }
        }
        i += 1;
    }
    proof {
        assert(s.take(s.len() as int) =~= s);
    }
    out
}

/// Listing order by id: ascending.
pub open spec fn id_le(a: TaskView, b: TaskView) -> bool {
    a.id <= b.id
}

/// Listing order by due date: every dated task before every undated one,
/// dated tasks by calendar order, ties and undated tasks by id.
pub open spec fn date_le(a: TaskView, b: TaskView) -> bool {
    match (a.due, b.due) {
        (Some(x), Some(y)) => if x == y {
            a.id <= b.id
        } else {
            x.spec_le(y)
        },
        (Some(_), None) => true,
        (None, Some(_)) => false,
        (None, None) => a.id <= b.id,
    }
}

/// The order that `sort` selects, as a relation value.
pub open spec fn sort_order(sort: SortBy) -> spec_fn(TaskView, TaskView) -> bool {
    match sort {
        SortBy::Id => |a: TaskView, b: TaskView| id_le(a, b),
        SortBy::Date => |a: TaskView, b: TaskView| date_le(a, b),
    }
}

/// Both listing orders are total and transitive.
pub proof fn lemma_sort_order_total(sort: SortBy)
    ensures
        forall|a: TaskView, b: TaskView| #[trigger] sort_order(sort)(a, b) || sort_order(sort)(
            b,
            a,
        ),
        forall|a: TaskView, b: TaskView, c: TaskView|
            #[trigger] sort_order(sort)(a, b) && #[trigger] sort_order(sort)(b, c) ==> sort_order(
                sort,
            )(a, c),
{
}

/// Whether `a` comes no later than `b` in the order that `sort` selects.
fn task_le(sort: SortBy, a: &Task, b: &Task) -> (r: bool)
    ensures
        r == sort_order(sort)(a@, b@),
{
    match sort {
        SortBy::Id => a.id <= b.id,
        SortBy::Date => {
            match (&a.due, &b.due) {
                (Some(x), Some(y)) => {
                    if x == y {
                        a.id <= b.id
                    } else {
                        x.le(y)
                    }
                },
                (Some(_), None) => true,
                (None, Some(_)) => false,
                (None, None) => a.id <= b.id,
            }
        },
    }
}

/// Inserting an element between the elements it belongs between keeps a
/// sequence sorted.
proof fn lemma_sorted_insert(
    s: Seq<TaskView>,
    x: TaskView,
    pos: int,
    leq: spec_fn(TaskView, TaskView) -> bool,
)
    requires
        sorted_by(s, leq),
        forall|a: TaskView, b: TaskView| #[trigger] leq(a, b) || leq(b, a),
        forall|a: TaskView, b: TaskView, c: TaskView|
            #[trigger] leq(a, b) && #[trigger] leq(b, c) ==> leq(a, c),
        0 <= pos <= s.len(),
        forall|k: int| 0 <= k < pos ==> leq(#[trigger] s[k], x),
        pos < s.len() ==> !leq(s[pos], x),
    ensures
        sorted_by(s.insert(pos, x), leq),
{
    let out = s.insert(pos, x);
    assert forall|i: int, j: int| 0 <= i < j < out.len() implies leq(out[i], out[j]) by {
        assert(forall|k: int| 0 <= k < pos ==> out[k] == s[k]);
        assert(out[pos] == x);
        assert(forall|k: int| pos < k < out.len() ==> out[k] == s[k - 1]);
        if i < pos && j == pos {
            assert(leq(s[i], x));
        } else if i == pos && j > pos {
            assert(!leq(s[pos], x));
            assert(leq(x, s[pos]));
            if j - 1 > pos {
                assert(leq(s[pos], s[j - 1]));
            }
        } else if i < pos && j > pos {
            assert(leq(s[i], s[j - 1]));
        } else if i > pos && j > pos {
            assert(leq(s[i - 1], s[j - 1]));
        }
    }
}

/// Inserting anywhere adds exactly one occurrence to the multiset of elements.
proof fn lemma_insert_multiset(s: Seq<TaskView>, x: TaskView, pos: int)
    requires
        0 <= pos <= s.len(),
    ensures
        s.insert(pos, x).to_multiset() == s.to_multiset().insert(x),
{
    broadcast use vstd::seq_lib::group_to_multiset_ensures;

    assert(s.insert(pos, x) =~= s.take(pos) + seq![x] + s.skip(pos));
    vstd::seq_lib::lemma_multiset_commutative(s.take(pos) + seq![x], s.skip(pos));
    vstd::seq_lib::lemma_multiset_commutative(s.take(pos), seq![x]);
    assert(seq![x].to_multiset() =~= Multiset::empty().insert(x)) by {
        assert(seq![x] =~= Seq::<TaskView>::empty().push(x));
        assert(Seq::<TaskView>::empty().to_multiset() =~= Multiset::empty());
    }
    assert(s =~= s.take(pos) + s.skip(pos));
    vstd::seq_lib::lemma_multiset_commutative(s.take(pos), s.skip(pos));
    assert(s.insert(pos, x).to_multiset() =~= s.to_multiset().insert(x));
}

/// The position at which `t` belongs in the sorted vector `out`: past every
/// element that comes no later than `t`.
fn find_pos(sort: SortBy, out: &Vec<Task>, t: &Task) -> (pos: usize)
    ensures
        pos <= out.deep_view().len(),
        forall|k: int| 0 <= k < pos ==> sort_order(sort)(#[trigger] out.deep_view()[k], t@),
        pos < out.deep_view().len() ==> !sort_order(sort)(out.deep_view()[pos as int], t@),
{
    let ghost dv = out.deep_view();
    let mut pos: usize = 0;
    while pos < out.len()
        invariant
            dv == out.deep_view(),
            dv.len() == out@.len(),
            pos <= dv.len(),
            forall|k: int| 0 <= k < pos ==> sort_order(sort)(#[trigger] dv[k], t@),
        decreases out@.len() - pos,
    {
        proof {
            assert(dv[pos as int] == out@[pos as int]@);
        }
        if !task_le(sort, &out[pos], t) {
            return pos;
        }
        pos += 1;
    }
    pos
}

/// Sorts the tasks by the selected order: the result is ordered by
/// `sort_order(sort)` and holds exactly the same tasks.
pub fn sort_tasks(tasks: &Vec<Task>, sort: SortBy) -> (out: Vec<Task>)
    ensures
        sorted_by(out.deep_view(), sort_order(sort)),
        out.deep_view().to_multiset() == tasks.deep_view().to_multiset(),
{
    broadcast use vstd::seq_lib::group_to_multiset_ensures;

    let ghost s = tasks.deep_view();
    let ghost leq = sort_order(sort);
    proof {
        lemma_sort_order_total(sort);
    }
    let mut out: Vec<Task> = Vec::new();
    let mut i: usize = 0;
    proof {
        assert(s.take(0).to_multiset() =~= Multiset::empty());
        assert(out.deep_view() =~= Seq::<TaskView>::empty());
    }
    while i < tasks.len()
        invariant
            s == tasks.deep_view(),
            s.len() == tasks@.len(),
            leq == sort_order(sort),
            forall|a: TaskView, b: TaskView| #[trigger] leq(a, b) || leq(b, a),
            forall|a: TaskView, b: TaskView, c: TaskView|
                #[trigger] leq(a, b) && #[trigger] leq(b, c) ==> leq(a, c),
            i <= s.len(),
            sorted_by(out.deep_view(), leq),
            out.deep_view().to_multiset() == s.take(i as int).to_multiset(),
            out.deep_view().len() == i,
        decreases tasks@.len() - i,
    {
        proof {
            assert(s[i as int] == tasks@[i as int]@);
        }
        let ghost dv = out.deep_view();
        let pos = find_pos(sort, &out, &tasks[i]);
        proof {
            lemma_sorted_insert(dv, s[i as int], pos as int, leq);
            lemma_insert_multiset(dv, s[i as int], pos as int);
            assert(s.take(i + 1) =~= s.take(i as int).push(s[i as int]));
        }
        let d = tasks[i].duplicate();
        proof {
            assert(d@ == s[i as int]);
        }
        out.insert(pos, d);
        proof {
            assert(out.deep_view() =~= dv.insert(pos as int, s[i as int]));
            vstd::seq_lib::to_multiset_insert(dv, pos as int, s[i as int]);
            vstd::seq_lib::to_multiset_build(s.take(i as int), s[i as int]);
            assert(out.deep_view().to_multiset() =~= s.take(i + 1).to_multiset());
        }
        i += 1;
    }
    proof {
        assert(s.take(s.len() as int) =~= s);
    }
    out
}

/// In a date-ordered listing every dated task stands before every undated
/// one, dated tasks ascend by date, and undated tasks ascend by id.
pub proof fn lemma_date_order_shape(s: Seq<TaskView>)
    requires
        sorted_by(s, sort_order(SortBy::Date)),
    ensures
        forall|i: int, j: int|
            0 <= i < j < s.len() && (#[trigger] s[i]).due is None ==> (#[trigger] s[j]).due
                is None,
        forall|i: int, j: int|
            0 <= i < j < s.len() && (#[trigger] s[i]).due is Some && (#[trigger] s[j]).due is Some
                ==> s[i].due.unwrap().spec_le(s[j].due.unwrap()),
        forall|i: int, j: int|
            0 <= i < j < s.len() && (#[trigger] s[i]).due is None && (#[trigger] s[j]).due is None
                ==> s[i].id <= s[j].id,
{
    assert forall|i: int, j: int|
        0 <= i < j < s.len() && (#[trigger] s[i]).due is None implies (#[trigger] s[j]).due
        is None by {
        assert(sort_order(SortBy::Date)(s[i], s[j]));
    }
    assert forall|i: int, j: int|
        0 <= i < j < s.len() && (#[trigger] s[i]).due is Some && (#[trigger] s[j]).due
        is Some implies s[i].due.unwrap().spec_le(s[j].due.unwrap()) by {
        assert(sort_order(SortBy::Date)(s[i], s[j]));
    }
    assert forall|i: int, j: int|
        0 <= i < j < s.len() && (#[trigger] s[i]).due is None && (#[trigger] s[j]).due
        is None implies s[i].id <= s[j].id by {
        assert(sort_order(SortBy::Date)(s[i], s[j]));
    }
}

/// Which empty listing the presenter must announce: no tasks exist at
/// all, the done or pending view is empty, or the filters matched nothing.
#[derive(Debug, Clone, Copy, PartialEq, Eq, Structural)]
pub enum EmptyState {
    NoTasks,
    NoDone,
    NoPending,
    NoMatches,
}

/// What an empty listing means, from the collection's size, the result's
/// size and the status flags; `None` when anything was listed.
pub fn empty_state(total: usize, shown: usize, done_only: bool, pending_only: bool) -> (r: Option<
    EmptyState,
>)
    ensures
        r == (if shown != 0 {
            None
        } else if total == 0 {
            Some(EmptyState::NoTasks)
        } else if done_only && !pending_only {
            Some(EmptyState::NoDone)
        } else if pending_only && !done_only {
            Some(EmptyState::NoPending)
        } else {
            Some(EmptyState::NoMatches)
        }),
{
    if shown != 0 {
        None
    } else if total == 0 {
        Some(EmptyState::NoTasks)
    } else if done_only && !pending_only {
        Some(EmptyState::NoDone)
    } else if pending_only && !done_only {
        Some(EmptyState::NoPending)
    } else {
        Some(EmptyState::NoMatches)
    }
}

/// One whole listing query: the status, search and tag filters in their
/// fixed order, then the sort.
pub fn run_query(
    tasks: &Vec<Task>,
    done_only: bool,
    pending_only: bool,
    search: Option<&String>,
    tags: &Vec<String>,
    sort: SortBy,
) -> (out: Vec<Task>)
    ensures
        ({
            let after_status = status_filter_spec(tasks.deep_view(), done_only, pending_only);
            let after_search = match search {
                Some(k) => search_filter_spec(after_status, k@),
                None => after_status,
            };
            let after_tags = tag_filter_spec(after_search, tags.deep_view());
            sorted_by(out.deep_view(), sort_order(sort)) && out.deep_view().to_multiset()
                == after_tags.to_multiset()
        }),
{
    let by_status = filter_status(tasks, done_only, pending_only);
    let by_search = match search {
        Some(k) => filter_search(&by_status, k.as_str()),
        None => by_status,
    };
    let by_tags = filter_tags(&by_search, tags);
    sort_tasks(&by_tags, sort)
}

} // verus!
