//! Plain-text rendering of tasks for display: the computed pieces of each
//! listed line and the closing counts. Colouring and printing stay with
//! the caller.

use vstd::prelude::*;

use crate::codec::{date_chars, dec_digit};
use crate::task::{Date, Priority, Task, TaskView};
use crate::text::string_from_chars;

verus! {

/// The status marker of a line.
pub open spec fn status_chars(done: bool) -> Seq<char> {
    if done {
        seq!['[', 'x', ']']
    } else {
        seq!['[', ' ', ']']
    }
}

/// `[x]` for a done task, `[ ]` for a pending one.
pub fn status_label(done: bool) -> (r: &'static str)
    ensures
        r@ == status_chars(done),
{
    if done {
        let s = "[x]";
        proof {
            reveal_strlit("[x]");
        }
        s
    } else {
        let s = "[ ]";
        proof {
            reveal_strlit("[ ]");
        }
        s
    }
}

/// The priority word of a line.
pub open spec fn priority_chars(p: Priority) -> Seq<char> {
    match p {
        Priority::High => seq!['H', 'I', 'G', 'H'],
        Priority::Normal => seq!['N', 'O', 'R', 'M'],
        Priority::Low => seq!['L', 'O', 'W'],
    }
}

/// `HIGH`, `NORM` or `LOW`.
pub fn priority_label(p: Priority) -> (r: &'static str)
    ensures
        r@ == priority_chars(p),
{
    match p {
        Priority::High => {
            let s = "HIGH";
            proof {
                reveal_strlit("HIGH");
            }
            s
        },
        Priority::Normal => {
            let s = "NORM";
            proof {
                reveal_strlit("NORM");
            }
            s
        },
        Priority::Low => {
            let s = "LOW";
            proof {
                reveal_strlit("LOW");
            }
            s
        },
    }
}

/// The `YYYY-MM-DD` text of a date.
pub fn date_text(d: &Date) -> (r: String)
    requires
        d.valid(),
    ensures
        r@ == date_chars(*d),
{
    let mut out: Vec<char> = Vec::new();
    out.push(digit(d.year / 1000));
    out.push(digit(d.year / 100 % 10));
    out.push(digit(d.year / 10 % 10));
    out.push(digit(d.year % 10));
    out.push('-');
    out.push(digit(d.month / 10));
    out.push(digit(d.month % 10));
    out.push('-');
    out.push(digit(d.day / 10));
    out.push(digit(d.day % 10));
    proof {
        assert(out@ =~= date_chars(*d));
    }
    string_from_chars(&out)
}

/// The character for a decimal digit value.
fn digit(d: u32) -> (c: char)
    requires
        d < 10,
    ensures
        c == dec_digit(d as int),
{
    char::from_u32(48 + d).unwrap()
}

/// The tag list joined with commas.
pub open spec fn tags_joined(tags: Seq<Seq<char>>) -> Seq<char>
    decreases tags.len(),
{
    if tags.len() == 0 {
        Seq::empty()
    } else if tags.len() == 1 {
        tags[0]
    } else {
        tags[0] + seq![','] + tags_joined(tags.skip(1))
    }
}

/// The tags of a task as one comma-separated text.
pub fn tags_text(tags: &Vec<String>) -> (r: String)
    ensures
        r@ == tags_joined(tags.deep_view()),
{
    let ghost tgs = tags.deep_view();
    let mut out: Vec<char> = Vec::new();
    let mut i: usize = 0;
    while i < tags.len()
        invariant
            tgs == tags.deep_view(),
            tgs.len() == tags@.len(),
            i <= tgs.len(),
            i == 0 ==> out@ == Seq::<char>::empty(),
            0 < i <= tgs.len() ==> out@ == tags_joined(tgs.take(i as int)),
        decreases tags@.len() - i,
    {
        proof {
            assert(tgs[i as int] == tags@[i as int]@);
        }
        if i > 0 {
            out.push(',');
        }
        let cs = crate::text::chars_of(tags[i].as_str());
        let mut j: usize = 0;
        let ghost mid = out@;
        while j < cs.len()
            invariant
                j <= cs@.len(),
                out@ == mid + cs@.take(j as int),
            decreases cs@.len() - j,
        {
            out.push(cs[j]);
            proof {
                assert(out@ =~= mid + cs@.take(j + 1));
            }
            j += 1;
        }
        proof {
            assert(cs@.take(cs@.len() as int) =~= cs@);
            lemma_tags_joined_shift(tgs, i as int);
            assert(tgs.take(i + 1).take(i as int) =~= tgs.take(i as int));
            assert(out@ =~= tags_joined(tgs.take(i + 1)));
        }
        i += 1;
    }
    proof {
        assert(tgs.take(tgs.len() as int) =~= tgs);
    }
    string_from_chars(&out)
}

/// Joining one more tag appends a comma and the tag, or just the tag
/// to an empty join.
proof fn lemma_tags_joined_shift(tags: Seq<Seq<char>>, i: int)
    requires
        0 <= i < tags.len(),
    ensures
        tags_joined(tags.take(i + 1)) == if i == 0 {
            tags[0]
        } else {
            tags_joined(tags.take(i)) + seq![','] + tags[i]
        },
    decreases i,
{
    let pre = tags.take(i + 1);
    if i == 0 {
        assert(pre.len() == 1);
        assert(pre[0] == tags[0]);
    } else {
        assert(pre[0] == tags[0]);
        assert(pre.skip(1) =~= tags.skip(1).take(i));
        assert(tags.take(i)[0] == tags[0]);
        assert(tags.take(i).skip(1) =~= tags.skip(1).take(i - 1));
        lemma_tags_joined_shift(tags.skip(1), i - 1);
        assert(tags_joined(pre) =~= tags_joined(tags.take(i)) + seq![','] + tags[i]);
    }
}

/// How many of the tasks are done.
pub open spec fn done_count(s: Seq<TaskView>) -> int
    decreases s.len(),
{
    if s.len() == 0 {
        0
    } else {
        done_count(s.drop_last()) + if s.last().done {
            1int
        } else {
            0int
        }
    }
}

/// Counts the done tasks; the pending ones are the rest.
pub fn count_done(tasks: &Vec<Task>) -> (r: usize)
    ensures
        r == done_count(tasks.deep_view()),
        r <= tasks.deep_view().len(),
{
    let ghost s = tasks.deep_view();
    proof {
        lemma_done_count_bound(s);
    }
    let mut n: usize = 0;
    let mut i: usize = 0;
    while i < tasks.len()
        invariant
            s == tasks.deep_view(),
            s.len() == tasks@.len(),
            i <= s.len(),
            n == done_count(s.take(i as int)),
            n <= i,
        decreases tasks@.len() - i,
    {
        proof {
            assert(s[i as int] == tasks@[i as int]@);
            assert(s.take(i + 1).drop_last() =~= s.take(i as int));
            assert(s.take(i + 1).last() == s[i as int]);
        }
        if tasks[i].done {
            n += 1;
        }
        i += 1;
    }
    proof {
        assert(s.take(s.len() as int) =~= s);
    }
    n
}

proof fn lemma_done_count_bound(s: Seq<TaskView>)
    ensures
        0 <= done_count(s) <= s.len(),
    decreases s.len(),
{
    if s.len() > 0 {
        lemma_done_count_bound(s.drop_last());
    }
}

} // verus!
