//! The task record and the plain types it is made of.

use vstd::prelude::*;

verus! {

/// How urgent a task is; stored as one of the lowercase words
/// "low", "normal" and "high", and "normal" when left unspecified.
#[derive(Debug, Clone, Copy, PartialEq, Eq, Structural)]
pub enum Priority {
    Low,
    Normal,
    High,
}

/// A calendar date, kept as plain year/month/day numbers so that calendar
/// order and the `YYYY-MM-DD` text form are ordinary arithmetic.
#[derive(Debug, Clone, Copy, PartialEq, Eq, Structural)]
pub struct Date {
    pub year: u32,
    pub month: u32,
    pub day: u32,
}

pub open spec fn leap_year(y: int) -> bool {
    (y % 4 == 0 && y % 100 != 0) || y % 400 == 0
}

pub open spec fn days_in_month(y: int, m: int) -> int {
    if m == 2 {
        if leap_year(y) {
            29
        } else {
            28
        }
    } else if m == 4 || m == 6 || m == 9 || m == 11 {
        30
    } else {
        31
    }
}

impl Date {
    /// A real calendar date with a four-digit year, so that its text form
    /// is always exactly `YYYY-MM-DD`.
    pub open spec fn valid(self) -> bool {
        &&& self.year <= 9999
        &&& 1 <= self.month <= 12
        &&& 1 <= self.day <= days_in_month(self.year as int, self.month as int)
    }

    /// `self` is on or before `other` in calendar order.
    pub open spec fn spec_le(self, other: Date) -> bool {
        if self.year != other.year {
            self.year < other.year
        } else if self.month != other.month {
            self.month < other.month
        } else {
            self.day <= other.day
        }
    }

    /// Whether the fields name a real calendar date.
    pub fn is_valid(&self) -> (r: bool)
        ensures
            r == self.valid(),
    {
        let leap = (self.year % 4 == 0 && self.year % 100 != 0) || self.year % 400 == 0;
        let days: u32 = if self.month == 2 {
            if leap {
                29
            } else {
                28
            }
        } else if self.month == 4 || self.month == 6 || self.month == 9 || self.month == 11 {
            30
        } else {
            31
        };
        self.year <= 9999 && 1 <= self.month && self.month <= 12 && 1 <= self.day && self.day
            <= days
    }

    pub fn le(&self, other: &Date) -> (r: bool)
        ensures
            r == self.spec_le(*other),
    {
        if self.year != other.year {
            self.year < other.year
        } else if self.month != other.month {
            self.month < other.month
        } else {
            self.day <= other.day
        }
    }
}

/// One unit of work. Ids are assigned at creation and never reused;
/// only `done` and `text` change afterwards.
#[derive(Debug)]
pub struct Task {
    pub id: usize,
    pub text: String,
    pub done: bool,
    pub due: Option<Date>,
    pub priority: Priority,
    pub tags: Vec<String>,
}

/// The mathematical model of a task: every field as a plain value.
pub struct TaskView {
    pub id: int,
    pub text: Seq<char>,
    pub done: bool,
    pub due: Option<Date>,
    pub priority: Priority,
    pub tags: Seq<Seq<char>>,
}

impl View for Task {
    type V = TaskView;

    open spec fn view(&self) -> TaskView {
        TaskView {
            id: self.id as int,
            text: self.text@,
            done: self.done,
            due: self.due,
            priority: self.priority,
            tags: self.tags.deep_view(),
        }
    }
}

impl DeepView for Task {
    type V = TaskView;

    open spec fn deep_view(&self) -> TaskView {
        self.view()
    }
}

impl Task {
    /// A fresh task equal to this one in every field.
    pub fn duplicate(&self) -> (t: Task)
        ensures
            t@ == self@,
    {
        let mut tags: Vec<String> = Vec::new();
        let mut i: usize = 0;
        while i < self.tags.len()
            invariant
                i <= self.tags.len(),
                tags@.len() == i,
                forall|k: int| 0 <= k < i ==> tags@[k]@ == self.tags@[k]@,
            decreases self.tags.len() - i,
        {
            tags.push(self.tags[i].clone());
            i += 1;
        }
        proof {
            assert(tags.deep_view() =~~= self.tags.deep_view());
        }
        Task {
            id: self.id,
            text: self.text.clone(),
            done: self.done,
            due: self.due,
            priority: self.priority,
            tags,
        }
    }
}

} // verus!
