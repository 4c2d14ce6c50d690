//! Shared value types: input-format errors, sprint tags, and the task
//! attribute enumerations carried by metadata records.
use vstd::prelude::*;
use crate::text::str_eq;
use vstd::string::StringExecFns;

verus! {

/// An input-format failure: the specific record or file being read is
/// rejected, nothing else is affected.
#[derive(Clone, Copy, PartialEq, Eq, Structural, Debug)]
pub enum FormatError {
    /// Text that does not match `YYYY-MM-DD`, or no such calendar date.
    Date,
    /// Duration text whose segments are not integers that fit the machine.
    Duration,
    /// A front-matter block without a closing delimiter line.
    FrontMatter,
    /// A priority number outside 1 through 5.
    Priority,
    /// An unknown status name.
    Status,
    /// An unknown issue-type name.
    IssueType,
}

/// An opaque sprint identifier; equality is exact string match.
#[derive(Debug)]
pub struct Sprint {
    name: String,
}

impl Sprint {
    pub closed spec fn spec_name(self) -> Seq<char> {
        self.name@
    }

    pub fn new(name: String) -> (r: Self)
        ensures
            r.spec_name() == name@,
    {
        Sprint { name }
    }

    pub fn name(&self) -> (r: &str)
        ensures
            r@ == self.spec_name(),
    {
        self.name.as_str()
    }

    /// Exact string match on the tag text.
    pub fn same_tag(&self, other: &Sprint) -> (r: bool)
        ensures
            r == (self.spec_name() == other.spec_name()),
    {
        str_eq(self.name.as_str(), other.name.as_str())
    }
}

impl Clone for Sprint {
    fn clone(&self) -> (r: Self)
        ensures
            r.spec_name() == self.spec_name(),
    {
        Sprint { name: self.name.clone() }
    }
}

/// A task's priority, ranked from `VeryLow` to `VeryHigh`.
#[derive(Clone, Copy, PartialEq, Eq, Structural, Debug)]
pub enum Priority {
    VeryLow,
    Low,
    Medium,
    High,
    VeryHigh,
}

/// The priority denoted by a number between 1 (very high) and 5 (very low).
pub open spec fn spec_priority_of_number(n: int) -> Option<Priority> {
    if n == 1 {
        Some(Priority::VeryHigh)
    } else if n == 2 {
        Some(Priority::High)
    } else if n == 3 {
        Some(Priority::Medium)
    } else if n == 4 {
        Some(Priority::Low)
    } else if n == 5 {
        Some(Priority::VeryLow)
    } else {
        None
    }
}

impl Priority {
    /// Reads the 1-to-5 encoding; numbers outside it are rejected.
    pub fn from_number(n: u8) -> (r: Result<Priority, FormatError>)
        ensures
            match r {
                Ok(p) => spec_priority_of_number(n as int) == Some(p),
                Err(_) => spec_priority_of_number(n as int) is None,
            },
    {
        match n {
            1 => Ok(Priority::VeryHigh),
            2 => Ok(Priority::High),
            3 => Ok(Priority::Medium),
            4 => Ok(Priority::Low),
            5 => Ok(Priority::VeryLow),
            _ => Err(FormatError::Priority),
        }
    }

    /// The 1-to-5 encoding: the inverse of `from_number`.
    pub fn to_number(&self) -> (r: u8)
        ensures
            spec_priority_of_number(r as int) == Some(*self),
    {
        match self {
            Priority::VeryHigh => 1,
            Priority::High => 2,
            Priority::Medium => 3,
            Priority::Low => 4,
            Priority::VeryLow => 5,
        }
    }
}

/// A task's workflow status.
#[derive(Clone, Copy, PartialEq, Eq, Structural, Debug)]
pub enum Status {
    ToDo,
    InProgress,
    Blocked,
    Done,
}

/// The status denoted by its display name.
pub open spec fn spec_status_of_name(s: Seq<char>) -> Option<Status> {
    if s == "To Do"@ {
        Some(Status::ToDo)
    } else if s == "In Progress"@ {
        Some(Status::InProgress)
    } else if s == "Blocked"@ {
        Some(Status::Blocked)
    } else if s == "Done"@ {
        Some(Status::Done)
    } else {
        None
    }
}

impl Status {
    /// Reads a status display name; unknown names are rejected.
    pub fn from_name(name: &str) -> (r: Result<Status, FormatError>)
        ensures
            match r {
                Ok(s) => spec_status_of_name(name@) == Some(s),
                Err(_) => spec_status_of_name(name@) is None,
            },
    {
        if str_eq(name, "To Do") {
            Ok(Status::ToDo)
        } else if str_eq(name, "In Progress") {
            Ok(Status::InProgress)
        } else if str_eq(name, "Blocked") {
            Ok(Status::Blocked)
        } else if str_eq(name, "Done") {
            Ok(Status::Done)
        } else {
            Err(FormatError::Status)
        }
    }

    /// The display name read by `from_name`.
    pub fn name_text(&self) -> (r: String)
        ensures
            spec_status_of_name(r@) == Some(*self),
    {
        proof {
            reveal_strlit("To Do");
            reveal_strlit("In Progress");
            reveal_strlit("Blocked");
            reveal_strlit("Done");
            assert("To Do"@.len() == 5);
            assert("In Progress"@.len() == 11);
            assert("Blocked"@.len() == 7);
            assert("Done"@.len() == 4);
        }
        match *self {
            Status::ToDo => String::from_str("To Do"),
            Status::InProgress => String::from_str("In Progress"),
            Status::Blocked => String::from_str("Blocked"),
            Status::Done => String::from_str("Done"),
        }
    }
}

/// The kind of a tracked issue.
#[derive(Clone, Copy, PartialEq, Eq, Structural, Debug)]
pub enum IssueType {
    Story,
    Task,
    SubTask,
    Epic,
}

/// The issue type denoted by its display name.
pub open spec fn spec_issue_type_of_name(s: Seq<char>) -> Option<IssueType> {
    if s == "Story"@ {
        Some(IssueType::Story)
    } else if s == "Task"@ {
        Some(IssueType::Task)
    } else if s == "Sub-task"@ {
        Some(IssueType::SubTask)
    } else if s == "Epic"@ {
        Some(IssueType::Epic)
    } else {
        None
    }
}

impl IssueType {
    /// Reads an issue-type display name; unknown names are rejected.
    pub fn from_name(name: &str) -> (r: Result<IssueType, FormatError>)
        ensures
            match r {
                Ok(t) => spec_issue_type_of_name(name@) == Some(t),
                Err(_) => spec_issue_type_of_name(name@) is None,
            },
    {
        if str_eq(name, "Story") {
            Ok(IssueType::Story)
        } else if str_eq(name, "Task") {
            Ok(IssueType::Task)
        } else if str_eq(name, "Sub-task") {
            Ok(IssueType::SubTask)
        } else if str_eq(name, "Epic") {
            Ok(IssueType::Epic)
        } else {
            Err(FormatError::IssueType)
        }
    }
}

} // verus!
