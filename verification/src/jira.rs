//! The plain data carried by issue-tracker records: keys, users, issue
//! identifiers, and the tracker's time figures.
use vstd::prelude::*;
use crate::duration::TimeEstimate;
use vstd::string::StringExecFns;

verus! {

/// An issue key such as `MB-123`.
#[derive(Debug)]
pub struct JiraKey {
    key: String,
}

impl JiraKey {
    pub closed spec fn spec_key(self) -> Seq<char> {
        self.key@
    }

    pub fn new(key: &str) -> (r: Self)
        ensures
            r.spec_key() == key@,
    {
        JiraKey { key: String::from_str(key) }
    }

    pub fn key(&self) -> (r: &str)
        ensures
            r@ == self.spec_key(),
    {
        self.key.as_str()
    }
}

impl Clone for JiraKey {
    fn clone(&self) -> (r: Self)
        ensures
            r.spec_key() == self.spec_key(),
    {
        JiraKey { key: self.key.clone() }
    }
}

/// A tracker user.
#[derive(Debug)]
pub struct User {
    pub account_id: String,
    pub display_name: String,
    pub url: String,
}

impl User {
    pub fn new(account_id: String, display_name: String, url: String) -> (r: User)
        ensures
            r.account_id@ == account_id@,
            r.display_name@ == display_name@,
            r.url@ == url@,
    {
        User { account_id, display_name, url }
    }

    pub fn get_display_name(&self) -> (r: &str)
        ensures
            r@ == self.display_name@,
    {
        self.display_name.as_str()
    }
}

/// A reference to another issue: its key and its summary.
#[derive(Debug)]
pub struct IssueIdentifier {
    key: JiraKey,
    name: String,
}

impl IssueIdentifier {
    pub closed spec fn spec_key(self) -> Seq<char> {
        self.key.spec_key()
    }

    pub closed spec fn spec_name(self) -> Seq<char> {
        self.name@
    }

    pub fn new(key: JiraKey, name: String) -> (r: IssueIdentifier)
        ensures
            r.spec_key() == key.spec_key(),
            r.spec_name() == name@,
    {
        IssueIdentifier { key, name }
    }

    pub fn get_key(&self) -> (r: &JiraKey)
        ensures
            r.spec_key() == self.spec_key(),
    {
        &self.key
    }

    pub fn get_name(&self) -> (r: &str)
        ensures
            r@ == self.spec_name(),
    {
        self.name.as_str()
    }
}

/// The tracker's three time figures for an issue, each optional.
#[derive(Clone, Copy, Debug)]
pub struct TimeTrackingJira {
    pub left: Option<TimeEstimate>,
    pub original: Option<TimeEstimate>,
    pub spent: Option<TimeEstimate>,
}

impl TimeTrackingJira {
    pub fn new(
        left: Option<TimeEstimate>,
        original: Option<TimeEstimate>,
        spent: Option<TimeEstimate>,
    ) -> (r: TimeTrackingJira)
        ensures
            r.left == left,
            r.original == original,
            r.spent == spent,
    {
        TimeTrackingJira { left, original, spent }
    }

    pub fn get_time_left(&self) -> (r: Option<&TimeEstimate>)
        ensures
            match r {
                Some(d) => self.left == Some(*d),
                None => self.left is None,
            },
    {
        self.left.as_ref()
    }

    pub fn get_time_original(&self) -> (r: Option<&TimeEstimate>)
        ensures
            match r {
                Some(d) => self.original == Some(*d),
                None => self.original is None,
            },
    {
        self.original.as_ref()
    }

    pub fn get_time_spent(&self) -> (r: Option<&TimeEstimate>)
        ensures
            match r {
                Some(d) => self.spent == Some(*d),
                None => self.spent is None,
            },
    {
        self.spent.as_ref()
    }
}

} // verus!
