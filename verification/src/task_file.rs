//! Task metadata records sourced from markdown files with a front-matter
//! block, and the filter that selects records by sprint tag.
use vstd::prelude::*;
use crate::commons::FormatError;
use crate::commons::Priority;
use crate::commons::Sprint;
use crate::commons::Status;
use crate::date::Date;
use crate::duration::spec_parse_duration;
use crate::duration::TimeEstimate;
use crate::text::chars_of_str;
use crate::text::copy_range;
use crate::text::string_from_chars;
use crate::text::str_eq;
use vstd::string::StringExecFns;

verus! {

/// The three duration fields a metadata record may carry.
#[derive(Clone, Copy, Debug)]
pub struct TimeTrackingObsidian {
    pub original: Option<TimeEstimate>,
    pub spent: Option<TimeEstimate>,
    pub remaining: Option<TimeEstimate>,
}

impl TimeTrackingObsidian {
    /// Builds the record from `H:MM` texts; a present text that is not a
    /// duration fails the record.
    pub fn new(original: Option<&str>, spent: Option<&str>, remaining: Option<&str>) -> (r: Result<
        TimeTrackingObsidian,
        FormatError,
    >)
        ensures
            match r {
                Ok(t) => {
                    &&& match original {
                        Some(s) => t.original matches Some(d) && spec_parse_duration(s@) == Some(
                            d.spec_seconds(),
                        ),
                        None => t.original is None,
                    }
                    &&& match spent {
                        Some(s) => t.spent matches Some(d) && spec_parse_duration(s@) == Some(
                            d.spec_seconds(),
                        ),
                        None => t.spent is None,
                    }
                    &&& match remaining {
                        Some(s) => t.remaining matches Some(d) && spec_parse_duration(s@) == Some(
                            d.spec_seconds(),
                        ),
                        None => t.remaining is None,
                    }
                },
                Err(_) => (original matches Some(s) && spec_parse_duration(s@) is None) || (
                spent matches Some(s) && spec_parse_duration(s@) is None) || (
                remaining matches Some(s) && spec_parse_duration(s@) is None),
            },
    {
        let original_d = match original {
            Some(s) => Some(
                match TimeEstimate::parse(s) {
                    Ok(d) => d,
                    Err(e) => {
                        return Err(e);
                    },
                },
            ),
            None => None,
        };
        let spent_d = match spent {
            Some(s) => Some(
                match TimeEstimate::parse(s) {
                    Ok(d) => d,
                    Err(e) => {
                        return Err(e);
                    },
                },
            ),
            None => None,
        };
        let remaining_d = match remaining {
            Some(s) => Some(
                match TimeEstimate::parse(s) {
                    Ok(d) => d,
                    Err(e) => {
                        return Err(e);
                    },
                },
            ),
            None => None,
        };
        Ok(TimeTrackingObsidian { original: original_d, spent: spent_d, remaining: remaining_d })
    }
}

/// The front-matter fields of one task metadata record.
#[derive(Debug)]
pub struct TaskProperties {
    pub priority: Priority,
    pub status: Status,
    pub due_date: Option<Date>,
    pub sprints: Vec<Sprint>,
    pub time_tracking: TimeTrackingObsidian,
}

/// The tag texts of a sprint list.
pub open spec fn sprint_names(s: Seq<Sprint>) -> Seq<Seq<char>> {
    Seq::new(s.len(), |i: int| s[i].spec_name())
}

impl TaskProperties {
    pub fn new(
        priority: Priority,
        status: Status,
        due_date: Option<Date>,
        sprints: Vec<Sprint>,
        time_tracking: TimeTrackingObsidian,
    ) -> (r: TaskProperties)
        ensures
            r.priority == priority,
            r.status == status,
            r.due_date == due_date,
            r.sprints == sprints,
            r.time_tracking == time_tracking,
    {
        TaskProperties { priority, status, due_date, sprints, time_tracking }
    }
}

impl Clone for TaskProperties {
    fn clone(&self) -> (r: Self)
        ensures
            r.priority == self.priority,
            r.status == self.status,
            r.due_date == self.due_date,
            sprint_names(r.sprints@) == sprint_names(self.sprints@),
            r.time_tracking == self.time_tracking,
    {
        let mut sprints: Vec<Sprint> = Vec::new();
        let mut i: usize = 0;
        while i < self.sprints.len()
            invariant
                i <= self.sprints@.len(),
                sprints@.len() == i,
                forall|j: int|
                    0 <= j < i ==> (#[trigger] sprints@[j]).spec_name()
                        == self.sprints@[j].spec_name(),
            decreases self.sprints@.len() - i,
        {
            sprints.push(self.sprints[i].clone());
            i = i + 1;
        }
        assert(sprint_names(sprints@) =~= sprint_names(self.sprints@));
        TaskProperties {
            priority: self.priority,
            status: self.status,
            due_date: self.due_date,
            sprints,
            time_tracking: self.time_tracking,
        }
    }
}

/// The last index of `c` in `s`, or -1 when `c` does not occur.
pub open spec fn rfind_char(s: Seq<char>, c: char) -> int
    decreases s.len(),
{
    if s.len() == 0 {
        -1
    } else if s.last() == c {
        s.len() - 1
    } else {
        rfind_char(s.drop_last(), c)
    }
}

proof fn lemma_rfind_char(s: Seq<char>, c: char)
    ensures
        -1 <= rfind_char(s, c) < s.len(),
    decreases s.len(),
{
    if s.len() > 0 && s.last() != c {
        lemma_rfind_char(s.drop_last(), c);
    }
}

/// The file stem of a path: the final component, without the part after its
/// last dot unless the dot begins the component.
pub open spec fn spec_file_stem(p: Seq<char>) -> Seq<char> {
    let comp = p.subrange(rfind_char(p, '/') + 1, p.len() as int);
    let dot = rfind_char(comp, '.');
    if dot > 0 {
        comp.subrange(0, dot)
    } else {
        comp
    }
}

/// Scans `v[from..to]` backwards for `c`; the result indexes `v[from..to]`.
fn exec_rfind_in(v: &Vec<char>, c: char, from: usize, to: usize) -> (r: Option<usize>)
    requires
        from <= to <= v@.len(),
    ensures
        match r {
            Some(k) => k as int == rfind_char(v@.subrange(from as int, to as int), c),
            None => rfind_char(v@.subrange(from as int, to as int), c) == -1,
        },
{
    let ghost s = v@.subrange(from as int, to as int);
    assert(s.take(to - from) =~= s);
    let mut i: usize = to;
    while i > from
        invariant
            from <= i <= to,
            rfind_char(s, c) == rfind_char(s.take(i - from), c),
        decreases i,
    {
        proof {
            assert(s.take(i - from).drop_last() =~= s.take(i - from - 1));
            assert(s.take(i - from).last() == s[i - from - 1]);
        }
        if v[i - 1] == c {
            assert(rfind_char(s.take(i - from), c) == i - from - 1);
            return Some(i - 1 - from);
        }
        i = i - 1;
    }
    assert(s.take(0) =~= Seq::<char>::empty());
    None
}

/// One task's metadata record: its path within the vault, its free text, and
/// its front-matter properties. The task's name is the path's file stem.
#[derive(Debug)]
pub struct TaskFile {
    pub path: String,
    pub content: String,
    pub properties: TaskProperties,
}

impl TaskFile {
    pub fn new(path: String, content: String, properties: TaskProperties) -> (r: TaskFile)
        ensures
            r.path@ == path@,
            r.content@ == content@,
            r.properties == properties,
    {
        TaskFile { path, content, properties }
    }

    /// The task's name: the file stem of its path.
    pub fn get_name(&self) -> (r: String)
        ensures
            r@ == spec_file_stem(self.path@),
    {
        let v = chars_of_str(self.path.as_str());
        let slash = exec_rfind_in(&v, '/', 0, v.len());
        proof {
            lemma_rfind_char(v@, '/');
            assert(v@.subrange(0, v@.len() as int) =~= v@);
        }
        let start: usize = match slash {
            Some(k) => k + 1,
            None => 0,
        };
        assert(start as int == rfind_char(v@, '/') + 1);
        let ghost comp = v@.subrange(start as int, v@.len() as int);
        let dot = exec_rfind_in(&v, '.', start, v.len());
        proof {
            lemma_rfind_char(comp, '.');
        }
        let chars = match dot {
            Some(d) if d > 0 => copy_range(&v, start, start + d),
            _ => copy_range(&v, start, v.len()),
        };
        proof {
            if rfind_char(comp, '.') > 0 {
                assert(chars@ =~= comp.subrange(0, rfind_char(comp, '.')));
            }
        }
        string_from_chars(&chars)
    }

    /// The externally supplied remaining-time estimate; zero when the record
    /// carries none.
    pub fn get_remaining_time(&self) -> (r: TimeEstimate)
        ensures
            r.spec_seconds() == match self.properties.time_tracking.remaining {
                Some(d) => d.spec_seconds(),
                None => 0,
            },
    {
        match self.properties.time_tracking.remaining {
            Some(d) => d,
            None => TimeEstimate::zero(),
        }
    }
}

impl Clone for TaskFile {
    fn clone(&self) -> (r: Self)
        ensures
            r.path@ == self.path@,
            r.content@ == self.content@,
            r.properties.priority == self.properties.priority,
            r.properties.status == self.properties.status,
            r.properties.due_date == self.properties.due_date,
            sprint_names(r.properties.sprints@) == sprint_names(self.properties.sprints@),
            r.properties.time_tracking == self.properties.time_tracking,
    {
        TaskFile {
            path: self.path.clone(),
            content: self.content.clone(),
            properties: self.properties.clone(),
        }
    }
}

/// The first index at or after `from` where three dashes begin, or the
/// text's length when none do.
pub open spec fn find_triple_dash(s: Seq<char>, from: int) -> int
    decreases s.len() - from,
{
    if from < 0 || from + 3 > s.len() {
        s.len() as int
    } else if s[from] == '-' && s[from + 1] == '-' && s[from + 2] == '-' {
        from
    } else {
        find_triple_dash(s, from + 1)
    }
}

proof fn lemma_find_triple_dash(s: Seq<char>, from: int)
    requires
        0 <= from <= s.len(),
    ensures
        from <= find_triple_dash(s, from) <= s.len(),
        find_triple_dash(s, from) < s.len() ==> find_triple_dash(s, from) + 3 <= s.len(),
    decreases s.len() - from,
{
    if from + 3 <= s.len() && !(s[from] == '-' && s[from + 1] == '-' && s[from + 2] == '-') {
        lemma_find_triple_dash(s, from + 1);
    }
}

fn exec_find_triple_dash(v: &Vec<char>, from: usize) -> (r: usize)
    requires
        from <= v@.len(),
    ensures
        r as int == find_triple_dash(v@, from as int),
        from <= r <= v@.len(),
        r < v@.len() ==> r + 3 <= v@.len(),
{
    proof {
        lemma_find_triple_dash(v@, from as int);
    }
    let mut i: usize = from;
    while i < v.len() && v.len() - i >= 3
        invariant
            from <= i,
            i <= v@.len(),
            find_triple_dash(v@, from as int) == find_triple_dash(v@, i as int),
        decreases v@.len() - i,
    {
        if v[i] == '-' && v[i + 1] == '-' && v[i + 2] == '-' {
            return i;
        }
        i = i + 1;
    }
    v.len()
}

/// How a metadata file's text splits into a front-matter block and content:
/// the text must open with a `---` delimiter; the block runs to the next
/// `---`; the content is what follows that delimiter, less one line break.
pub open spec fn spec_split_front_matter(s: Seq<char>) -> Option<(Seq<char>, Seq<char>)> {
    if s.len() >= 3 && s[0] == '-' && s[1] == '-' && s[2] == '-' {
        let j = find_triple_dash(s, 3);
        if j == s.len() {
            None
        } else {
            let props = s.subrange(3, j);
            let after = j + 3;
            let content = if after < s.len() && s[after] == '\n' {
                s.subrange(after + 1, s.len() as int)
            } else if after + 2 <= s.len() && s[after] == '\r' && s[after + 1] == '\n' {
                s.subrange(after + 2, s.len() as int)
            } else {
                s.subrange(after, s.len() as int)
            };
            Some((props, content))
        }
    } else {
        None
    }
}

/// Splits a metadata file's text into its front-matter block and its
/// content. Text without a complete front-matter block is rejected.
pub fn split_front_matter(text: &str) -> (r: Result<(String, String), FormatError>)
    ensures
        match r {
            Ok(p) => spec_split_front_matter(text@) == Some((p.0@, p.1@)),
            Err(_) => spec_split_front_matter(text@) is None,
        },
{
    let v = chars_of_str(text);
    if !(v.len() >= 3 && v[0] == '-' && v[1] == '-' && v[2] == '-') {
        return Err(FormatError::FrontMatter);
    }
    let j = exec_find_triple_dash(&v, 3);
    if j == v.len() {
        return Err(FormatError::FrontMatter);
    }
    let props = copy_range(&v, 3, j);
    let after = j + 3;
    let content = if after < v.len() && v[after] == '\n' {
        copy_range(&v, after + 1, v.len())
    } else if v.len() - after >= 2 && v[after] == '\r' && v[after + 1] == '\n' {
        copy_range(&v, after + 2, v.len())
    } else {
        copy_range(&v, after, v.len())
    };
    Ok((string_from_chars(&props), string_from_chars(&content)))
}

/// Selects task records by sprint membership.
#[derive(Debug)]
pub struct TaskFilter {
    sprints: Option<Vec<Sprint>>,
    path: String,
    recursive: bool,
}

/// Whether a record passes the filter: no sprint criterion, or at least one
/// of the filter's sprint tags appears among the record's sprints. Matching
/// is exact string equality on the tag text.
pub open spec fn spec_task_fulfills(f: TaskFilter, t: TaskFile) -> bool {
    !f.spec_has_sprint_criterion() || exists|i: int, j: int|
        0 <= i < f.spec_criterion_sprints().len() && 0 <= j < t.properties.sprints@.len() && (
        #[trigger] f.spec_criterion_sprints()[i]).spec_name() == (
        #[trigger] t.properties.sprints@[j]).spec_name()
}

/// The records that pass the filter, in input order.
pub open spec fn spec_filter_tasks(f: TaskFilter, ts: Seq<TaskFile>) -> Seq<TaskFile>
    decreases ts.len(),
{
    if ts.len() == 0 {
        Seq::empty()
    } else {
        spec_filter_tasks(f, ts.drop_last()) + if spec_task_fulfills(f, ts.last()) {
            seq![ts.last()]
        } else {
            Seq::empty()
        }
    }
}

impl TaskFilter {
    pub closed spec fn spec_has_sprint_criterion(self) -> bool {
        self.sprints is Some
    }

    pub closed spec fn spec_criterion_sprints(self) -> Seq<Sprint> {
        match self.sprints {
            Some(v) => v@,
            None => Seq::empty(),
        }
    }

    pub closed spec fn spec_path(self) -> Seq<char> {
        self.path@
    }

    pub closed spec fn spec_recursive(self) -> bool {
        self.recursive
    }

    /// A filter that passes every record.
    pub fn new() -> (r: TaskFilter)
        ensures
            !r.spec_has_sprint_criterion(),
            r.spec_path() == Seq::<char>::empty(),
            !r.spec_recursive(),
    {
        let r = TaskFilter { sprints: None, path: String::new(), recursive: false };
        proof {
            assert(r.path@ =~= Seq::<char>::empty());
        }
        r
    }

    /// Restricts the filter to records naming one of the given sprints.
    pub fn set_sprints(&mut self, sprints: &[Sprint])
        ensures
            final(self).spec_has_sprint_criterion(),
            sprint_names(final(self).spec_criterion_sprints()) == sprint_names(sprints@),
            final(self).spec_path() == old(self).spec_path(),
            final(self).spec_recursive() == old(self).spec_recursive(),
    {
        let mut owned: Vec<Sprint> = Vec::new();
        let mut i: usize = 0;
        while i < sprints.len()
            invariant
                i <= sprints@.len(),
                owned@.len() == i,
                forall|j: int|
                    0 <= j < i ==> (#[trigger] owned@[j]).spec_name() == sprints@[j].spec_name(),
            decreases sprints@.len() - i,
        {
            owned.push(sprints[i].clone());
            i = i + 1;
        }
        assert(sprint_names(owned@) =~= sprint_names(sprints@));
        self.sprints = Some(owned);
    }

    /// Points the filter at a directory below the vault root.
    pub fn set_path(&mut self, path: &str)
        ensures
            final(self).spec_path() == path@,
            final(self).spec_has_sprint_criterion() == old(self).spec_has_sprint_criterion(),
            final(self).spec_criterion_sprints() == old(self).spec_criterion_sprints(),
            final(self).spec_recursive() == old(self).spec_recursive(),
    {
        self.path = String::from_str(path);
    }

    /// The directory the filter points at.
    pub fn path(&self) -> (r: &str)
        ensures
            r@ == self.spec_path(),
    {
        self.path.as_str()
    }

    /// Whether a record passes the filter.
    pub fn task_fulfills_criteria(&self, task: &TaskFile) -> (r: bool)
        ensures
            r == spec_task_fulfills(*self, *task),
    {
        let fs = match &self.sprints {
            None => {
                return true;
            },
            Some(fs) => fs,
        };
        let mut i: usize = 0;
        while i < fs.len()
            invariant
                i <= fs@.len(),
                self.spec_has_sprint_criterion(),
                self.spec_criterion_sprints() == fs@,
                forall|x: int, j: int|
                    0 <= x < i && 0 <= j < task.properties.sprints@.len() ==> (
                    #[trigger] fs@[x]).spec_name() != (
                    #[trigger] task.properties.sprints@[j]).spec_name(),
            decreases fs@.len() - i,
        {
            let mut j: usize = 0;
            while j < task.properties.sprints.len()
                invariant
                    j <= task.properties.sprints@.len(),
                    i < fs@.len(),
                    forall|y: int|
                        0 <= y < j ==> (#[trigger] task.properties.sprints@[y]).spec_name()
                            != fs@[i as int].spec_name(),
                decreases task.properties.sprints@.len() - j,
            {
                if fs[i].same_tag(&task.properties.sprints[j]) {
                    proof {
                        assert(self.spec_criterion_sprints()[i as int].spec_name()
                            == task.properties.sprints@[j as int].spec_name());
                    }
                    return true;
                }
                j = j + 1;
            }
            i = i + 1;
        }
        false
    }

    /// Keeps exactly the records that pass the filter, in input order.
    #[verifier::rlimit(50)]
    pub fn filter_tasks(&self, tasks: Vec<TaskFile>) -> (r: Vec<TaskFile>)
        ensures
            r@ == spec_filter_tasks(*self, tasks@),
    {
        let ghost orig = tasks@;
        let mut rest = tasks;
        let mut rev: Vec<TaskFile> = Vec::new();
        while rest.len() > 0
            invariant
                rest@.len() + rev@.len() == orig.len(),
                rest@ == orig.take(rest@.len() as int),
                forall|i: int|
                    0 <= i < rev@.len() ==> #[trigger] rev@[i] == orig[orig.len() - 1 - i],
            decreases rest@.len(),
        {
            let t = match rest.pop() {
                Some(t) => t,
                None => {
                    proof {
                        assert(false);
                    }
                    continue ;
                },
            };
            assert(rest@ =~= orig.take(rest@.len() as int));
            rev.push(t);
        }
        let mut out: Vec<TaskFile> = Vec::new();
        while rev.len() > 0
            invariant
                rev@.len() <= orig.len(),
                forall|i: int|
                    0 <= i < rev@.len() ==> #[trigger] rev@[i] == orig[orig.len() - 1 - i],
                out@ == spec_filter_tasks(*self, orig.take((orig.len() - rev@.len()) as int)),
            decreases rev@.len(),
        {
            let ghost k = orig.len() - rev@.len();
            let t = match rev.pop() {
                Some(t) => t,
                None => {
                    proof {
                        assert(false);
                    }
                    continue ;
                },
            };
            assert(t == orig[k as int]);
            proof {
                assert(orig.take(k + 1).drop_last() =~= orig.take(k as int));
                assert(orig.take(k + 1).last() == orig[k as int]);
            }
            if self.task_fulfills_criteria(&t) {
                out.push(t);
            }
        }
        assert(orig.take(orig.len() as int) =~= orig);
        out
    }
}

} // verus!
