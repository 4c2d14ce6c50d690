//! The day-plan parser: turns one day's planner text into time-block
//! records, and the schedule aggregator that folds blocks over a date range
//! into per-task totals.
use vstd::prelude::*;
use crate::date::Date;
use crate::duration::TimeEstimate;
use crate::text::all_digits;
use crate::text::capped_digits_val;
use crate::text::chars_of_str;
use crate::text::copy_range;
use crate::text::digit_val;
use crate::text::digits_val;
use crate::text::exec_find_char;
use crate::text::exec_is_digit;
use crate::text::exec_skip_digits;
use crate::text::exec_skip_spaces;
use crate::text::find_char;
use crate::text::is_digit;
use crate::text::lemma_digits_val_nonneg;
use crate::text::lemma_find_char;
use crate::text::lemma_skip_digits;
use crate::text::lemma_skip_spaces;
use crate::text::skip_digits;
use crate::text::skip_spaces;
use crate::text::string_from_chars;
use crate::text::str_eq;

verus! {

/// A time of day with minute precision.
#[derive(Clone, Copy, PartialEq, Eq, Structural, Debug)]
pub struct ClockTime {
    pub hour: u8,
    pub minute: u8,
}

impl ClockTime {
    pub open spec fn wf(self) -> bool {
        self.hour < 24 && self.minute < 60
    }

    /// Minutes since midnight.
    pub open spec fn spec_minutes(self) -> int {
        self.hour * 60 + self.minute
    }

    pub fn minutes(&self) -> (r: u32)
        ensures
            r as int == self.spec_minutes(),
    {
        (self.hour as u32) * 60 + (self.minute as u32)
    }
}

/// One parsed planner entry: a block of time worked on a named task.
#[derive(Debug)]
pub struct PlannedTask {
    pub start: ClockTime,
    pub end: ClockTime,
    pub date: Date,
    pub name: String,
    pub linked: bool,
    pub completed: bool,
}

/// The mathematical image of a planned task.
pub ghost struct BlockView {
    pub start: int,
    pub end: int,
    pub date: Date,
    pub name: Seq<char>,
    pub linked: bool,
    pub completed: bool,
}

impl View for PlannedTask {
    type V = BlockView;

    open spec fn view(&self) -> BlockView {
        BlockView {
            start: self.start.spec_minutes(),
            end: self.end.spec_minutes(),
            date: self.date,
            name: self.name@,
            linked: self.linked,
            completed: self.completed,
        }
    }
}

impl DeepView for PlannedTask {
    type V = BlockView;

    open spec fn deep_view(&self) -> BlockView {
        self@
    }
}

impl PlannedTask {
    /// The block's length: end minus start. Negative when the end time lies
    /// before the start time; such blocks are kept as parsed.
    pub fn length(&self) -> (r: TimeEstimate)
        ensures
            r.spec_seconds() == block_len_secs(self@),
    {
        let s: i64 = (self.end.minutes() as i64 - self.start.minutes() as i64) * 60;
        TimeEstimate::from_secs(s)
    }
}

/// A block's signed length in seconds.
pub open spec fn block_len_secs(b: BlockView) -> int {
    (b.end - b.start) * 60
}

/// The clock value beginning at `from`: one or more digits whose value is an
/// hour below 24, a colon, and two digits whose value is a minute below 60.
/// Yields minutes since midnight and the index just past the minute digits.
pub open spec fn spec_parse_clock(s: Seq<char>, from: int) -> Option<(int, int)> {
    let hend = skip_digits(s, from);
    if hend == from || hend + 3 > s.len() || s[hend] != ':' || !is_digit(s[hend + 1]) || !is_digit(
        s[hend + 2],
    ) {
        None
    } else {
        let h = digits_val(s.subrange(from, hend));
        let m = digit_val(s[hend + 1]) * 10 + digit_val(s[hend + 2]);
        if h <= 23 && m <= 59 {
            Some((h * 60 + m, hend + 3))
        } else {
            None
        }
    }
}

/// The block denoted by one planner line, or nothing. The grammar: a leading
/// `- `, a single-character checkbox payload in brackets, whitespace, a
/// start time, a dash with optional whitespace around it, an end time,
/// optional whitespace, then the task name as the rest of the line. A
/// payload other than a space marks the block completed. A name wrapped in
/// `[[` and `]]` is stored without the markers and marks the block linked.
pub open spec fn spec_parse_line(date: Date, s: Seq<char>) -> Option<BlockView> {
    if s.len() < 5 || s[0] != '-' || s[1] != ' ' || s[2] != '[' || s[4] != ']' {
        None
    } else {
        let completed = s[3] != ' ';
        let i1 = skip_spaces(s, 5);
        if i1 == 5 {
            None
        } else {
            match spec_parse_clock(s, i1) {
                None => None,
                Some((startv, i2)) => {
                    let i3 = skip_spaces(s, i2);
                    if i3 >= s.len() || s[i3] != '-' {
                        None
                    } else {
                        match spec_parse_clock(s, skip_spaces(s, i3 + 1)) {
                            None => None,
                            Some((endv, i5)) => {
                                let raw = s.subrange(skip_spaces(s, i5), s.len() as int);
                                if raw.len() >= 4 && raw[0] == '[' && raw[1] == '[' && raw[raw.len()
                                    - 2] == ']' && raw[raw.len() - 1] == ']' {
                                    Some(
                                        BlockView {
                                            start: startv,
                                            end: endv,
                                            date,
                                            name: raw.subrange(2, raw.len() - 2),
                                            linked: true,
                                            completed,
                                        },
                                    )
                                } else {
                                    Some(
                                        BlockView {
                                            start: startv,
                                            end: endv,
                                            date,
                                            name: raw,
                                            linked: false,
                                            completed,
                                        },
                                    )
                                }
                            },
                        }
                    }
                },
            }
        }
    }
}

/// Parses the clock value beginning at `from`.
fn parse_clock(v: &Vec<char>, from: usize) -> (r: Option<(ClockTime, usize)>)
    requires
        from <= v@.len(),
    ensures
        match r {
            Some((t, after)) => t.wf() && from < after <= v@.len() && spec_parse_clock(
                v@,
                from as int,
            ) == Some((t.spec_minutes(), after as int)),
            None => spec_parse_clock(v@, from as int) is None,
        },
{
    let hend = exec_skip_digits(v, from);
    proof {
        lemma_skip_digits(v@, from as int);
    }
    if hend == from || v.len() - hend < 3 || v[hend] != ':' || !exec_is_digit(v[hend + 1])
        || !exec_is_digit(v[hend + 2]) {
        return None;
    }
    assert(hend + 3 <= v@.len());
    let h = capped_digits_val(v, from, hend, 23);
    let m = (v[hend + 1] as u32 - 48) * 10 + (v[hend + 2] as u32 - 48);
    proof {
        lemma_digits_val_nonneg(v@.subrange(from as int, hend as int));
    }
    if h <= 23 && m <= 59 {
        let t = ClockTime { hour: h as u8, minute: m as u8 };
        Some((t, hend + 3))
    } else {
        None
    }
}

/// Parses one planner line against the line grammar; lines that do not
/// match yield nothing and are never an error.
pub fn parse_line(date: &Date, line: &Vec<char>) -> (r: Option<PlannedTask>)
    ensures
        match r {
            Some(t) => spec_parse_line(*date, line@) == Some(t@) && t.start.wf() && t.end.wf(),
            None => spec_parse_line(*date, line@) is None,
        },
{
    let v = line;
    if v.len() < 5 || v[0] != '-' || v[1] != ' ' || v[2] != '[' || v[4] != ']' {
        return None;
    }
    let completed: bool = v[3] != ' ';
    let i1 = exec_skip_spaces(v, 5);
    proof {
        lemma_skip_spaces(v@, 5);
    }
    if i1 == 5 {
        return None;
    }
    let (start, i2) = match parse_clock(v, i1) {
        Some(p) => p,
        None => {
            return None;
        },
    };
    let i3 = exec_skip_spaces(v, i2);
    proof {
        lemma_skip_spaces(v@, i2 as int);
    }
    if i3 >= v.len() || v[i3] != '-' {
        return None;
    }
    let i4 = exec_skip_spaces(v, i3 + 1);
    proof {
        lemma_skip_spaces(v@, i3 + 1);
    }
    let (end, i5) = match parse_clock(v, i4) {
        Some(p) => p,
        None => {
            return None;
        },
    };
    let i6 = exec_skip_spaces(v, i5);
    proof {
        lemma_skip_spaces(v@, i5 as int);
    }
    let ghost raw = v@.subrange(i6 as int, v@.len() as int);
    let rawlen: usize = v.len() - i6;
    let linked: bool = rawlen >= 4 && v[i6] == '[' && v[i6 + 1] == '[' && v[v.len() - 2] == ']'
        && v[v.len() - 1] == ']';
    let name_chars: Vec<char> = if linked {
        copy_range(v, i6 + 2, v.len() - 2)
    } else {
        copy_range(v, i6, v.len())
    };
    proof {
        if linked {
            assert(name_chars@ =~= raw.subrange(2, raw.len() - 2));
        } else {
            assert(name_chars@ =~= raw);
        }
    }
    let name = string_from_chars(&name_chars);
    let t = PlannedTask { start, end, date: *date, name, linked, completed };
    Some(t)
}

/// A line with its trailing carriage return removed.
pub open spec fn strip_cr(l: Seq<char>) -> Seq<char> {
    if l.len() > 0 && l.last() == '\r' {
        l.drop_last()
    } else {
        l
    }
}

/// The lines of `s` from index `i` on: split on line feeds, with a carriage
/// return before a line feed removed, and no empty line after a final line
/// feed.
pub open spec fn spec_lines_from(s: Seq<char>, i: int) -> Seq<Seq<char>>
    decreases s.len() - i + 1,
    via spec_lines_from_decreases
{
    if i < 0 || i >= s.len() {
        Seq::empty()
    } else {
        let j = find_char(s, '\n', i);
        seq![strip_cr(s.subrange(i, j))] + spec_lines_from(s, j + 1)
    }
}

#[via_fn]
proof fn spec_lines_from_decreases(s: Seq<char>, i: int) {
    if 0 <= i < s.len() {
        lemma_find_char(s, '\n', i);
    }
}

/// The lines of `s`.
pub open spec fn spec_lines(s: Seq<char>) -> Seq<Seq<char>> {
    spec_lines_from(s, 0)
}

/// Splits `v` into lines as `spec_lines` describes.
pub fn split_lines(v: &Vec<char>) -> (r: Vec<Vec<char>>)
    ensures
        r.deep_view() == spec_lines(v@),
{
    let mut out: Vec<Vec<char>> = Vec::new();
    let mut i: usize = 0;
    while i < v.len()
        invariant
            i <= v@.len(),
            spec_lines(v@) == out.deep_view() + spec_lines_from(v@, i as int),
        decreases v@.len() - i,
    {
        let j = exec_find_char(v, '\n', i);
        proof {
            lemma_find_char(v@, '\n', i as int);
        }
        let mut line = copy_range(v, i, j);
        if line.len() > 0 && line[line.len() - 1] == '\r' {
            let _ = line.pop();
        }
        assert(line@ =~= strip_cr(v@.subrange(i as int, j as int)));
        let ghost before = out.deep_view();
        out.push(line);
        assert(out.deep_view() =~~= before + seq![line@]);
        if j == v.len() {
            assert(spec_lines_from(v@, j + 1) =~= Seq::<Seq<char>>::empty());
            assert(out.deep_view() =~~= spec_lines(v@));
            return out;
        }
        i = j + 1;
    }
    assert(out.deep_view() =~~= spec_lines(v@));
    out
}

/// The blocks contributed by one line.
pub open spec fn line_block(date: Date, l: Seq<char>) -> Seq<BlockView> {
    match spec_parse_line(date, l) {
        Some(b) => seq![b],
        None => Seq::empty(),
    }
}

/// The blocks contributed by a sequence of lines, in order.
pub open spec fn spec_day_blocks(date: Date, lines: Seq<Seq<char>>) -> Seq<BlockView>
    decreases lines.len(),
{
    if lines.len() == 0 {
        Seq::empty()
    } else {
        spec_day_blocks(date, lines.drop_last()) + line_block(date, lines.last())
    }
}

/// The blocks denoted by one day's planner text: every line is parsed
/// independently, and lines that do not match the grammar are skipped.
pub open spec fn spec_parse_day(date: Date, text: Seq<char>) -> Seq<BlockView> {
    spec_day_blocks(date, spec_lines(text))
}

/// How many of the lines yield no block.
pub open spec fn spec_skipped_lines(date: Date, lines: Seq<Seq<char>>) -> int
    decreases lines.len(),
{
    if lines.len() == 0 {
        0
    } else {
        spec_skipped_lines(date, lines.drop_last()) + if spec_parse_line(
            date,
            lines.last(),
        ) is None {
            1int
        } else {
            0int
        }
    }
}

/// Parses one day's planner text into time blocks. Never fails: lines that
/// do not match the grammar contribute nothing.
pub fn parse_day(date: &Date, text: &str) -> (r: Vec<PlannedTask>)
    ensures
        r.deep_view() == spec_parse_day(*date, text@),
{
    let (blocks, _) = parse_day_with_diagnostics(date, text);
    blocks
}

/// Parses one day's planner text, also counting the lines that matched no
/// block; silent loss of malformed entries can then be surfaced by tooling.
pub fn parse_day_with_diagnostics(date: &Date, text: &str) -> (r: (Vec<PlannedTask>, usize))
    ensures
        r.0.deep_view() == spec_parse_day(*date, text@),
        r.1 as int == spec_skipped_lines(*date, spec_lines(text@)),
{
    let v = chars_of_str(text);
    let lines = split_lines(&v);
    let mut out: Vec<PlannedTask> = Vec::new();
    let mut skipped: usize = 0;
    let mut k: usize = 0;
    while k < lines.len()
        invariant
            k <= lines@.len(),
            out.deep_view() == spec_day_blocks(*date, lines.deep_view().take(k as int)),
            skipped as int == spec_skipped_lines(*date, lines.deep_view().take(k as int)),
            skipped <= k,
        decreases lines@.len() - k,
    {
        let ghost before = out.deep_view();
        match parse_line(date, &lines[k]) {
            Some(t) => {
                out.push(t);
                assert(out.deep_view() =~= before + seq![t@]);
            },
            None => {
                skipped = skipped + 1;
            },
        }
        proof {
            assert(lines.deep_view().take(k + 1).drop_last() =~= lines.deep_view().take(k as int));
            assert(lines.deep_view().take(k + 1).last() == lines.deep_view()[k as int]);
            assert(lines.deep_view()[k as int] == lines@[k as int]@);
        }
        k = k + 1;
    }
    assert(lines.deep_view().take(lines@.len() as int) =~= lines.deep_view());
    (out, skipped)
}

/// One day's planner text, keyed by its date. A date whose planner file is
/// missing simply does not appear: it contributes no blocks.
#[derive(Debug)]
pub struct DayPlan {
    pub date: Date,
    pub text: String,
}

/// The mathematical image of a day plan.
pub ghost struct DayPlanView {
    pub date: Date,
    pub text: Seq<char>,
}

impl View for DayPlan {
    type V = DayPlanView;

    open spec fn view(&self) -> DayPlanView {
        DayPlanView { date: self.date, text: self.text@ }
    }
}

impl DeepView for DayPlan {
    type V = DayPlanView;

    open spec fn deep_view(&self) -> DayPlanView {
        self@
    }
}

/// The blocks of a sequence of day plans, in order.
pub open spec fn spec_days_blocks(days: Seq<DayPlanView>) -> Seq<BlockView>
    decreases days.len(),
{
    if days.len() == 0 {
        Seq::empty()
    } else {
        spec_days_blocks(days.drop_last()) + spec_parse_day(days.last().date, days.last().text)
    }
}

/// A task's accumulated totals over a block sequence: completed seconds,
/// uncompleted seconds, and the number of blocks carrying its name.
pub open spec fn task_totals(blocks: Seq<BlockView>, name: Seq<char>) -> (int, int, int)
    decreases blocks.len(),
{
    if blocks.len() == 0 {
        (0, 0, 0)
    } else {
        let rest = task_totals(blocks.drop_last(), name);
        let b = blocks.last();
        if b.name == name {
            if b.completed {
                (rest.0 + block_len_secs(b), rest.1, rest.2 + 1)
            } else {
                (rest.0, rest.1 + block_len_secs(b), rest.2 + 1)
            }
        } else {
            rest
        }
    }
}

/// Seconds of completed blocks carrying `name`.
pub open spec fn completed_secs(blocks: Seq<BlockView>, name: Seq<char>) -> int {
    task_totals(blocks, name).0
}

/// Seconds of uncompleted blocks carrying `name`.
pub open spec fn uncompleted_secs(blocks: Seq<BlockView>, name: Seq<char>) -> int {
    task_totals(blocks, name).1
}

/// How many blocks carry `name`.
pub open spec fn occurrences(blocks: Seq<BlockView>, name: Seq<char>) -> int {
    task_totals(blocks, name).2
}

/// Every block's start and end lie within one day.
pub open spec fn blocks_bounded(blocks: Seq<BlockView>) -> bool {
    forall|i: int|
        0 <= i < blocks.len() ==> 0 <= (#[trigger] blocks[i]).start <= 1439 && 0 <= blocks[i].end
            <= 1439
}

proof fn lemma_task_totals_remove(s: Seq<BlockView>, name: Seq<char>, i: int)
    requires
        0 <= i < s.len(),
    ensures
        ({
            let whole = task_totals(s, name);
            let rest = task_totals(s.remove(i), name);
            let b = s[i];
            if b.name == name {
                if b.completed {
                    rest.0 == whole.0 - block_len_secs(b) && rest.1 == whole.1 && rest.2 == whole.2
                        - 1
                } else {
                    rest.0 == whole.0 && rest.1 == whole.1 - block_len_secs(b) && rest.2 == whole.2
                        - 1
                }
            } else {
                rest == whole
            }
        }),
    decreases s.len(),
{
    if i == s.len() - 1 {
        assert(s.remove(i) =~= s.drop_last());
    } else {
        lemma_task_totals_remove(s.drop_last(), name, i);
        assert(s.remove(i).drop_last() =~= s.drop_last().remove(i));
        assert(s.remove(i).last() == s.last());
    }
}

/// Task totals depend only on which blocks occur, not on their order.
pub proof fn lemma_task_totals_multiset(s1: Seq<BlockView>, s2: Seq<BlockView>, name: Seq<char>)
    requires
        s1.to_multiset() == s2.to_multiset(),
    ensures
        task_totals(s1, name) == task_totals(s2, name),
    decreases s1.len(),
{
    broadcast use vstd::seq_lib::group_to_multiset_ensures;
    broadcast use vstd::multiset::group_multiset_axioms;

    if s1.len() == 0 {
        assert(s1.to_multiset().len() == 0);
        assert(s2.to_multiset().len() == 0);
        assert(s2.len() == 0);
    } else {
        let x = s1.last();
        assert(s1[s1.len() - 1] == x);
        assert(s1.contains(x));
        assert(s2.to_multiset().count(x) > 0);
        assert(s2.contains(x));
        let i = choose|i: int| 0 <= i < s2.len() && s2[i] == x;
        assert(s1 =~= s1.drop_last().push(x));
        assert(s1.to_multiset() =~= s1.drop_last().to_multiset().insert(x));
        assert(s2.remove(i).to_multiset() =~= s2.to_multiset().remove(x));
        assert(s1.drop_last().to_multiset() =~= s2.remove(i).to_multiset());
        lemma_task_totals_multiset(s1.drop_last(), s2.remove(i), name);
        lemma_task_totals_remove(s2, name, i);
    }
}

/// The blocks of a permuted day-plan sequence are a permutation of the
/// original blocks.
pub proof fn lemma_days_blocks_multiset(d1: Seq<DayPlanView>, d2: Seq<DayPlanView>)
    requires
        d1.to_multiset() == d2.to_multiset(),
    ensures
        spec_days_blocks(d1).to_multiset() == spec_days_blocks(d2).to_multiset(),
    decreases d1.len(),
{
    broadcast use vstd::seq_lib::group_to_multiset_ensures;
    broadcast use vstd::multiset::group_multiset_axioms;

    if d1.len() == 0 {
        assert(d1.to_multiset().len() == 0);
        assert(d2.to_multiset().len() == 0);
        assert(d2.len() == 0);
        assert(spec_days_blocks(d1).to_multiset() =~= spec_days_blocks(d2).to_multiset());
    } else {
        let x = d1.last();
        assert(d1[d1.len() - 1] == x);
        assert(d1.contains(x));
        assert(d2.to_multiset().count(x) > 0);
        assert(d2.contains(x));
        let i = choose|i: int| 0 <= i < d2.len() && d2[i] == x;
        assert(d1 =~= d1.drop_last().push(x));
        assert(d1.to_multiset() =~= d1.drop_last().to_multiset().insert(x));
        assert(d2.remove(i).to_multiset() =~= d2.to_multiset().remove(x));
        assert(d1.drop_last().to_multiset() =~= d2.remove(i).to_multiset());
        lemma_days_blocks_multiset(d1.drop_last(), d2.remove(i));
        lemma_days_blocks_concat_remove(d2, i);
        vstd::seq_lib::lemma_multiset_commutative(
            spec_days_blocks(d1.drop_last()),
            spec_parse_day(x.date, x.text),
        );
    }
}

/// Removing one day removes exactly its blocks from the pool.
proof fn lemma_days_blocks_concat_remove(s: Seq<DayPlanView>, i: int)
    requires
        0 <= i < s.len(),
    ensures
        spec_days_blocks(s).to_multiset() == spec_days_blocks(s.remove(i)).to_multiset().add(
            spec_parse_day(s[i].date, s[i].text).to_multiset(),
        ),
    decreases s.len(),
{
    broadcast use vstd::multiset::group_multiset_axioms;

    vstd::seq_lib::lemma_multiset_commutative(
        spec_days_blocks(s.drop_last()),
        spec_parse_day(s.last().date, s.last().text),
    );
    if i == s.len() - 1 {
        assert(s.remove(i) =~= s.drop_last());
    } else {
        lemma_days_blocks_concat_remove(s.drop_last(), i);
        assert(s.remove(i).drop_last() =~= s.drop_last().remove(i));
        assert(s.remove(i).last() == s.last());
        vstd::seq_lib::lemma_multiset_commutative(
            spec_days_blocks(s.remove(i).drop_last()),
            spec_parse_day(s.last().date, s.last().text),
        );
        assert(spec_days_blocks(s).to_multiset() =~= spec_days_blocks(s.remove(i)).to_multiset()
            .add(spec_parse_day(s[i].date, s[i].text).to_multiset()));
    }
}

/// Aggregation is order-independent: day plans fed to the aggregator in any
/// order yield identical per-task totals for every task name.
pub proof fn lemma_aggregation_order_independent(
    d1: Seq<DayPlanView>,
    d2: Seq<DayPlanView>,
    name: Seq<char>,
)
    requires
        d1.to_multiset() == d2.to_multiset(),
    ensures
        completed_secs(spec_days_blocks(d1), name) == completed_secs(spec_days_blocks(d2), name),
        uncompleted_secs(spec_days_blocks(d1), name) == uncompleted_secs(
            spec_days_blocks(d2),
            name,
        ),
        occurrences(spec_days_blocks(d1), name) == occurrences(spec_days_blocks(d2), name),
{
    lemma_days_blocks_multiset(d1, d2);
    lemma_task_totals_multiset(spec_days_blocks(d1), spec_days_blocks(d2), name);
}

/// A clock value parsed from text lies within one day.
proof fn lemma_parse_clock_bounds(s: Seq<char>, from: int)
    requires
        0 <= from <= s.len(),
    ensures
        spec_parse_clock(s, from) matches Some(p) ==> 0 <= p.0 <= 1439 && from < p.1 <= s.len(),
{
    lemma_skip_digits(s, from);
    if spec_parse_clock(s, from) is Some {
        lemma_digits_val_nonneg(s.subrange(from, skip_digits(s, from)));
    }
}

/// Any block a line yields has its times within one day.
proof fn lemma_parse_line_bounds(date: Date, s: Seq<char>)
    ensures
        spec_parse_line(date, s) matches Some(b) ==> 0 <= b.start <= 1439 && 0 <= b.end <= 1439,
{
    if !(s.len() < 5 || s[0] != '-' || s[1] != ' ' || s[2] != '[' || s[4] != ']') {
        lemma_skip_spaces(s, 5);
        let i1 = skip_spaces(s, 5);
        lemma_parse_clock_bounds(s, i1);
        match spec_parse_clock(s, i1) {
            Some(p) => {
                lemma_skip_spaces(s, p.1);
                let i3 = skip_spaces(s, p.1);
                if i3 < s.len() && s[i3] == '-' {
                    lemma_skip_spaces(s, i3 + 1);
                    lemma_parse_clock_bounds(s, skip_spaces(s, i3 + 1));
                }
            },
            None => {},
        }
    }
}

/// Every block of a day's parse has its times within one day.
proof fn lemma_day_blocks_bounded(date: Date, lines: Seq<Seq<char>>)
    ensures
        blocks_bounded(spec_day_blocks(date, lines)),
    decreases lines.len(),
{
    if lines.len() > 0 {
        lemma_day_blocks_bounded(date, lines.drop_last());
        lemma_parse_line_bounds(date, lines.last());
    }
}

/// Every block of a day-plan pool has its times within one day.
pub proof fn lemma_days_blocks_bounded(days: Seq<DayPlanView>)
    ensures
        blocks_bounded(spec_days_blocks(days)),
    decreases days.len(),
{
    if days.len() > 0 {
        lemma_days_blocks_bounded(days.drop_last());
        lemma_day_blocks_bounded(days.last().date, spec_lines(days.last().text));
    }
}

/// Totals over bounded blocks grow by at most one day per block.
proof fn lemma_task_totals_bounded(blocks: Seq<BlockView>, name: Seq<char>)
    requires
        blocks_bounded(blocks),
    ensures
        -86340 * blocks.len() <= completed_secs(blocks, name) <= 86340 * blocks.len(),
        -86340 * blocks.len() <= uncompleted_secs(blocks, name) <= 86340 * blocks.len(),
        0 <= occurrences(blocks, name) <= blocks.len(),
    decreases blocks.len(),
{
    if blocks.len() > 0 {
        assert(blocks_bounded(blocks.drop_last()));
        lemma_task_totals_bounded(blocks.drop_last(), name);
    }
}

/// Where a name never occurs, its totals are zero.
pub proof fn lemma_absent_name_zero(blocks: Seq<BlockView>, name: Seq<char>)
    requires
        occurrences(blocks, name) == 0,
    ensures
        completed_secs(blocks, name) == 0,
        uncompleted_secs(blocks, name) == 0,
    decreases blocks.len(),
{
    if blocks.len() > 0 {
        assert(occurrences(blocks.drop_last(), name) >= 0) by {
            lemma_occurrences_nonneg(blocks.drop_last(), name);
        }
        lemma_absent_name_zero(blocks.drop_last(), name);
    }
}

pub proof fn lemma_occurrences_nonneg(blocks: Seq<BlockView>, name: Seq<char>)
    ensures
        occurrences(blocks, name) >= 0,
    decreases blocks.len(),
{
    if blocks.len() > 0 {
        lemma_occurrences_nonneg(blocks.drop_last(), name);
    }
}

/// Per-task accumulated completed and uncompleted time.
#[derive(Clone, Copy, Debug)]
pub struct TimeAllocation {
    uncompleted_time: TimeEstimate,
    completed_time: TimeEstimate,
}

impl TimeAllocation {
    pub closed spec fn spec_uncompleted(self) -> int {
        self.uncompleted_time.spec_seconds()
    }

    pub closed spec fn spec_completed(self) -> int {
        self.completed_time.spec_seconds()
    }

    pub fn get_uncompleted_time(&self) -> (r: TimeEstimate)
        ensures
            r.spec_seconds() == self.spec_uncompleted(),
    {
        self.uncompleted_time
    }

    pub fn get_completed_time(&self) -> (r: TimeEstimate)
        ensures
            r.spec_seconds() == self.spec_completed(),
    {
        self.completed_time
    }
}

/// Per-task totals folded from every block of a pool of day plans.
#[derive(Debug)]
pub struct TaskSchedule {
    planned_tasks: Vec<PlannedTask>,
    time_allocations: Vec<(String, TimeAllocation)>,
}

impl TaskSchedule {
    /// Every parsed block, in input order.
    pub closed spec fn spec_blocks(self) -> Seq<BlockView> {
        self.planned_tasks.deep_view()
    }

    pub closed spec fn spec_entries(self) -> Seq<(String, TimeAllocation)> {
        self.time_allocations@
    }

    /// The totals table matches the blocks exactly: task names are unique,
    /// every listed task occurs in the blocks with exactly the listed
    /// totals, and every name occurring in the blocks is listed.
    pub open spec fn wf(self) -> bool {
        let blocks = self.spec_blocks();
        let es = self.spec_entries();
        &&& blocks_bounded(blocks)
        &&& forall|i: int, j: int|
            0 <= i < j < es.len() ==> (#[trigger] es[i]).0@ != (#[trigger] es[j]).0@
        &&& forall|i: int|
            0 <= i < es.len() ==> occurrences(blocks, (#[trigger] es[i]).0@) > 0
                && es[i].1.spec_completed() == completed_secs(blocks, es[i].0@)
                && es[i].1.spec_uncompleted() == uncompleted_secs(blocks, es[i].0@)
        &&& forall|n: Seq<char>|
            #[trigger] occurrences(blocks, n) > 0 ==> exists|i: int|
                0 <= i < es.len() && (#[trigger] es[i]).0@ == n
    }

    /// Folds every block of the given day plans into per-task totals:
    /// completed block lengths add to a task's completed time, uncompleted
    /// ones to its uncompleted time.
    pub fn new(days: &Vec<DayPlan>) -> (r: TaskSchedule)
        ensures
            r.wf(),
            r.spec_blocks() == spec_days_blocks(days.deep_view()),
    {
        let mut planned: Vec<PlannedTask> = Vec::new();
        let mut di: usize = 0;
        while di < days.len()
            invariant
                di <= days@.len(),
                planned.deep_view() == spec_days_blocks(days.deep_view().take(di as int)),
            decreases days@.len() - di,
        {
            let day = &days[di];
            let mut blocks = parse_day(&day.date, day.text.as_str());
            let ghost before = planned.deep_view();
            planned.append(&mut blocks);
            proof {
                assert(days.deep_view().take(di + 1).drop_last() =~= days.deep_view().take(
                    di as int,
                ));
                assert(days.deep_view().take(di + 1).last() == days.deep_view()[di as int]);
                assert(planned.deep_view() =~~= before + spec_parse_day(day.date, day.text@));
            }
            di = di + 1;
        }
        assert(days.deep_view().take(days@.len() as int) =~= days.deep_view());
        let ghost blocks = planned.deep_view();
        proof {
            lemma_days_blocks_bounded(days.deep_view());
        }
        let n_blocks = planned.len();
        let mut allocations: Vec<(String, TimeAllocation)> = Vec::new();
        let mut bi: usize = 0;
        while bi < n_blocks
            invariant
                bi <= n_blocks,
                n_blocks == planned@.len(),
                blocks == planned.deep_view(),
                blocks_bounded(blocks),
                forall|i: int, j: int|
                    0 <= i < j < allocations@.len() ==> (#[trigger] allocations@[i]).0@ != (
                    #[trigger] allocations@[j]).0@,
                forall|i: int|
                    0 <= i < allocations@.len() ==> occurrences(
                        blocks.take(bi as int),
                        (#[trigger] allocations@[i]).0@,
                    ) > 0 && allocations@[i].1.spec_completed() == completed_secs(
                        blocks.take(bi as int),
                        allocations@[i].0@,
                    ) && allocations@[i].1.spec_uncompleted() == uncompleted_secs(
                        blocks.take(bi as int),
                        allocations@[i].0@,
                    ),
                forall|n: Seq<char>|
                    #[trigger] occurrences(blocks.take(bi as int), n) > 0 ==> exists|i: int|
                        0 <= i < allocations@.len() && (#[trigger] allocations@[i]).0@ == n,
            decreases n_blocks - bi,
        {
            let b = &planned[bi];
            let len_secs: i128 = ((b.end.minutes() as i128) - (b.start.minutes() as i128)) * 60;
            proof {
                assert(blocks[bi as int] == b@);
                assert(0 <= b@.start <= 1439 && 0 <= b@.end <= 1439);
                assert(blocks.take(bi + 1).drop_last() =~= blocks.take(bi as int));
                assert(blocks.take(bi + 1).last() == blocks[bi as int]);
                assert(blocks_bounded(blocks.take(bi as int))) by {
                    assert(forall|i: int|
                        0 <= i < bi ==> (#[trigger] blocks.take(bi as int)[i]) == blocks[i]);
                }
            }
            let mut k: usize = 0;
            let mut found: bool = false;
            while k < allocations.len()
                invariant
                    k <= allocations@.len(),
                    !found ==> forall|x: int|
                        0 <= x < k ==> (#[trigger] allocations@[x]).0@ != b@.name,
                    found ==> k < allocations@.len() && allocations@[k as int].0@ == b@.name,
                decreases allocations@.len() - k, (if found { 0int } else { 1int }),
            {
                if str_eq(allocations[k].0.as_str(), b.name.as_str()) {
                    found = true;
                    break ;
                }
                k = k + 1;
            }
            let ghost old_allocs = allocations@;
            if found {
                let pair = allocations.remove(k);
                let key = pair.0;
                let alloc = pair.1;
                proof {
                    lemma_task_totals_bounded(blocks.take(bi as int), b@.name);
                    assert(86340 * (bi as int) <= 86340 * 0xffff_ffff_ffff_ffffu64) by (
                    nonlinear_arith)
                        requires
                            0 <= bi <= 0xffff_ffff_ffff_ffffu64,
                    ;
                }
                let new_alloc = if b.completed {
                    TimeAllocation {
                        completed_time: TimeEstimate::from_wide_secs(
                            alloc.completed_time.wide_secs() + len_secs,
                        ),
                        uncompleted_time: alloc.uncompleted_time,
                    }
                } else {
                    TimeAllocation {
                        completed_time: alloc.completed_time,
                        uncompleted_time: TimeEstimate::from_wide_secs(
                            alloc.uncompleted_time.wide_secs() + len_secs,
                        ),
                    }
                };
                allocations.insert(k, (key, new_alloc));
                proof {
                    assert(allocations@ =~= old_allocs.update(k as int, (key, new_alloc)));
                    assert forall|i: int| 0 <= i < allocations@.len() implies occurrences(
                        blocks.take(bi + 1),
                        (#[trigger] allocations@[i]).0@,
                    ) > 0 && allocations@[i].1.spec_completed() == completed_secs(
                        blocks.take(bi + 1),
                        allocations@[i].0@,
                    ) && allocations@[i].1.spec_uncompleted() == uncompleted_secs(
                        blocks.take(bi + 1),
                        allocations@[i].0@,
                    ) by {
                        if i != k {
                            assert(allocations@[i] == old_allocs[i]);
                            assert(allocations@[i].0@ != b@.name);
                        }
                    }
                    assert forall|n: Seq<char>|
                        #[trigger] occurrences(blocks.take(bi + 1), n) > 0 implies exists|i: int|
                        0 <= i < allocations@.len() && (#[trigger] allocations@[i]).0@ == n by {
                        if n == b@.name {
                            assert(allocations@[k as int].0@ == n);
                        } else {
                            assert(occurrences(blocks.take(bi as int), n) > 0);
                            let w = choose|i: int|
                                0 <= i < old_allocs.len() && (#[trigger] old_allocs[i]).0@ == n;
                            assert(allocations@[w].0@ == n);
                        }
                    }
                }
            } else {
                proof {
                    lemma_occurrences_nonneg(blocks.take(bi as int), b@.name);
                    if occurrences(blocks.take(bi as int), b@.name) > 0 {
                        let ghost w = choose|i: int|
                            0 <= i < allocations@.len() && (#[trigger] allocations@[i]).0@
                                == b@.name;
                        assert(false);
                    }
                    lemma_absent_name_zero(blocks.take(bi as int), b@.name);
                }
                let new_alloc = if b.completed {
                    TimeAllocation {
                        completed_time: TimeEstimate::from_wide_secs(len_secs),
                        uncompleted_time: TimeEstimate::from_wide_secs(0),
                    }
                } else {
                    TimeAllocation {
                        completed_time: TimeEstimate::from_wide_secs(0),
                        uncompleted_time: TimeEstimate::from_wide_secs(len_secs),
                    }
                };
                let new_pair = (b.name.clone(), new_alloc);
                let ghost gp = new_pair;
                allocations.push(new_pair);
                proof {
                    assert(allocations@ =~= old_allocs.push(gp));
                    assert forall|i: int| 0 <= i < allocations@.len() implies occurrences(
                        blocks.take(bi + 1),
                        (#[trigger] allocations@[i]).0@,
                    ) > 0 && allocations@[i].1.spec_completed() == completed_secs(
                        blocks.take(bi + 1),
                        allocations@[i].0@,
                    ) && allocations@[i].1.spec_uncompleted() == uncompleted_secs(
                        blocks.take(bi + 1),
                        allocations@[i].0@,
                    ) by {
                        if i < old_allocs.len() {
                            assert(allocations@[i] == old_allocs[i]);
                            assert(allocations@[i].0@ != b@.name);
                        } else {
                            assert(allocations@[i].0@ == b@.name);
                        }
                    }
                    assert forall|n: Seq<char>|
                        #[trigger] occurrences(blocks.take(bi + 1), n) > 0 implies exists|i: int|
                        0 <= i < allocations@.len() && (#[trigger] allocations@[i]).0@ == n by {
                        if n == b@.name {
                            assert(allocations@[old_allocs.len() as int].0@ == n);
                        } else {
                            assert(occurrences(blocks.take(bi as int), n) > 0);
                            let w = choose|i: int|
                                0 <= i < old_allocs.len() && (#[trigger] old_allocs[i]).0@ == n;
                            assert(allocations@[w].0@ == n);
                        }
                    }
                }
            }
            bi = bi + 1;
        }
        assert(blocks.take(n_blocks as int) =~= blocks);
        TaskSchedule { planned_tasks: planned, time_allocations: allocations }
    }

    /// Every parsed block, in input order.
    pub fn planned_tasks(&self) -> (r: &Vec<PlannedTask>)
        ensures
            r.deep_view() == self.spec_blocks(),
    {
        &self.planned_tasks
    }

    /// The totals of the named task, or nothing when the task never appears
    /// in the schedule.
    pub fn get_task_time_allocation(&self, task_name: &str) -> (r: Option<&TimeAllocation>)
        requires
            self.wf(),
        ensures
            match r {
                Some(a) => occurrences(self.spec_blocks(), task_name@) > 0 && a.spec_completed()
                    == completed_secs(self.spec_blocks(), task_name@) && a.spec_uncompleted()
                    == uncompleted_secs(self.spec_blocks(), task_name@),
                None => occurrences(self.spec_blocks(), task_name@) == 0,
            },
    {
        let mut k: usize = 0;
        while k < self.time_allocations.len()
            invariant
                k <= self.spec_entries().len(),
                forall|x: int|
                    0 <= x < k ==> (#[trigger] self.spec_entries()[x]).0@ != task_name@,
            decreases self.spec_entries().len() - k,
        {
            if str_eq(self.time_allocations[k].0.as_str(), task_name) {
                return Some(&self.time_allocations[k].1);
            }
            k = k + 1;
        }
        proof {
            lemma_occurrences_nonneg(self.spec_blocks(), task_name@);
            if occurrences(self.spec_blocks(), task_name@) > 0 {
                let ghost w = choose|i: int|
                    0 <= i < self.spec_entries().len() && (#[trigger] self.spec_entries()[i]).0@
                        == task_name@;
                assert(false);
            }
        }
        None
    }

    /// The accumulated totals, one entry per task name.
    pub fn iter_time_allocations(&self) -> (r: &Vec<(String, TimeAllocation)>)
        ensures
            r@ == self.spec_entries(),
    {
        &self.time_allocations
    }
}

} // verus!
