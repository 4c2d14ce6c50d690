use sprint_balance::balance::{balance_entries, SprintTimeBalance, TaskTimes};
use sprint_balance::commons::{FormatError, IssueType, Priority, Sprint, Status};
use sprint_balance::date::{date_range, Date};
use sprint_balance::planner::{DayPlan, TaskSchedule};
use sprint_balance::task_file::{
    split_front_matter, TaskFile, TaskFilter, TaskProperties, TimeTrackingObsidian,
};
use sprint_balance::week::{sprint_date_range, sprint_tag};

fn record(path: &str, sprints: Vec<&str>, remaining: Option<&str>) -> TaskFile {
    let tracking = TimeTrackingObsidian::new(None, None, remaining).unwrap();
    let props = TaskProperties::new(
        Priority::Medium,
        Status::InProgress,
        None,
        sprints.iter().map(|s| Sprint::new(String::from(*s))).collect(),
        tracking,
    );
    TaskFile::new(String::from(path), String::new(), props)
}

fn schedule_of(days: Vec<(&str, &str)>) -> TaskSchedule {
    let plans: Vec<DayPlan> = days
        .iter()
        .map(|(d, t)| DayPlan { date: Date::parse(d).unwrap(), text: String::from(*t) })
        .collect();
    TaskSchedule::new(&plans)
}

#[test]
fn sprint_tag_combines_year_and_week() {
    assert_eq!(sprint_tag(2024, 7), "Y24W07");
    assert_eq!(sprint_tag(2024, 12), "Y24W12");
    assert_eq!(sprint_tag(2005, 3), "Y05W03");
}

#[test]
fn sprint_week_runs_monday_through_sunday() {
    let (first, last) = sprint_date_range(2024, 7).unwrap();
    assert_eq!(first.render(), "2024-02-12");
    assert_eq!(last.render(), "2024-02-18");
    let days = date_range(&first, &last);
    assert_eq!(days.len(), 7);
}

#[test]
fn sprint_week_out_of_range_is_rejected() {
    assert!(sprint_date_range(2019, 53).is_none());
    assert!(sprint_date_range(2024, 0).is_none());
}

#[test]
fn filter_selects_records_naming_the_sprint() {
    let records = vec![
        record("projects/In sprint.md", vec!["Y24W07", "Y24W08"], None),
        record("projects/Other sprint.md", vec!["Y24W09"], None),
        record("projects/No sprint.md", vec![], None),
    ];
    let mut filter = TaskFilter::new();
    filter.set_sprints(&[Sprint::new(String::from("Y24W07"))]);
    let kept = filter.filter_tasks(records);
    assert_eq!(kept.len(), 1);
    assert_eq!(kept[0].get_name(), "In sprint");
}

#[test]
fn filter_without_criterion_keeps_everything() {
    let records = vec![
        record("a.md", vec![], None),
        record("b.md", vec!["Y24W07"], None),
    ];
    let filter = TaskFilter::new();
    assert_eq!(filter.filter_tasks(records).len(), 2);
}

#[test]
fn reconcile_scenario_in_sprint() {
    // Metadata carries the task with a 2:00 estimate; the week's schedule
    // holds one uncompleted 1:30 block for it.
    let (first, last) = sprint_date_range(2024, 7).unwrap();
    let mut days: Vec<DayPlan> = date_range(&first, &last)
        .into_iter()
        .map(|d| DayPlan { date: d, text: String::new() })
        .collect();
    days[2].text = String::from("- [ ] 9:00 - 10:30 [[Write report]]");
    let schedule = TaskSchedule::new(&days);

    let records = vec![record("projects/Write report.md", vec!["Y24W07"], Some("2:00"))];
    let mut filter = TaskFilter::new();
    filter.set_sprints(&[Sprint::new(sprint_tag(2024, 7))]);
    let kept = filter.filter_tasks(records);

    let report = SprintTimeBalance::reconcile(&kept, &schedule);
    assert_eq!(report.tasks.len(), 1);
    let row = &report.tasks[0];
    assert_eq!(row.name, "Write report");
    assert!(row.in_sprint);
    assert_eq!(row.remaining_time.render(false), "2:00");
    assert_eq!(row.uncompleted_time.wide_secs(), 5400);
    assert_eq!(row.completed_time.wide_secs(), 0);
    let times = TaskTimes {
        in_sprint: row.in_sprint,
        remaining_time: row.remaining_time,
        uncompleted_time: row.uncompleted_time,
        completed_time: row.completed_time,
    };
    assert_eq!(times.allocated().unwrap().render(false), "1:30");
    assert_eq!(times.diff().unwrap().render(true), "-0:30");
}

#[test]
fn reconcile_scenario_schedule_only() {
    // A task that appears only in the schedule, with 0:45 completed.
    let schedule = schedule_of(vec![("2024-02-12", "- [x] 9:00 - 9:45 Ad-hoc Fix")]);
    let report = SprintTimeBalance::reconcile(&Vec::new(), &schedule);
    assert_eq!(report.tasks.len(), 1);
    let row = &report.tasks[0];
    assert_eq!(row.name, "Ad-hoc Fix");
    assert!(!row.in_sprint);
    assert_eq!(row.remaining_time.render(false), "0:00");
    assert_eq!(row.completed_time.wide_secs(), 2700);
    assert_eq!(row.uncompleted_time.wide_secs(), 0);
}

#[test]
fn merge_is_complete_and_duplicate_free() {
    let schedule = schedule_of(vec![(
        "2024-02-12",
        "- [ ] 9:00 - 10:00 Shared\n- [ ] 10:00 - 11:00 Schedule only",
    )]);
    let records = vec![
        record("Shared.md", vec!["Y24W07"], Some("1:00")),
        record("Meta only.md", vec!["Y24W07"], Some("0:30")),
    ];
    let entries = balance_entries(&records, &schedule);
    let mut names: Vec<String> = entries.iter().map(|e| e.0.clone()).collect();
    names.sort();
    assert_eq!(names, vec!["Meta only", "Schedule only", "Shared"]);
    let shared = entries.iter().find(|e| e.0 == "Shared").unwrap();
    assert!(shared.1.in_sprint);
    assert_eq!(shared.1.remaining_time.wide_secs(), 3600);
    assert_eq!(shared.1.uncompleted_time.wide_secs(), 3600);
}

#[test]
fn later_metadata_record_wins() {
    let schedule = schedule_of(vec![]);
    let records = vec![
        record("Task.md", vec!["Y24W07"], Some("1:00")),
        record("notes/Task.md", vec!["Y24W07"], Some("3:00")),
    ];
    let entries = balance_entries(&records, &schedule);
    assert_eq!(entries.len(), 1);
    assert_eq!(entries[0].1.remaining_time.wide_secs(), 3 * 3600);
}

#[test]
fn report_sorts_sprint_rows_first_by_remaining_then_name() {
    let schedule = schedule_of(vec![(
        "2024-02-12",
        "- [ ] 9:00 - 10:00 Zeta extra\n- [ ] 10:00 - 11:00 Alpha extra",
    )]);
    let records = vec![
        record("Big.md", vec!["S"], Some("5:00")),
        record("Small B.md", vec!["S"], Some("1:00")),
        record("Small A.md", vec!["S"], Some("1:00")),
    ];
    let report = SprintTimeBalance::reconcile(&records, &schedule);
    let names: Vec<&str> = report.tasks.iter().map(|t| t.name.as_str()).collect();
    assert_eq!(names, vec!["Small A", "Small B", "Big", "Alpha extra", "Zeta extra"]);
    assert!(report.tasks[0].in_sprint);
    assert!(!report.tasks[3].in_sprint);
}

#[test]
fn reconcile_twice_yields_identical_output() {
    let schedule = schedule_of(vec![("2024-02-12", "- [x] 9:00 - 9:45 [[Write report]]")]);
    let records = vec![record("Write report.md", vec!["S"], Some("2:00"))];
    let first = SprintTimeBalance::reconcile(&records, &schedule);
    let second = SprintTimeBalance::reconcile(&records, &schedule);
    assert_eq!(first.tasks.len(), second.tasks.len());
    for (a, b) in first.tasks.iter().zip(second.tasks.iter()) {
        assert_eq!(a.name, b.name);
        assert_eq!(a.in_sprint, b.in_sprint);
        assert_eq!(a.remaining_time, b.remaining_time);
        assert_eq!(a.uncompleted_time, b.uncompleted_time);
        assert_eq!(a.completed_time, b.completed_time);
    }
}

#[test]
fn summary_totals_the_four_figures() {
    let schedule = schedule_of(vec![(
        "2024-02-12",
        "- [ ] 9:00 - 10:30 [[In sprint]]\n- [x] 11:00 - 11:45 Extra",
    )]);
    let records = vec![record("In sprint.md", vec!["S"], Some("2:00"))];
    let report = SprintTimeBalance::reconcile(&records, &schedule);
    let summary = report.summary().unwrap();
    assert_eq!(summary.sprint_remaining.render(false), "2:00");
    assert_eq!(summary.sprint_allocated.render(false), "1:30");
    assert_eq!(summary.additional_allocated.render(false), "0:45");
    assert_eq!(summary.total_allocated.render(false), "2:15");
    assert_eq!(summary.sprint_diff().unwrap().render(true), "-0:30");
}

#[test]
fn front_matter_splits_block_and_content() {
    let (props, content) =
        split_front_matter("---\npriority: 2\n---\nBody text").unwrap();
    assert_eq!(props, "\npriority: 2\n");
    assert_eq!(content, "Body text");
}

#[test]
fn front_matter_requires_both_delimiters() {
    assert!(split_front_matter("no front matter").is_err());
    assert!(split_front_matter("---\nunclosed").is_err());
}

#[test]
fn task_name_is_the_file_stem() {
    let t = record("projects/Write report.md", vec![], None);
    assert_eq!(t.get_name(), "Write report");
    let bare = record("Plain", vec![], None);
    assert_eq!(bare.get_name(), "Plain");
}

#[test]
fn remaining_time_defaults_to_zero() {
    let t = record("T.md", vec![], None);
    assert_eq!(t.get_remaining_time().wide_secs(), 0);
    let u = record("U.md", vec![], Some("0:30"));
    assert_eq!(u.get_remaining_time().wide_secs(), 1800);
}

#[test]
fn tracking_fields_parse_independently() {
    let t = TimeTrackingObsidian::new(Some("8:00"), Some("3:00"), Some("9:00")).unwrap();
    assert_eq!(t.original.unwrap().wide_secs(), 8 * 3600);
    assert_eq!(t.spent.unwrap().wide_secs(), 3 * 3600);
    assert_eq!(t.remaining.unwrap().wide_secs(), 9 * 3600);
    assert!(TimeTrackingObsidian::new(Some("bad"), None, None).is_err());
}

#[test]
fn priority_round_trips_through_its_number() {
    assert_eq!(Priority::from_number(1).unwrap(), Priority::VeryHigh);
    assert_eq!(Priority::from_number(5).unwrap(), Priority::VeryLow);
    assert_eq!(Priority::from_number(0), Err(FormatError::Priority));
    assert_eq!(Priority::from_number(6), Err(FormatError::Priority));
    for p in [
        Priority::VeryLow,
        Priority::Low,
        Priority::Medium,
        Priority::High,
        Priority::VeryHigh,
    ] {
        assert_eq!(Priority::from_number(p.to_number()).unwrap(), p);
    }
}

#[test]
fn status_names_round_trip() {
    assert_eq!(Status::from_name("To Do").unwrap(), Status::ToDo);
    assert_eq!(Status::from_name("In Progress").unwrap(), Status::InProgress);
    assert_eq!(Status::from_name("Blocked").unwrap(), Status::Blocked);
    assert_eq!(Status::from_name("Done").unwrap(), Status::Done);
    assert_eq!(Status::from_name("done"), Err(FormatError::Status));
    for s in [Status::ToDo, Status::InProgress, Status::Blocked, Status::Done] {
        assert_eq!(Status::from_name(&s.name_text()).unwrap(), s);
    }
}

#[test]
fn issue_type_names_are_exact() {
    assert_eq!(IssueType::from_name("Sub-task").unwrap(), IssueType::SubTask);
    assert_eq!(IssueType::from_name("Story").unwrap(), IssueType::Story);
    assert!(IssueType::from_name("story").is_err());
}
