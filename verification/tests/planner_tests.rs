use sprint_balance::date::Date;
use sprint_balance::planner::{parse_day, parse_day_with_diagnostics, DayPlan, TaskSchedule};

fn day(text: &str) -> Date {
    Date::parse(text).unwrap()
}

#[test]
fn parse_single_linked_block() {
    let d = day("2024-02-14");
    let blocks = parse_day(&d, "- [ ] 9:00 - 10:30 [[Write report]]");
    assert_eq!(blocks.len(), 1);
    let b = &blocks[0];
    assert_eq!(b.start.hour, 9);
    assert_eq!(b.start.minute, 0);
    assert_eq!(b.end.hour, 10);
    assert_eq!(b.end.minute, 30);
    assert_eq!(b.name, "Write report");
    assert!(b.linked);
    assert!(!b.completed);
    assert_eq!(b.date, d);
    assert_eq!(b.length().render(false), "1:30");
}

#[test]
fn checkbox_payload_marks_completion() {
    let d = day("2024-02-14");
    let blocks = parse_day(&d, "- [x] 9:00 - 9:45 Ad-hoc Fix\n- [ ] 10:00 - 11:00 Other");
    assert_eq!(blocks.len(), 2);
    assert!(blocks[0].completed);
    assert!(!blocks[1].completed);
    assert_eq!(blocks[0].name, "Ad-hoc Fix");
    assert!(!blocks[0].linked);
}

#[test]
fn non_matching_lines_are_skipped_silently() {
    let d = day("2024-02-14");
    let text = "Some prose about the day.\n\n- [ ] 9:00 - 10:30 [[Write report]]\n- not a block\n* [ ] 9:00 - 10:00 wrong marker\n- [ ] 25:00 - 26:00 bad time\n";
    let blocks = parse_day(&d, text);
    assert_eq!(blocks.len(), 1);
    assert_eq!(blocks[0].name, "Write report");
}

#[test]
fn negative_length_blocks_are_kept() {
    let d = day("2024-02-14");
    let blocks = parse_day(&d, "- [ ] 10:30 - 9:00 Backwards");
    assert_eq!(blocks.len(), 1);
    assert_eq!(blocks[0].length().wide_secs(), -5400);
}

#[test]
fn empty_text_has_no_blocks() {
    let d = day("2024-02-14");
    assert_eq!(parse_day(&d, "").len(), 0);
}

#[test]
fn aggregation_partitions_by_completion() {
    let plans = vec![
        DayPlan {
            date: day("2024-02-14"),
            text: String::from("- [ ] 9:00 - 10:30 [[Write report]]\n- [x] 11:00 - 11:45 [[Write report]]"),
        },
        DayPlan {
            date: day("2024-02-15"),
            text: String::from("- [ ] 8:00 - 8:30 [[Write report]]\n- [x] 9:00 - 9:45 Ad-hoc Fix"),
        },
    ];
    let schedule = TaskSchedule::new(&plans);
    let report = schedule.get_task_time_allocation("Write report").unwrap();
    assert_eq!(report.get_uncompleted_time().wide_secs(), 5400 + 1800);
    assert_eq!(report.get_completed_time().wide_secs(), 2700);
    let fix = schedule.get_task_time_allocation("Ad-hoc Fix").unwrap();
    assert_eq!(fix.get_completed_time().wide_secs(), 2700);
    assert_eq!(fix.get_uncompleted_time().wide_secs(), 0);
    assert!(schedule.get_task_time_allocation("Absent").is_none());
}

#[test]
fn aggregation_is_order_independent() {
    let a = DayPlan {
        date: day("2024-02-14"),
        text: String::from("- [ ] 9:00 - 10:30 [[Write report]]"),
    };
    let b = DayPlan {
        date: day("2024-02-15"),
        text: String::from("- [x] 8:00 - 8:45 [[Write report]]\n- [ ] 9:00 - 9:10 Other"),
    };
    let a2 = DayPlan { date: a.date, text: a.text.clone() };
    let b2 = DayPlan { date: b.date, text: b.text.clone() };
    let forward = TaskSchedule::new(&vec![a, b]);
    let backward = TaskSchedule::new(&vec![b2, a2]);
    for name in ["Write report", "Other"] {
        let f = forward.get_task_time_allocation(name).unwrap();
        let g = backward.get_task_time_allocation(name).unwrap();
        assert_eq!(f.get_completed_time().wide_secs(), g.get_completed_time().wide_secs());
        assert_eq!(f.get_uncompleted_time().wide_secs(), g.get_uncompleted_time().wide_secs());
    }
}

#[test]
fn planned_tasks_keep_every_block_in_order() {
    let plans = vec![
        DayPlan {
            date: day("2024-02-14"),
            text: String::from("- [ ] 9:00 - 10:00 One\n- [ ] 10:00 - 11:00 Two"),
        },
        DayPlan { date: day("2024-02-15"), text: String::from("- [x] 9:00 - 9:30 Three") },
    ];
    let schedule = TaskSchedule::new(&plans);
    let names: Vec<&str> =
        schedule.planned_tasks().iter().map(|t| t.name.as_str()).collect();
    assert_eq!(names, vec!["One", "Two", "Three"]);
}

#[test]
fn crlf_lines_parse_like_plain_lines() {
    let d = day("2024-02-14");
    let blocks = parse_day(&d, "- [ ] 9:00 - 10:00 Task\r\n- [x] 10:00 - 11:00 Task\r\n");
    assert_eq!(blocks.len(), 2);
    assert_eq!(blocks[0].name, "Task");
}

#[test]
fn trailing_digits_after_end_time_join_the_name() {
    let d = day("2024-02-14");
    let blocks = parse_day(&d, "- [ ] 9:00 - 10:005 late digits");
    assert_eq!(blocks.len(), 1);
    assert_eq!(blocks[0].end.minute, 0);
    assert_eq!(blocks[0].name, "5 late digits");
}

#[test]
fn diagnostics_count_skipped_lines() {
    let d = day("2024-02-14");
    let text = "prose\n- [ ] 9:00 - 10:00 Task\n\nmore prose";
    let (blocks, skipped) = parse_day_with_diagnostics(&d, text);
    assert_eq!(blocks.len(), 1);
    assert_eq!(skipped, 3);
}
