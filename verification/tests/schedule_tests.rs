use brudb::schedule::{
    clock_string, cron_expression, fix_timezone, keys_are_times, load_vec_from_db, make_schedule_expr,
    parse_schedule, parse_time, schedule_lines, sort_vec, timezone_hundreds, timezone_shift_fits,
    wait_seconds, ScheduleError, TimeError,
};
use brudb::SimpleDB;

fn s(x: &str) -> String {
    x.to_string()
}

#[test]
fn fix_timezone_shifts_and_wraps_below_zero() {
    let v = vec![(1230, s("lunch")), (300, s("night")), (0, s("midnight"))];
    let r = fix_timezone(-500, v);
    // 300 - 500 = -200, plus 24 is -176, which a u32 holds as 2^32 - 176;
    // 0 - 500 = -500, plus 24 is -476
    assert_eq!(r, vec![(730, s("lunch")), (4294967120, s("night")), (4294966820, s("midnight"))]);
}

#[test]
fn fix_timezone_without_change_keeps_times() {
    let v = vec![(730, s("a")), (2359, s("b"))];
    assert_eq!(fix_timezone(0, v.clone()), v);
    assert_eq!(fix_timezone(100, v), vec![(830, s("a")), (2459, s("b"))]);
}

#[test]
fn timezone_checks() {
    assert!(timezone_shift_fits(-500, &vec![(1230, s("a"))]));
    assert!(!timezone_shift_fits(1, &vec![(2147483647, s("a"))]));
    assert_eq!(timezone_hundreds(5), Some(500));
    assert_eq!(timezone_hundreds(-3), Some(-300));
    assert_eq!(timezone_hundreds(21474837), None);
    assert_eq!(timezone_hundreds(-21474837), None);
}

#[test]
fn sort_vec_is_stable_by_activity() {
    let mut v = vec![(1, s("b")), (2, s("a")), (3, s("b")), (4, s("a")), (5, s("ab"))];
    let r = sort_vec(&mut v);
    let expected = vec![(2, s("a")), (4, s("a")), (5, s("ab")), (1, s("b")), (3, s("b"))];
    assert_eq!(r, expected);
    assert_eq!(v, expected);
}

#[test]
fn sort_vec_orders_by_code_point() {
    let mut v = vec![(1, s("é")), (2, s("z")), (3, s("Z")), (4, s(""))];
    let r = sort_vec(&mut v);
    assert_eq!(r, vec![(4, s("")), (3, s("Z")), (2, s("z")), (1, s("é"))]);
}

#[test]
fn sorting_sorted_plan_changes_nothing() {
    let mut v = vec![(9, s("a")), (1, s("b")), (5, s("c"))];
    let r = sort_vec(&mut v);
    assert_eq!(r, vec![(9, s("a")), (1, s("b")), (5, s("c"))]);
}

#[test]
fn parse_time_by_digit_count() {
    let v = vec![(5, s("a")), (45, s("b")), (730, s("c")), (1230, s("d")), (12345, s("e")), (0, s("f"))];
    assert_eq!(
        parse_time(v),
        vec![(s("0:05"), s("a")), (s("0:45"), s("b")), (s("7:30"), s("c")), (s("12:30"), s("d")), (s(""), s("e")), (s("0:00"), s("f"))]
    );
    assert_eq!(clock_string(2359), "23:59");
}

#[test]
fn cron_expressions_for_clock_texts() {
    assert_eq!(cron_expression("7:30"), Ok(s("0 30 7 * * *")));
    assert_eq!(cron_expression("0:05"), Ok(s("0 5 0 * * *")));
    assert_eq!(cron_expression("+23:+59"), Ok(s("0 59 23 * * *")));
    assert_eq!(cron_expression("24:00"), Err(TimeError::Format));
    assert_eq!(cron_expression("10:60"), Err(TimeError::Format));
    assert_eq!(cron_expression("1:2:3"), Err(TimeError::Format));
    assert_eq!(cron_expression(""), Err(TimeError::Format));
    assert_eq!(cron_expression("ab:10"), Err(TimeError::Hours));
    assert_eq!(cron_expression("10:xx"), Err(TimeError::Minutes));
    assert_eq!(cron_expression(":10"), Err(TimeError::Hours));
}

#[test]
fn make_schedule_expr_keeps_valid_entries_in_order() {
    let v = vec![(s("7:30"), s("run")), (s(""), s("bad")), (s("12:00"), s("eat")), (s("25:00"), s("late"))];
    assert_eq!(make_schedule_expr(v), vec![(s("0 30 7 * * *"), s("run")), (s("0 0 12 * * *"), s("eat"))]);
}

#[test]
fn every_clock_time_gets_its_cron_expression() {
    for h in 0..24u32 {
        for m in 0..60u32 {
            let text = clock_string(100 * h + m);
            assert_eq!(cron_expression(text.as_str()), Ok(format!("0 {} {} * * *", m, h)));
        }
    }
}

#[test]
fn load_vec_reads_times_and_sorts() {
    let db = SimpleDB::find_database("plan.txt", Some("730:walk\n100:read\n1200:eat\n"));
    assert!(keys_are_times(&db));
    assert_eq!(load_vec_from_db(db), vec![(1200, s("eat")), (100, s("read")), (730, s("walk"))]);
    let bad = SimpleDB::find_database("plan.txt", Some("x:walk\n"));
    assert!(!keys_are_times(&bad));
}

#[test]
fn schedule_lines_pad_by_bytes() {
    let v = vec![(s("7:30"), s("run")), (s("12:00"), s("é")), (s("0:05"), s("coffee"))];
    assert_eq!(
        schedule_lines(&v),
        vec![s("run    | 7:30 "), s("é     | 12:00 "), s("coffee | 0:05 ")]
    );
    assert_eq!(schedule_lines(&vec![]), Vec::<String>::new());
}

#[test]
fn schedules_parse_with_cron() {
    let schedule = parse_schedule("0 30 7 * * *").unwrap();
    let next = schedule.upcoming(chrono::Utc).next().unwrap();
    assert_eq!(next.format("%H:%M:%S").to_string(), "07:30:00");
    assert!(matches!(parse_schedule("not a schedule"), Err(ScheduleError::InvalidExpression)));
}

#[test]
fn wait_only_for_future_occurrences() {
    assert_eq!(wait_seconds(42), 42);
    assert_eq!(wait_seconds(0), 0);
    assert_eq!(wait_seconds(-5), 0);
}
