use brudb::planner::{
    file_menu, go_back, is_go_back, is_txt_file, menu_choice, parse_timezone, read_plan_input,
    schedule_file_name, store_plan, upsert_activity, MenuChoice, PlanInput,
};
use brudb::schedule::{load_vec_from_db, parse_time};
use brudb::SimpleDB;

fn s(x: &str) -> String {
    x.to_string()
}

#[test]
fn menu_entries_map_to_actions() {
    assert_eq!(menu_choice(0), MenuChoice::NewPlan);
    assert_eq!(menu_choice(1), MenuChoice::DisplayPlan);
    assert_eq!(menu_choice(2), MenuChoice::ActivatePlan);
    assert_eq!(menu_choice(3), MenuChoice::RemovePlan);
    assert_eq!(menu_choice(4), MenuChoice::Quit);
    assert_eq!(menu_choice(5), MenuChoice::Invalid);
}

#[test]
fn txt_files_are_schedules() {
    assert!(is_txt_file("work.txt"));
    assert!(is_txt_file("a.b.txt"));
    assert!(!is_txt_file(".txt"));
    assert!(!is_txt_file("work.txt.bak"));
    assert!(!is_txt_file("worktxt"));
    assert!(!is_txt_file("work.TXT"));
}

#[test]
fn file_menu_lists_txt_files_then_go_back() {
    let names = vec![s("a.txt"), s("Cargo.toml"), s("b.txt"), s(".txt")];
    assert_eq!(file_menu(names), vec![s("a.txt"), s("b.txt"), s("Go back")]);
    assert_eq!(file_menu(vec![]), vec![s("Go back")]);
    assert!(is_go_back(go_back().as_str()));
    assert!(!is_go_back("Go back "));
}

#[test]
fn schedule_names_become_txt_files() {
    assert_eq!(schedule_file_name("  work \n"), "work.txt");
    assert_eq!(schedule_file_name("\n"), ".txt");
}

#[test]
fn timezone_offsets_are_whole_hours() {
    assert_eq!(parse_timezone(" -5\n"), Some(-5));
    assert_eq!(parse_timezone("+2"), Some(2));
    assert_eq!(parse_timezone("1.5"), None);
    assert_eq!(parse_timezone(""), None);
}

#[test]
fn plan_prompt_reads_quit_and_times() {
    assert_eq!(read_plan_input("q\n"), PlanInput::Quit);
    assert_eq!(read_plan_input("07:30\n"), PlanInput::Time { time: 730, well_formed: true });
    assert_eq!(read_plan_input("7:30"), PlanInput::Time { time: 730, well_formed: false });
    assert_eq!(read_plan_input("1:2:3"), PlanInput::Time { time: 123, well_formed: false });
    assert_eq!(read_plan_input("0730"), PlanInput::Time { time: 730, well_formed: false });
    assert_eq!(read_plan_input("ab:cd"), PlanInput::Unreadable { well_formed: true });
    assert_eq!(read_plan_input("quit"), PlanInput::Unreadable { well_formed: false });
}

#[test]
fn typed_activity_replaces_same_time() {
    let mut plan = vec![(730, s("walk")), (1200, s("eat"))];
    upsert_activity(&mut plan, 1200, s("lunch"));
    assert_eq!(plan, vec![(730, s("walk")), (1200, s("lunch"))]);
    upsert_activity(&mut plan, 900, s("work"));
    assert_eq!(plan, vec![(730, s("walk")), (1200, s("lunch")), (900, s("work"))]);
}

#[test]
fn stored_plan_uses_decimal_keys() {
    let mut db = SimpleDB::find_database("plan.txt", None);
    store_plan(&mut db, &vec![(730, s("walk")), (5, s("tea")), (730, s("run"))]);
    assert_eq!(db.get_value_from_db("730"), Some(&s("run")));
    assert_eq!(db.get_value_from_db("5"), Some(&s("tea")));
    assert_eq!(db.file_text(), "730:run\n5:tea\n");
}

#[test]
fn stored_plan_loads_back_with_same_times() {
    let mut db = SimpleDB::find_database("plan.txt", None);
    let plan = vec![(730, s("walk")), (5, s("tea")), (2359, s("sleep"))];
    store_plan(&mut db, &plan);
    let text = db.file_text();
    let again = SimpleDB::find_database("plan.txt", Some(text.as_str()));
    assert_eq!(load_vec_from_db(again), vec![(2359, s("sleep")), (5, s("tea")), (730, s("walk"))]);
}

#[test]
fn clock_text_reads_back_as_its_time() {
    for t in 0u32..10000 {
        let shown = parse_time(vec![(t, s("x"))]);
        match read_plan_input(&shown[0].0) {
            PlanInput::Time { time, .. } => assert_eq!(time, t),
            other => panic!("{} read as {:?}", shown[0].0, other),
        }
        assert_eq!(shown[0].0.replace(":", "").parse::<u32>(), Ok(t));
    }
    assert_eq!(read_plan_input("0:05"), PlanInput::Time { time: 5, well_formed: false });
    assert_eq!(read_plan_input("12:30"), PlanInput::Time { time: 1230, well_formed: true });
}
