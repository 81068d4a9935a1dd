use pairs::{AssignError, DayLocked, Choices, Data, Day, Pairing, Section, Student, Team, Zoom};

fn st(n: &str) -> Student {
    Student::from(n.to_string())
}

fn sec(n: &str) -> Section {
    Section::from(n.to_string())
}

fn team(n: &str) -> Team {
    Team::from(n.to_string())
}

fn describe(p: &Pairing) -> String {
    match p {
        Pairing::Pair { section, team, primary, secondary } => {
            format!("Pair {} {} {} {}", section.name, team.name, primary.name, secondary.name)
        }
        Pairing::Solo { section, team, student } => {
            format!("Solo {} {} {}", section.name, team.name, student.name)
        }
        Pairing::Unassigned { section, student } => format!("Unassigned {} {}", section.name, student.name),
        Pairing::Absent(s) => format!("Absent {}", s.name),
    }
}

fn day_of(data: &Data, d: usize) -> Vec<String> {
    let mut v: Vec<String> = data.records(Day::from(d)).iter().map(describe).collect();
    v.sort();
    v
}

fn names(v: &[Student]) -> Vec<String> {
    v.iter().map(|s| s.name.clone()).collect()
}

fn roster(students: &[(&str, &str)], sections: &[&str], teams: &[&str]) -> Data {
    let mut data = Data::new("course");
    for s in sections {
        data.new_section(sec(s), Zoom::from(format!("{}-zoom", s)));
    }
    for t in teams {
        data.new_team(team(t));
    }
    for (s, section) in students {
        data.new_student(st(s), sec(section));
    }
    data
}

fn open_day(data: &mut Data) {
    data.add_day();
    let n = data.list_days().len();
    data.toggle_lock_day(Day::from(n - 1));
}

fn five() -> Data {
    let mut data = roster(&[("A", "S"), ("B", "S"), ("C", "S"), ("D", "S"), ("E", "S")], &["S"], &["T1", "T2"]);
    open_day(&mut data);
    data
}

#[test]
fn shuffle_leaves_last_student_without_team() {
    let mut data = five();
    let order = vec![st("B"), st("D"), st("A"), st("E"), st("C")];
    data.shuffle_in_order(Day::from(0), sec("S"), order).unwrap();
    assert_eq!(day_of(&data, 0), vec!["Pair S T1 C B".to_string(), "Pair S T2 E D".to_string()]);
    assert_eq!(names(&data.unassigned_students(Day::from(0))), vec!["A".to_string()]);
}

#[test]
fn repeat_keeps_yesterdays_pairs() {
    let mut data = five();
    let order = vec![st("B"), st("D"), st("A"), st("E"), st("C")];
    data.shuffle_in_order(Day::from(0), sec("S"), order).unwrap();
    open_day(&mut data);
    let last = data.records(Day::from(0));
    let order = data.students_present_in_section(Day::from(1), sec("S"));
    data.repeat_in_order(Day::from(1), sec("S"), order, last).unwrap();
    let today = day_of(&data, 1);
    assert!(today.contains(&"Pair S T1 C B".to_string()));
    assert_eq!(today, vec!["Pair S T1 C B".to_string(), "Pair S T2 E D".to_string()]);
}

#[test]
fn random_shuffle_pairs_everyone_it_can() {
    let mut data = five();
    data.shuffle(Day::from(0), sec("S")).unwrap();
    let recs = day_of(&data, 0);
    assert_eq!(recs.len(), 2);
    assert!(recs.iter().all(|r| r.starts_with("Pair S T")));
    assert_eq!(data.unassigned_students(Day::from(0)).len(), 1);
}

#[test]
fn shuffle_prefers_new_partners() {
    let mut data = roster(&[("A", "S"), ("B", "S"), ("C", "S"), ("D", "S")], &["S"], &["T1", "T2"]);
    open_day(&mut data);
    data.shuffle_in_order(Day::from(0), sec("S"), vec![st("C"), st("D"), st("B"), st("A")]).unwrap();
    assert_eq!(day_of(&data, 0), vec!["Pair S T1 A C".to_string(), "Pair S T2 B D".to_string()]);
    open_day(&mut data);
    data.shuffle_in_order(Day::from(1), sec("S"), vec![st("C"), st("D"), st("B"), st("A")]).unwrap();
    assert_eq!(day_of(&data, 1), vec!["Pair S T1 A D".to_string(), "Pair S T2 B C".to_string()]);
}

#[test]
fn pick_partner_prefers_fresh_then_falls_back_to_last() {
    let mut data = roster(&[("A", "S"), ("B", "S"), ("C", "S")], &["S"], &["T1"]);
    open_day(&mut data);
    open_day(&mut data);
    assert_eq!(data.assign_student(Day::from(0), st("A"), sec("S"), team("T1")), Ok(()));
    assert_eq!(data.assign_student(Day::from(0), st("B"), sec("S"), team("T1")), Ok(()));
    assert!(!data.nonrepeat_partners_for_day(&Day::from(1), &st("A"), &st("B")));
    assert!(data.nonrepeat_partners_for_day(&Day::from(1), &st("A"), &st("C")));
    assert!(data.nonrepeat_partners_for_day(&Day::from(0), &st("A"), &st("B")));
    let mut pool = vec![st("B"), st("C")];
    let got = data.pick_partner_from(&Day::from(1), &st("A"), &mut pool);
    assert_eq!(got.map(|s| s.name), Some("C".to_string()));
    assert_eq!(names(&pool), vec!["B".to_string()]);
    let mut pool = vec![st("B")];
    let got = data.pick_partner_from(&Day::from(1), &st("A"), &mut pool);
    assert_eq!(got.map(|s| s.name), Some("B".to_string()));
    assert!(pool.is_empty());
}

#[test]
fn grand_shuffle_spreads_teams_over_sections() {
    let mut data = roster(
        &[("A", "S1"), ("B", "S1"), ("C", "S1"), ("D", "S1"), ("E", "S2"), ("F", "S2"), ("G", "S2"), ("H", "S2")],
        &["S1", "S2"],
        &["T1", "T2", "T3", "T4"],
    );
    open_day(&mut data);
    data.grand_shuffle(Day::from(0)).unwrap();
    let recs = day_of(&data, 0);
    assert_eq!(recs.len(), 4);
    let s1 = recs.iter().filter(|r| r.starts_with("Pair S1 ")).count();
    let s2 = recs.iter().filter(|r| r.starts_with("Pair S2 ")).count();
    assert_eq!(s1 + s2, 4);
    assert!((s1 as i64 - s2 as i64).abs() <= 1);
}

#[test]
fn grand_shuffle_with_continuity_keeps_a_member_per_team() {
    let mut data = roster(
        &[("A", "S1"), ("B", "S1"), ("C", "S2"), ("D", "S2"), ("E", "S2")],
        &["S1", "S2"],
        &["T1", "T2", "T3"],
    );
    open_day(&mut data);
    data.shuffle_in_order(Day::from(0), sec("S1"), vec![st("B"), st("A")]).unwrap();
    assert_eq!(day_of(&data, 0), vec!["Pair S1 T1 A B".to_string()]);
    open_day(&mut data);
    data.grand_shuffle_with_continuity(Day::from(1)).unwrap();
    let recs = data.records(Day::from(1));
    let on_t1: Vec<String> = recs.iter().filter(|p| p.on_team(&team("T1"))).map(describe).collect();
    assert_eq!(on_t1.len(), 1);
    assert!(on_t1[0].contains(" A ") || on_t1[0].ends_with(" A") || on_t1[0].contains(" B"));
    assert_eq!(data.unassigned_students(Day::from(1)).len(), 0);
}

#[test]
fn shuffle_with_continuity_keeps_one_member() {
    let mut data = five();
    data.shuffle_in_order(Day::from(0), sec("S"), vec![st("B"), st("D"), st("A"), st("E"), st("C")]).unwrap();
    open_day(&mut data);
    let last = data.records(Day::from(0));
    data.shuffle_with_continuity_in_order(Day::from(1), sec("S"), vec![st("A"), st("B"), st("C"), st("D"), st("E")], last).unwrap();
    let today = day_of(&data, 1);
    assert_eq!(today.len(), 2);
    // each of yesterday's teams keeps one of its members and gets a new partner
    let t1 = today.iter().find(|r| r.starts_with("Pair S T1 ")).unwrap();
    assert!(t1.starts_with("Pair S T1 B ") || t1.starts_with("Pair S T1 C "));
    assert!(!(t1.contains(" B") && t1.contains(" C")));
    let t2 = today.iter().find(|r| r.starts_with("Pair S T2 ")).unwrap();
    assert!(t2.starts_with("Pair S T2 D ") || t2.starts_with("Pair S T2 E "));
}

#[test]
fn random_continuity_and_repeat_run() {
    let mut data = five();
    data.shuffle(Day::from(0), sec("S")).unwrap();
    open_day(&mut data);
    data.repeat(Day::from(1), sec("S")).unwrap();
    assert_eq!(day_of(&data, 1), day_of(&data, 0));
    open_day(&mut data);
    data.shuffle_with_continuity(Day::from(2), sec("S")).unwrap();
    assert_eq!(day_of(&data, 2).len(), 2);
}

#[test]
fn assign_into_full_team_is_refused() {
    let mut data = roster(&[("A", "S"), ("B", "S"), ("C", "S")], &["S"], &["T1"]);
    open_day(&mut data);
    assert_eq!(data.assign_student(Day::from(0), st("A"), sec("S"), team("T1")), Ok(()));
    assert_eq!(day_of(&data, 0), vec!["Solo S T1 A".to_string()]);
    assert_eq!(data.assign_student(Day::from(0), st("B"), sec("S"), team("T1")), Ok(()));
    assert_eq!(day_of(&data, 0), vec!["Pair S T1 A B".to_string()]);
    let before = day_of(&data, 0);
    assert_eq!(data.assign_student(Day::from(0), st("C"), sec("S"), team("T1")), Err(AssignError::TeamFull));
    assert_eq!(day_of(&data, 0), before);
}

#[test]
fn assign_across_sections_is_refused() {
    let mut data = roster(&[("A", "S1"), ("B", "S2")], &["S1", "S2"], &["T1"]);
    open_day(&mut data);
    assert_eq!(data.assign_student(Day::from(0), st("A"), sec("S1"), team("T1")), Ok(()));
    assert_eq!(
        data.assign_student(Day::from(0), st("B"), sec("S2"), team("T1")),
        Err(AssignError::SectionMismatch)
    );
    assert_eq!(day_of(&data, 0), vec!["Solo S1 T1 A".to_string()]);
}

#[test]
fn assign_with_empty_names_marks_absent_or_teamless() {
    let mut data = roster(&[("A", "S"), ("B", "S")], &["S"], &["T1"]);
    open_day(&mut data);
    assert_eq!(data.assign_student(Day::from(0), st("A"), sec(""), team("T1")), Ok(()));
    assert_eq!(data.assign_student(Day::from(0), st("B"), sec("S"), team("")), Ok(()));
    assert_eq!(day_of(&data, 0), vec!["Absent A".to_string(), "Unassigned S B".to_string()]);
    assert_eq!(names(&data.absent_students(Day::from(0))), vec!["A".to_string()]);
    assert_eq!(names(&data.unassigned_students(Day::from(0))), vec!["A".to_string(), "B".to_string()]);
    assert_eq!(data.absent_students(Day::from(5)).len(), 0);
}

#[test]
fn moving_a_student_frees_their_old_slot() {
    let mut data = roster(&[("A", "S"), ("B", "S")], &["S"], &["T1", "T2"]);
    open_day(&mut data);
    data.assign_student(Day::from(0), st("A"), sec("S"), team("T1")).unwrap();
    data.assign_student(Day::from(0), st("B"), sec("S"), team("T1")).unwrap();
    data.assign_student(Day::from(0), st("B"), sec("S"), team("T2")).unwrap();
    assert_eq!(day_of(&data, 0), vec!["Solo S T1 A".to_string(), "Solo S T2 B".to_string()]);
}

#[test]
fn unassign_twice_is_unassign_once() {
    let mut data = roster(&[("A", "S"), ("B", "S")], &["S"], &["T1"]);
    open_day(&mut data);
    data.assign_student(Day::from(0), st("A"), sec("S"), team("T1")).unwrap();
    data.assign_student(Day::from(0), st("B"), sec("S"), team("T1")).unwrap();
    data.unassign_student(Day::from(0), st("A")).unwrap();
    let once = day_of(&data, 0);
    assert_eq!(once, vec!["Solo S T1 B".to_string()]);
    data.unassign_student(Day::from(0), st("A")).unwrap();
    assert_eq!(day_of(&data, 0), once);
}

#[test]
fn unpair_keeps_students_in_their_section() {
    let mut data = roster(&[("A", "S"), ("B", "S"), ("C", "S")], &["S"], &["T1"]);
    open_day(&mut data);
    data.assign_student(Day::from(0), st("A"), sec("S"), team("T1")).unwrap();
    data.assign_student(Day::from(0), st("B"), sec("S"), team("T1")).unwrap();
    data.assign_student(Day::from(0), st("C"), sec(""), team("")).unwrap();
    data.unpair_student(Day::from(0), st("C")).unwrap();
    assert!(day_of(&data, 0).contains(&"Absent C".to_string()));
    data.unpair_team(Day::from(0), team("T1")).unwrap();
    assert_eq!(
        day_of(&data, 0),
        vec!["Absent C".to_string(), "Unassigned S A".to_string(), "Unassigned S B".to_string()]
    );
}

#[test]
fn lists_are_in_name_order() {
    let data = roster(&[("Zed", "S2"), ("Amy", "S1"), ("Bob", "S2")], &["S2", "S1"], &["T2", "T1"]);
    assert_eq!(names(&data.list_students()), vec!["Amy".to_string(), "Bob".to_string(), "Zed".to_string()]);
    let secs: Vec<String> = data.list_sections().iter().map(|s| s.name.clone()).collect();
    assert_eq!(secs, vec!["S1".to_string(), "S2".to_string()]);
    let teams: Vec<String> = data.list_teams().iter().map(|t| t.name.clone()).collect();
    assert_eq!(teams, vec!["T1".to_string(), "T2".to_string()]);
    let by: Vec<(String, Vec<String>)> = data
        .list_students_by_section()
        .iter()
        .map(|(s, v)| (s.name.clone(), names(v)))
        .collect();
    assert_eq!(
        by,
        vec![
            ("S1".to_string(), vec!["Amy".to_string()]),
            ("S2".to_string(), vec!["Bob".to_string(), "Zed".to_string()])
        ]
    );
    let zooms: Vec<(String, String)> = data.zoom_sections().iter().map(|(s, z)| (s.name.clone(), z.id.clone())).collect();
    assert_eq!(zooms[0], ("S1".to_string(), "S1-zoom".to_string()));
    assert_eq!(data.get_zooms().len(), 2);
}

#[test]
fn new_student_replaces_default_section_and_delete_removes() {
    let mut data = roster(&[("A", "S1")], &["S1", "S2"], &[]);
    data.new_student(st("A"), sec("S2"));
    let entries: Vec<(String, String)> =
        data.student_sections().iter().map(|(s, c)| (s.name.clone(), c.name.clone())).collect();
    assert_eq!(entries, vec![("A".to_string(), "S2".to_string())]);
    data.delete_student(st("A"));
    assert!(data.list_students().is_empty());
}

#[test]
fn deleting_a_section_or_team_drops_its_records() {
    let mut data = roster(&[("A", "S1"), ("B", "S2"), ("C", "S2")], &["S1", "S2"], &["T1", "T2"]);
    open_day(&mut data);
    data.assign_student(Day::from(0), st("A"), sec("S1"), team("T1")).unwrap();
    data.assign_student(Day::from(0), st("B"), sec("S2"), team("T2")).unwrap();
    data.assign_student(Day::from(0), st("C"), sec(""), team("")).unwrap();
    data.delete_section(sec("S1"));
    assert_eq!(day_of(&data, 0), vec!["Absent C".to_string(), "Solo S2 T2 B".to_string()]);
    data.delete_team(team("T2"));
    assert_eq!(day_of(&data, 0), vec!["Absent C".to_string()]);
    assert_eq!(data.list_teams().len(), 1);
    assert_eq!(data.list_sections().len(), 1);
}

#[test]
fn renames_rewrite_every_record() {
    let mut data = roster(&[("A", "S"), ("B", "S")], &["S"], &["T1", "T2"]);
    open_day(&mut data);
    data.assign_student(Day::from(0), st("A"), sec("S"), team("T1")).unwrap();
    data.assign_student(Day::from(0), st("B"), sec("S"), team("T1")).unwrap();
    data.rename_student(st("A"), st("Ann"), sec("S"));
    assert_eq!(day_of(&data, 0), vec!["Pair S T1 Ann B".to_string()]);
    assert_eq!(names(&data.list_students()), vec!["Ann".to_string(), "B".to_string()]);
    // renaming onto a name in use changes nothing
    data.rename_student(st("Ann"), st("B"), sec("S"));
    assert_eq!(day_of(&data, 0), vec!["Pair S T1 Ann B".to_string()]);
    data.rename_team(team("T1"), team("Red"));
    assert_eq!(day_of(&data, 0), vec!["Pair S Red Ann B".to_string()]);
    // a listed name that no record uses may be taken
    data.rename_team(team("Red"), team("T2"));
    assert_eq!(day_of(&data, 0), vec!["Pair S T2 Ann B".to_string()]);
    // a name on a record may not
    data.new_team(team("T3"));
    data.rename_team(team("T3"), team("T2"));
    assert_eq!(data.list_teams().len(), 2);
    data.rename_section(sec("S"), sec("North"), Zoom::from("1 2-3".to_string()));
    assert_eq!(day_of(&data, 0), vec!["Pair North T2 Ann B".to_string()]);
    assert_eq!(data.zoom_sections()[0].1.url(), "123".to_string());
}

#[test]
fn days_are_named_and_locked() {
    let mut data = Data::new("course");
    data.add_day();
    data.add_day();
    data.name_day(1, "Monday".to_string());
    data.toggle_lock_day(Day::from(1));
    assert!(data.day_unlocked(Day::from(1)));
    let days = data.list_days();
    assert_eq!(days.len(), 2);
    assert_eq!(days[0].pretty(), "Day 0".to_string());
    assert_eq!(days[1].pretty(), "Monday".to_string());
    assert!(days[1].unlocked);
    assert!(!days[0].unlocked);
    data.toggle_lock_day(Day::from(1));
    assert!(!data.day_unlocked(Day::from(1)));
    let recs = data.day(Day::from(4));
    assert!(recs.is_empty());
    assert_eq!(data.list_days().len(), 5);
    assert_eq!(Day::from(12).pretty(), "Day 12".to_string());
    assert_eq!(Day::from(3).next().id, 4);
    assert_eq!(Day::from(3).previous().id, 2);
    assert_eq!(Day::from(0).previous().id, 0);
    assert_eq!(data.course_path(), "course".to_string());
}

#[test]
fn insert_record_checks_the_day() {
    let mut data = roster(&[("A", "S"), ("B", "S")], &["S"], &["T1"]);
    open_day(&mut data);
    assert!(data.insert_record(Day::from(0), Pairing::Solo { section: sec("S"), team: team("T1"), student: st("A") }));
    assert!(!data.insert_record(Day::from(0), Pairing::Solo { section: sec("S"), team: team("T1"), student: st("B") }));
    assert!(!data.insert_record(Day::from(0), Pairing::Absent(st("A"))));
    assert!(!data.insert_record(
        Day::from(0),
        Pairing::Pair { section: sec("S"), team: team("T9"), primary: st("B"), secondary: st("B") }
    ));
    assert!(data.insert_record(Day::from(0), Pairing::Absent(st("B"))));
    assert_eq!(day_of(&data, 0), vec!["Absent B".to_string(), "Solo S T1 A".to_string()]);
}

#[test]
fn team_options_tag_repeats_and_reusers() {
    let mut data = roster(&[("A", "S"), ("B", "S"), ("C", "S")], &["S"], &["T1"]);
    open_day(&mut data);
    data.assign_student(Day::from(0), st("A"), sec("S"), team("T1")).unwrap();
    data.assign_student(Day::from(0), st("B"), sec("S"), team("T1")).unwrap();
    open_day(&mut data);
    data.assign_student(Day::from(1), st("A"), sec("S"), team("T1")).unwrap();
    let opts = data.team_options(Day::from(1));
    assert_eq!(opts.len(), 1);
    assert_eq!(opts[0].0.name, "S".to_string());
    assert_eq!(opts[0].1.len(), 1);
    let t = &opts[0].1[0];
    assert_eq!(t.team.name, "T1".to_string());
    let primary: Vec<(String, Vec<String>)> =
        t.primary.possibilities.iter().map(|(s, tags)| (s.name.clone(), tags.clone())).collect();
    assert_eq!(
        primary,
        vec![
            ("A".to_string(), vec!["reuser".to_string()]),
            ("B".to_string(), vec!["reuser".to_string()]),
            ("C".to_string(), vec![])
        ]
    );
    assert_eq!(t.primary.tags, vec!["reuser".to_string()]);
    let secondary: Vec<(String, Vec<String>)> =
        t.secondary.possibilities.iter().map(|(s, tags)| (s.name.clone(), tags.clone())).collect();
    assert_eq!(
        secondary,
        vec![("B".to_string(), vec!["repeat".to_string(), "reuser".to_string()]), ("C".to_string(), vec![])]
    );
    assert!(t.secondary.tags.is_empty());
    assert_eq!(t.secondary.current_string(), "-".to_string());
    assert_eq!(t.primary.current_string(), "A".to_string());
}

#[test]
fn student_options_list_joinable_teams() {
    let mut data = roster(&[("A", "S1"), ("B", "S1"), ("C", "S2")], &["S1", "S2"], &["T1", "T2", "T3"]);
    open_day(&mut data);
    data.assign_student(Day::from(0), st("A"), sec("S1"), team("T1")).unwrap();
    data.assign_student(Day::from(0), st("B"), sec("S1"), team("T1")).unwrap();
    data.assign_student(Day::from(0), st("C"), sec("S2"), team("T2")).unwrap();
    open_day(&mut data);
    data.assign_student(Day::from(1), st("A"), sec("S1"), team("T1")).unwrap();
    data.assign_student(Day::from(1), st("B"), sec("S1"), team("T1")).unwrap();
    let opts = data.student_options(Day::from(1));
    assert_eq!(opts.len(), 2);
    let s1: Vec<String> = opts[0].1.iter().map(|o| o.student.name.clone()).collect();
    assert_eq!(s1, vec!["A".to_string(), "B".to_string()]);
    let a = &opts[0].1[0];
    let teams: Vec<String> = a.possible_teams.iter().map(|t| t.name.clone()).collect();
    assert_eq!(teams, vec!["T1".to_string(), "T2".to_string(), "T3".to_string()]);
    assert_eq!(a.previous_team.as_ref().map(|t| t.name.clone()), Some("T1".to_string()));
    assert!(a.is_repeating_team());
    assert_eq!(a.tags(), vec!["reuser".to_string()]);
    let c = &opts[1].1[0];
    let teams: Vec<String> = c.possible_teams.iter().map(|t| t.name.clone()).collect();
    assert_eq!(teams, vec!["T2".to_string(), "T3".to_string()]);
    assert!(c.current_pairing.is_none());
    assert!(c.is_current_section(&sec("S2")));
    assert!(!c.is_current_team(&team("T2")));
    assert!(c.tags().is_empty());
}

#[test]
fn choices_normalize_takes_tags_of_current() {
    let c = Choices {
        current: Some(st("B")),
        possibilities: vec![(st("A"), vec!["x".to_string()]), (st("B"), vec!["y".to_string(), "z".to_string()])],
        choice_name: "primary".to_string(),
        tags: vec!["w".to_string()],
    };
    assert!(c.is_current(st("B")));
    assert!(!c.is_current(st("A")));
    let n = c.normalize();
    assert_eq!(n.tags, vec!["w".to_string(), "y".to_string(), "z".to_string()]);
    let none: Choices<Student> =
        Choices { current: None, possibilities: vec![], choice_name: "secondary".to_string(), tags: vec![] };
    assert_eq!(none.current_string(), "-".to_string());
    assert!(none.normalize().tags.is_empty());
}

#[test]
fn pairing_accessors() {
    let p = Pairing::Pair { section: sec("S"), team: team("T"), primary: st("A"), secondary: st("B") };
    assert!(p.full_pair());
    assert_eq!(names(&p.present_students()), vec!["B".to_string(), "A".to_string()]);
    assert_eq!(names(&p.allocated_students()), vec!["A".to_string(), "B".to_string()]);
    assert_eq!(names(&p.assigned_students()), vec!["B".to_string(), "A".to_string()]);
    assert_eq!(p.section().map(|s| s.name), Some("S".to_string()));
    assert_eq!(p.team().map(|t| t.name), Some("T".to_string()));
    let a = Pairing::Absent(st("C"));
    assert!(!a.full_pair());
    assert!(a.present_students().is_empty());
    assert_eq!(names(&a.allocated_students()), vec!["C".to_string()]);
    assert!(a.section().is_none());
    assert!(a.has(&st("C")));
    let u = Pairing::Unassigned { section: sec("S"), student: st("D") };
    assert!(u.assigned_students().is_empty());
    assert_eq!(names(&u.present_students()), vec!["D".to_string()]);
    assert!(u.team().is_none());
}

#[test]
fn locked_day_refuses_changes() {
    let mut data = roster(&[("A", "S"), ("B", "S")], &["S"], &["T1"]);
    data.add_day();
    assert_eq!(data.assign_student(Day::from(0), st("A"), sec(""), team("")), Err(AssignError::DayLocked));
    assert_eq!(data.shuffle(Day::from(0), sec("S")), Err(DayLocked));
    assert_eq!(data.unassign_student(Day::from(0), st("A")), Err(DayLocked));
    assert_eq!(data.grand_shuffle(Day::from(0)), Err(DayLocked));
    assert!(day_of(&data, 0).is_empty());
    data.toggle_lock_day(Day::from(0));
    assert_eq!(data.assign_student(Day::from(0), st("A"), sec(""), team("")), Ok(()));
    assert_eq!(day_of(&data, 0), vec!["Absent A".to_string()]);
}

#[test]
fn shuffle_follows_the_dealing_rule() {
    let mut data = five();
    let order = vec![st("E"), st("D"), st("C"), st("B"), st("A")];
    data.shuffle_in_order(Day::from(0), sec("S"), order).unwrap();
    assert_eq!(day_of(&data, 0), vec!["Pair S T1 A E".to_string(), "Pair S T2 B D".to_string()]);
    assert_eq!(names(&data.unassigned_students(Day::from(0))), vec!["C".to_string()]);
}

#[test]
fn rename_team_onto_an_unused_listed_name() {
    let mut data = roster(&[("A", "S")], &["S"], &["T1", "T2"]);
    open_day(&mut data);
    data.assign_student(Day::from(0), st("A"), sec("S"), team("T1")).unwrap();
    data.rename_team(team("T1"), team("T2"));
    assert_eq!(day_of(&data, 0), vec!["Solo S T2 A".to_string()]);
    let teams: Vec<String> = data.list_teams().iter().map(|t| t.name.clone()).collect();
    assert_eq!(teams, vec!["T2".to_string()]);
}

#[test]
fn sections_get_every_team_record() {
    let mut data = roster(&[("A", "S1"), ("B", "S1"), ("C", "S2")], &["S1", "S2"], &["T1"]);
    open_day(&mut data);
    assert!(data.insert_record(Day::from(0), Pairing::Solo { section: sec("Old"), team: team("X"), student: st("A") }));
    assert!(data.insert_record(Day::from(0), Pairing::Solo { section: sec("Old"), team: team("Y"), student: st("B") }));
    assert!(data.insert_record(Day::from(0), Pairing::Absent(st("C"))));
    data.shuffle_sections(Day::from(0)).unwrap();
    let recs = day_of(&data, 0);
    assert!(recs.contains(&"Absent C".to_string()));
    let s1 = recs.iter().filter(|r| r.starts_with("Solo S1 ")).count();
    let s2 = recs.iter().filter(|r| r.starts_with("Solo S2 ")).count();
    assert_eq!((s1, s2), (1, 1));
    let opts = data.team_options(Day::from(0));
    assert_eq!(opts.iter().map(|(_, v)| v.len()).sum::<usize>(), 2);
}

#[test]
fn shuffle_sections_without_sections_or_teams() {
    let mut data = roster(&[("A", "S")], &[], &[]);
    open_day(&mut data);
    assert!(data.insert_record(Day::from(0), Pairing::Absent(st("A"))));
    data.shuffle_sections(Day::from(0)).unwrap();
    assert_eq!(day_of(&data, 0), vec!["Absent A".to_string()]);
}

#[test]
fn pick_partner_takes_out_every_copy() {
    let mut data = roster(&[("A", "S"), ("B", "S")], &["S"], &["T1"]);
    open_day(&mut data);
    let mut pool = vec![st("B"), st("C"), st("B")];
    let got = data.pick_partner_from(&Day::from(0), &st("A"), &mut pool);
    assert_eq!(got.map(|s| s.name), Some("B".to_string()));
    assert_eq!(names(&pool), vec!["C".to_string()]);
}

#[test]
fn unnamed_days_show_their_lock() {
    let mut data = Data::new("course");
    open_day(&mut data);
    assert!(data.list_days()[0].unlocked);
    assert!(data.improve_day(Day::from(0)).unlocked);
}

#[test]
fn grand_shuffle_with_continuity_in_given_order() {
    let mut data = roster(&[("A", "S1"), ("B", "S1"), ("C", "S2")], &["S1", "S2"], &["T1", "T2"]);
    open_day(&mut data);
    data.shuffle_in_order(Day::from(0), sec("S1"), vec![st("B"), st("A")]).unwrap();
    open_day(&mut data);
    let last = data.records(Day::from(0));
    data.grand_shuffle_with_continuity_in_order(Day::from(1), vec![st("A"), st("B"), st("C")], last).unwrap();
    let recs = day_of(&data, 1);
    assert_eq!(recs.len(), 2);
    assert!(recs.iter().any(|r| r.contains(" T1 B ")));
}

#[test]
fn pick_partner_fallback_takes_one_entry() {
    let mut data = roster(&[("A", "S"), ("B", "S")], &["S"], &["T1"]);
    open_day(&mut data);
    open_day(&mut data);
    data.assign_student(Day::from(0), st("A"), sec("S"), team("T1")).unwrap();
    data.assign_student(Day::from(0), st("B"), sec("S"), team("T1")).unwrap();
    let mut pool = vec![st("B"), st("B")];
    let got = data.pick_partner_from(&Day::from(1), &st("A"), &mut pool);
    assert_eq!(got.map(|s| s.name), Some("B".to_string()));
    assert_eq!(names(&pool), vec!["B".to_string()]);
}

#[test]
fn grand_continuity_ignores_records_off_the_roster() {
    let mut data = roster(&[("M", "S1"), ("N", "S1")], &["S1", "S2"], &["T1", "T2"]);
    open_day(&mut data);
    data.assign_student(Day::from(0), st("M"), sec("S1"), team("T1")).unwrap();
    open_day(&mut data);
    // a record of a student who is not on the roster, on yesterday's team
    assert!(data.insert_record(Day::from(1), Pairing::Solo { section: sec("S2"), team: team("T1"), student: st("Z") }));
    data.grand_shuffle_with_continuity(Day::from(1)).unwrap();
    let recs = data.records(Day::from(1));
    let on_t1: Vec<String> = recs.iter().filter(|p| p.on_team(&team("T1"))).map(describe).collect();
    assert_eq!(on_t1.len(), 1);
    assert!(on_t1[0].contains(" M"));
    assert!(!recs.iter().any(|p| p.has(&st("Z"))));
}

#[test]
fn student_options_keep_name_order_within_a_section() {
    let mut data = roster(&[("A", "S1"), ("B", "S1"), ("C", "S1")], &["S1", "S2"], &["T1"]);
    open_day(&mut data);
    data.assign_student(Day::from(0), st("A"), sec("S2"), team("")).unwrap();
    let opts = data.student_options(Day::from(0));
    let s1: Vec<String> = opts[0].1.iter().map(|o| o.student.name.clone()).collect();
    assert_eq!(s1, vec!["B".to_string(), "C".to_string(), "A".to_string()]);
    assert!(opts[0].1.iter().all(|o| o.day.id == 0));
}
