use module_rosters::identity::{simplified_affiliation, Identity};
use module_rosters::ordering::stable_order;
use module_rosters::registrations::{Module, RawRecord, Registrations};
use module_rosters::schedule::{parse_start, small_number, start_from_groups, ModuleStart, StartTime};
use module_rosters::text::split_at_separator;

const HOUR: i128 = 3_600_000_000_000;

fn identity(name: &str, email: &str, affiliation: &str) -> Identity {
    Identity {
        name: name.to_string(),
        email_address: email.to_string(),
        affiliation: affiliation.to_string(),
    }
}

fn row(name: &str, choices: &str, registration_time: i128) -> RawRecord {
    RawRecord {
        identity: identity(name, &format!("{}@example.org", name.to_lowercase()), ""),
        choice_of_modules: choices.to_string(),
        registration_time,
    }
}

fn at(year: i32, month: u8, day: u8, hour: u8, minute: u8) -> ModuleStart {
    ModuleStart::Scheduled(StartTime { year, month, day, hour, minute })
}

fn example_rows() -> Vec<RawRecord> {
    vec![
        row("Alice", "Intro (10/01, 9h00)", 9 * HOUR),
        row("Bob", "Intro (10/01, 9h00);Lab (11/01, 14h00)", 8 * HOUR),
        row("Carol", "Lab (11/01, 14h00)", 10 * HOUR),
    ]
}

#[test]
fn example_two_modules_rosters_by_registration_time() {
    let regs = Registrations::new(&example_rows(), 2024);
    assert_eq!(regs.modules.len(), 2);
    assert_eq!(regs.modules[0].name, "Intro (10/01, 9h00)");
    assert_eq!(regs.modules[1].name, "Lab (11/01, 14h00)");
    assert_eq!(regs.modules[0].start_time, at(2024, 1, 10, 9, 0));
    assert_eq!(regs.modules[1].start_time, at(2024, 1, 11, 14, 0));
    let persons = regs.persons_by_registration_time();
    assert_eq!(persons, vec![1, 0, 2]);
    let rosters = regs.rosters(&persons);
    assert_eq!(rosters, vec![vec![1, 0], vec![1, 2]]);
    assert_eq!(regs.modules_by_start_time(), vec![0, 1]);
}

#[test]
fn example_report_text() {
    let regs = Registrations::new(&example_rows(), 2024);
    let expected = "# Registrations to each module\n\
                    \n## Intro (10/01, 9h00)\n\n\
                    1. `Bob <bob@example.org>`\n\
                    2. `Alice <alice@example.org>`\n\
                    \n## Lab (11/01, 14h00)\n\n\
                    1. `Bob <bob@example.org>`\n\
                    2. `Carol <carol@example.org>`\n";
    assert_eq!(regs.roster_report(), expected);
}

#[test]
fn untimed_module_is_placed_last() {
    let rows = vec![
        row("Dan", "Workshop, TBD;Intro (10/01, 9h00)", HOUR),
        row("Eve", "Lab (11/01, 14:00)", 2 * HOUR),
    ];
    let regs = Registrations::new(&rows, 2024);
    assert_eq!(regs.modules[0].start_time, ModuleStart::Unscheduled);
    assert_eq!(regs.modules_by_start_time(), vec![1, 2, 0]);
    let report = regs.roster_report();
    assert!(report.ends_with("\n## Workshop, TBD\n\n1. `Dan <dan@example.org>`\n"));
}

#[test]
fn untimed_modules_keep_first_seen_order() {
    let rows = vec![row("Fay", "Zeta;Alpha;Intro (10/01, 9h00);Mid", HOUR)];
    let regs = Registrations::new(&rows, 2024);
    assert_eq!(regs.modules_by_start_time(), vec![2, 0, 1, 3]);
}

#[test]
fn titles_equal_after_trimming_share_a_module() {
    let rows = vec![
        row("Gus", "  Intro (10/01, 9h00) ; Lab (11/01, 14h00)", HOUR),
        row("Hal", "Intro (10/01, 9h00)\t", 2 * HOUR),
    ];
    let regs = Registrations::new(&rows, 2024);
    assert_eq!(regs.modules.len(), 2);
    assert_eq!(regs.modules[0].name, "Intro (10/01, 9h00)");
    assert_eq!(regs.modules[1].name, "Lab (11/01, 14h00)");
    assert_eq!(regs.persons[0].choice_of_modules, vec![0, 1]);
    assert_eq!(regs.persons[1].choice_of_modules, vec![0]);
    let rosters = regs.rosters(&regs.persons_by_registration_time());
    assert_eq!(rosters, vec![vec![0, 1], vec![0]]);
}

#[test]
fn equal_registration_times_keep_input_order() {
    let rows = vec![
        row("Ida", "Intro (10/01, 9h00)", 5 * HOUR),
        row("Jon", "Intro (10/01, 9h00)", 3 * HOUR),
        row("Kim", "Intro (10/01, 9h00)", 5 * HOUR),
        row("Lea", "Intro (10/01, 9h00)", 3 * HOUR),
    ];
    let regs = Registrations::new(&rows, 2024);
    let order = regs.persons_by_registration_time();
    assert_eq!(order, vec![1, 3, 0, 2]);
    assert_eq!(regs.rosters(&order), vec![vec![1, 3, 0, 2]]);
}

#[test]
fn report_is_the_same_on_two_runs() {
    let a = Registrations::new(&example_rows(), 2024).roster_report();
    let b = Registrations::new(&example_rows(), 2024).roster_report();
    assert_eq!(a, b);
}

#[test]
fn out_of_range_date_falls_back() {
    assert_eq!(parse_start("Bad (32/13, 25h99)", 2024), ModuleStart::Unscheduled);
    assert_eq!(parse_start("Bad (10/13, 9h00)", 2024), ModuleStart::Unscheduled);
    assert_eq!(parse_start("Bad (31/04, 9h00)", 2024), ModuleStart::Unscheduled);
    assert_eq!(parse_start("Bad (10/01, 24h00)", 2024), ModuleStart::Unscheduled);
    assert_eq!(parse_start("Bad (10/01, 9h60)", 2024), ModuleStart::Unscheduled);
    assert_eq!(parse_start("Bad (0/01, 9h00)", 2024), ModuleStart::Unscheduled);
}

#[test]
fn no_pattern_falls_back() {
    assert_eq!(parse_start("Workshop, TBD", 2024), ModuleStart::Unscheduled);
    assert_eq!(parse_start("", 2024), ModuleStart::Unscheduled);
    let module = Module::new("Workshop, TBD".to_string(), 2024);
    assert_eq!(module.start_time, ModuleStart::Unscheduled);
    assert_eq!(module.name, "Workshop, TBD");
}

#[test]
fn start_time_is_parsed_from_title() {
    assert_eq!(parse_start("Intro (10/01, 9h00)", 2024), at(2024, 1, 10, 9, 0));
    assert_eq!(parse_start("Lab (11/01, 14:05)", 2024), at(2024, 1, 11, 14, 5));
    assert_eq!(parse_start("Two days (15/01 + mon. 16/01, 13h30)", 2024), at(2024, 1, 15, 13, 30));
    assert_eq!(parse_start("Intro (10/01, 9h00)", 2025), at(2025, 1, 10, 9, 0));
}

#[test]
fn leap_day_depends_on_year() {
    assert_eq!(parse_start("Leap (29/02, 10h00)", 2024), at(2024, 2, 29, 10, 0));
    assert_eq!(parse_start("Leap (29/02, 10h00)", 2023), ModuleStart::Unscheduled);
}

#[test]
fn start_from_captured_groups() {
    let groups = |d: &str, m: &str, h: &str, mi: &str| {
        Some(vec![d.to_string(), m.to_string(), h.to_string(), mi.to_string()])
    };
    assert_eq!(start_from_groups(groups("10", "01", "9", "00"), 2024), at(2024, 1, 10, 9, 0));
    assert_eq!(start_from_groups(groups("31", "12", "23", "59"), 2024), at(2024, 12, 31, 23, 59));
    assert_eq!(start_from_groups(groups("32", "13", "25", "99"), 2024), ModuleStart::Unscheduled);
    assert_eq!(start_from_groups(groups("1", "x", "9", "00"), 2024), ModuleStart::Unscheduled);
    assert_eq!(start_from_groups(Some(vec!["1".to_string()]), 2024), ModuleStart::Unscheduled);
    assert_eq!(start_from_groups(None, 2024), ModuleStart::Unscheduled);
}

#[test]
fn start_keys_order_chronologically() {
    let a = at(2024, 1, 10, 9, 0).sort_key();
    let b = at(2024, 1, 10, 9, 1).sort_key();
    let c = at(2024, 2, 1, 0, 0).sort_key();
    let d = ModuleStart::Unscheduled.sort_key();
    assert!(a < b && b < c && c < d);
    assert_eq!(a, (((2024 * 13 + 1) * 32 + 10) * 24 + 9) * 60);
    assert_eq!(d, i64::MAX);
}

#[test]
fn small_numbers() {
    assert_eq!(small_number("7"), Some(7));
    assert_eq!(small_number("09"), Some(9));
    assert_eq!(small_number("99"), Some(99));
    assert_eq!(small_number("100"), None);
    assert_eq!(small_number(""), None);
    assert_eq!(small_number("a1"), None);
}

#[test]
fn split_keeps_empty_pieces() {
    assert_eq!(split_at_separator("a;b", ';'), vec!["a", "b"]);
    assert_eq!(split_at_separator("", ';'), vec![""]);
    assert_eq!(split_at_separator(";x;", ';'), vec!["", "x", ""]);
    assert_eq!(split_at_separator("Irène;é", ';'), vec!["Irène", "é"]);
}

#[test]
fn stable_order_of_keys() {
    assert_eq!(stable_order(&vec![3, 1, 2, 1]), vec![1, 3, 2, 0]);
    assert_eq!(stable_order(&vec![]), Vec::<usize>::new());
    assert_eq!(stable_order(&vec![-5, -5, -5]), vec![0, 1, 2]);
}

#[test]
fn identity_text_without_affiliation() {
    let id = identity("Ann Lee", "ann@example.org", "");
    assert_eq!(id.to_text(), "`Ann Lee <ann@example.org>`");
}

#[test]
fn identity_text_with_affiliation() {
    let id = identity("Ann Lee", "ann@example.org", "CERN");
    assert_eq!(id.to_text(), "`Ann Lee <ann@example.org>` from CERN");
}

#[test]
fn identity_text_with_known_alias() {
    let id = identity("Ann Lee", "ann@example.org", "IJCLAB - IN2P3 - CNRS");
    assert_eq!(id.to_text(), "`Ann Lee <ann@example.org>` from IJCLab");
    let long = "Laboratoire de Physique des 2 infinis Irène Joliot-Curie, Université Paris-Saclay, CNRS-IN2P3. Université Paris-Saclay, CNRS-IN2P3";
    assert_eq!(simplified_affiliation(&long.to_string()), "IJCLab");
    assert_eq!(simplified_affiliation(&"IJCLab - IN2P3 - CNRS".to_string()), "IJCLab");
    assert_eq!(simplified_affiliation(&"ijclab".to_string()), "ijclab");
}

#[test]
fn repeated_choice_is_listed_each_time() {
    let rows = vec![row("Max", "Intro (10/01, 9h00);Intro (10/01, 9h00)", HOUR)];
    let regs = Registrations::new(&rows, 2024);
    assert_eq!(regs.modules.len(), 1);
    assert_eq!(regs.persons[0].choice_of_modules, vec![0, 0]);
    assert_eq!(regs.rosters(&regs.persons_by_registration_time()), vec![vec![0, 0]]);
}

#[test]
fn no_rows_give_only_the_heading() {
    let regs = Registrations::new(&Vec::new(), 2024);
    assert_eq!(regs.roster_report(), "# Registrations to each module\n");
}

#[test]
fn roster_numbers_go_past_nine() {
    let rows: Vec<RawRecord> = (0..11).map(|i| row(&format!("P{i}"), "M", i as i128)).collect();
    let report = Registrations::new(&rows, 2024).roster_report();
    assert!(report.contains("\n10. `P9 <p9@example.org>`\n11. `P10 <p10@example.org>`\n"));
}
