use file_scrambler::menu::{choose_target, parse_mode_choice, parse_path_choice, PathChoice};
use file_scrambler::schedule::{RepeatPolicy, Schedule, Scheduler};

#[test]
fn counted_schedule_runs_exactly_three_passes() {
    // Repeat-count 3 with a zero interval: exactly three passes complete
    // and the loop then stops asking for more.
    let schedule = Schedule { interval_seconds: 0, repeat: RepeatPolicy::Count(3) };
    let mut scheduler = Scheduler::new(schedule);
    let mut passes: u64 = 0;
    loop {
        passes += 1;
        scheduler.record_pass();
        if !scheduler.wants_another() {
            break;
        }
    }
    assert_eq!(passes, 3);
}

#[test]
fn one_shot_schedule_runs_a_single_pass() {
    let schedule = Schedule { interval_seconds: 1, repeat: RepeatPolicy::Once };
    let mut scheduler = Scheduler::new(schedule);
    scheduler.record_pass();
    assert!(!scheduler.wants_another());
}

#[test]
fn unbounded_schedule_always_wants_another() {
    let schedule = Schedule { interval_seconds: 30, repeat: RepeatPolicy::Forever };
    let mut scheduler = Scheduler::new(schedule);
    for _ in 0..5 {
        scheduler.record_pass();
        assert!(scheduler.wants_another());
    }
}

#[test]
fn menu_choices_map_to_schedules() {
    assert_eq!(
        parse_mode_choice(&b"1".to_vec()),
        Some(Schedule { interval_seconds: 1, repeat: RepeatPolicy::Once })
    );
    assert_eq!(
        parse_mode_choice(&b"2".to_vec()),
        Some(Schedule { interval_seconds: 30, repeat: RepeatPolicy::Forever })
    );
    assert_eq!(
        parse_mode_choice(&b"3".to_vec()),
        Some(Schedule { interval_seconds: 604_800, repeat: RepeatPolicy::Forever })
    );
    assert_eq!(parse_mode_choice(&b"4".to_vec()), None);
    assert_eq!(parse_mode_choice(&b"12".to_vec()), None);
}

#[test]
fn invalid_path_choice_is_rejected() {
    // An answer of "9" at the path-configuration prompt selects nothing,
    // so the session performs no filesystem work.
    assert_eq!(parse_path_choice(&b"9".to_vec()), None);
    assert_eq!(parse_path_choice(&b"".to_vec()), None);
    assert_eq!(parse_path_choice(&b"one".to_vec()), None);
}

#[test]
fn valid_path_choices_are_recognised() {
    assert_eq!(parse_path_choice(&b"1".to_vec()), Some(PathChoice::Primary));
    assert_eq!(parse_path_choice(&b"2".to_vec()), Some(PathChoice::Alternate));
    assert_eq!(parse_path_choice(&b"3".to_vec()), Some(PathChoice::Custom));
}

#[test]
fn blank_target_entry_falls_back_to_main() {
    let main_dir = b"/data/main".to_vec();
    assert_eq!(choose_target(&main_dir, &b"".to_vec()), main_dir);
    assert_eq!(choose_target(&main_dir, &b"/data/other".to_vec()), b"/data/other".to_vec());
}
