use profile_timer::timer::{gen_map, task_actions, DiffFlag, ProfileItem, TaskAction, Timer};

fn profile(uid: &str, interval: Option<u64>, updated: Option<u64>) -> ProfileItem {
    ProfileItem { uid: uid.to_string(), update_interval: interval, updated }
}

fn flag_of(diff: &[(String, DiffFlag)], uid: &str) -> Option<DiffFlag> {
    diff.iter().find(|(u, _)| u == uid).map(|(_, f)| *f)
}

#[test]
fn first_refresh_adds_with_increasing_ids() {
    let mut timer = Timer::new();
    let profiles = vec![profile("A", Some(30), None), profile("B", Some(60), None)];
    let diff = timer.refresh(&profiles).unwrap();
    assert_eq!(diff.len(), 2);
    assert_eq!(flag_of(&diff, "A"), Some(DiffFlag::Add(1, 30)));
    assert_eq!(flag_of(&diff, "B"), Some(DiffFlag::Add(2, 60)));
    assert_eq!(timer.scheduled_count(), 2);
    assert_eq!(timer.task_of(&"A".to_string()), Some((1, 30)));
    assert_eq!(timer.task_of(&"B".to_string()), Some((2, 60)));
    assert_eq!(timer.next_task_id(), 3);
}

#[test]
fn removing_a_profile_deletes_only_its_job() {
    let mut timer = Timer::new();
    timer.refresh(&vec![profile("A", Some(30), None), profile("B", Some(60), None)]).unwrap();
    let diff = timer.refresh(&vec![profile("B", Some(60), None)]).unwrap();
    assert_eq!(diff, vec![("A".to_string(), DiffFlag::Del(1))]);
    assert_eq!(timer.scheduled_count(), 1);
    assert_eq!(timer.task_of(&"A".to_string()), None);
    assert_eq!(timer.task_of(&"B".to_string()), Some((2, 60)));
}

#[test]
fn changing_an_interval_keeps_the_task_id() {
    let mut timer = Timer::new();
    timer.refresh(&vec![profile("A", Some(30), None), profile("B", Some(60), None)]).unwrap();
    let diff = timer.refresh(&vec![profile("A", Some(30), None), profile("B", Some(45), None)]).unwrap();
    assert_eq!(diff, vec![("B".to_string(), DiffFlag::Mod(2, 45))]);
    assert_eq!(timer.task_of(&"B".to_string()), Some((2, 45)));
    assert_eq!(timer.next_task_id(), 3);
}

#[test]
fn refresh_without_change_is_empty() {
    let mut timer = Timer::new();
    let profiles = vec![profile("A", Some(30), None), profile("B", Some(60), None)];
    timer.refresh(&profiles).unwrap();
    assert!(timer.refresh(&profiles).unwrap().is_empty());
    assert!(timer.refresh(&profiles).unwrap().is_empty());
    assert_eq!(timer.next_task_id(), 3);
}

#[test]
fn ids_are_never_reused() {
    let mut timer = Timer::new();
    timer.refresh(&vec![profile("A", Some(30), None), profile("B", Some(60), None)]).unwrap();
    timer.refresh(&vec![profile("B", Some(60), None)]).unwrap();
    let diff = timer.refresh(&vec![profile("B", Some(60), None), profile("C", Some(10), None)]).unwrap();
    assert_eq!(diff, vec![("C".to_string(), DiffFlag::Add(3, 10))]);
    assert_eq!(timer.task_of(&"C".to_string()), Some((3, 10)));
}

#[test]
fn readding_a_removed_uid_gets_a_fresh_id() {
    let mut timer = Timer::new();
    timer.refresh(&vec![profile("A", Some(30), None)]).unwrap();
    timer.refresh(&vec![]).unwrap();
    let diff = timer.refresh(&vec![profile("A", Some(30), None)]).unwrap();
    assert_eq!(diff, vec![("A".to_string(), DiffFlag::Add(2, 30))]);
}

#[test]
fn zero_or_missing_interval_is_not_scheduled() {
    let mut timer = Timer::new();
    let diff = timer
        .refresh(&vec![profile("A", Some(0), None), profile("B", None, None), profile("C", Some(5), None)])
        .unwrap();
    assert_eq!(diff, vec![("C".to_string(), DiffFlag::Add(1, 5))]);
    let diff = timer.refresh(&vec![profile("C", Some(0), None)]).unwrap();
    assert_eq!(diff, vec![("C".to_string(), DiffFlag::Del(1))]);
    assert_eq!(timer.scheduled_count(), 0);
}

#[test]
fn empty_profile_list_on_empty_registry() {
    let mut timer = Timer::new();
    assert!(timer.refresh(&vec![]).unwrap().is_empty());
    assert_eq!(timer.scheduled_count(), 0);
    assert_eq!(timer.next_task_id(), 1);
}

#[test]
fn later_profile_with_same_uid_wins() {
    let map = gen_map(&vec![profile("A", Some(30), None), profile("B", Some(5), None), profile("A", Some(45), None)]);
    assert_eq!(map, vec![("A".to_string(), 45), ("B".to_string(), 5)]);
}

#[test]
fn task_actions_replace_on_modify() {
    let diff = vec![
        ("A".to_string(), DiffFlag::Del(1)),
        ("B".to_string(), DiffFlag::Mod(2, 45)),
        ("C".to_string(), DiffFlag::Add(3, 10)),
    ];
    assert_eq!(
        task_actions(&diff),
        vec![
            TaskAction::Remove(1),
            TaskAction::Remove(2),
            TaskAction::Register(2, 45, "B".to_string()),
            TaskAction::Register(3, 10, "C".to_string()),
        ]
    );
}

#[test]
fn overdue_profile_is_advanced_at_init() {
    let now: i64 = 1_700_000_000;
    let mut timer = Timer::new();
    let profiles = vec![
        profile("A", Some(30), Some((now - 40 * 60) as u64)),
        profile("B", Some(30), Some((now - 10 * 60) as u64)),
    ];
    let acts = timer.init_at(&profiles, now).unwrap();
    assert_eq!(
        acts,
        vec![
            TaskAction::Register(1, 30, "A".to_string()),
            TaskAction::Register(2, 30, "B".to_string()),
            TaskAction::Advance(1),
        ]
    );
    assert!(timer.initialized());
}

#[test]
fn exactly_one_interval_elapsed_is_overdue() {
    let now: i64 = 1_700_000_000;
    let mut timer = Timer::new();
    let profiles = vec![profile("A", Some(30), Some((now - 30 * 60) as u64)), profile("B", Some(30), None)];
    let acts = timer.init_at(&profiles, now).unwrap();
    assert_eq!(acts.last(), Some(&TaskAction::Advance(1)));
    assert_eq!(acts.len(), 3);
}

#[test]
fn second_init_does_nothing() {
    let now: i64 = 1_700_000_000;
    let mut timer = Timer::new();
    let profiles = vec![profile("A", Some(30), Some((now - 40 * 60) as u64))];
    assert_eq!(timer.init_at(&profiles, now).unwrap().len(), 2);
    let more = vec![profile("A", Some(30), Some(0)), profile("B", Some(15), Some(0))];
    assert!(timer.init_at(&more, now).unwrap().is_empty());
    assert_eq!(timer.scheduled_count(), 1);
    assert_eq!(timer.next_task_id(), 2);
    assert!(timer.init(&more).unwrap().is_empty());
}

#[test]
fn init_reads_the_clock() {
    let mut timer = Timer::new();
    let profiles = vec![profile("A", Some(1), Some(0)), profile("B", Some(1), Some(u64::MAX / 2))];
    let acts = timer.init(&profiles).unwrap();
    assert_eq!(
        acts,
        vec![
            TaskAction::Register(1, 1, "A".to_string()),
            TaskAction::Register(2, 1, "B".to_string()),
            TaskAction::Advance(1),
        ]
    );
}
