use scriptrunner::info_objects::{InfoPublisher, InfoSubscriber, NotifyOutcome};
use scriptrunner::store::StateStore;
use scriptrunner::values::SystemStateVar;

type Snapshot = Result<Vec<(String, SystemStateVar)>, String>;

fn snap(entries: Vec<(&str, SystemStateVar)>) -> Snapshot {
    Ok(entries.into_iter().map(|(k, v)| (String::from(k), v)).collect())
}

fn failed_snap(msg: &str) -> Snapshot {
    Err(String::from(msg))
}

#[test]
fn registration_rejects_unknown_key() {
    let mut engine = InfoPublisher::new();
    engine
        .add_provider("LidInfo", &snap(vec![("lid_open", SystemStateVar::Bool(true))]))
        .expect("provider registers");
    let rule = InfoSubscriber::new_refcell("cmd", "missing_key == 1").unwrap();
    let r = engine.add_subscriber(rule);
    assert!(r.is_err());
    assert_eq!(engine.rules.len(), 0);
    // a registered rule with a known key is accepted
    let ok_rule = InfoSubscriber::new_refcell("cmd", "lid_open == true").unwrap();
    assert!(engine.add_subscriber(ok_rule).is_ok());
    assert_eq!(engine.rules.len(), 1);
}

#[test]
fn provider_registration_failure_is_isolated() {
    let mut engine = InfoPublisher::new();
    assert!(engine.add_provider("Broken", &failed_snap("no file")).is_err());
    assert!(
        engine
            .add_provider("LidInfo", &snap(vec![("lid_open", SystemStateVar::Bool(true))]))
            .is_ok()
    );
    assert_eq!(engine.providers.len(), 1);
}

#[test]
fn end_to_end_dispatches_once_on_third_tick() {
    let mut engine = InfoPublisher::new();
    engine
        .add_provider("LidInfo", &snap(vec![("lid_open", SystemStateVar::Bool(true))]))
        .unwrap();
    engine
        .add_provider("NetInfo", &snap(vec![("num_up_interfaces", SystemStateVar::Int(2))]))
        .unwrap();
    let rule = InfoSubscriber::from_config_line(&String::from("lid_open == false => notify-lock"))
        .unwrap();
    engine.add_subscriber(rule).unwrap();

    let tick = |open: bool| -> Vec<Snapshot> {
        vec![
            snap(vec![("lid_open", SystemStateVar::Bool(open))]),
            snap(vec![("num_up_interfaces", SystemStateVar::Int(2))]),
        ]
    };

    // dry pass populates the store without notifying
    engine.collect(&tick(true));

    let (cmds1, errs1) = engine.run_tick(&tick(true), 0);
    assert!(cmds1.is_empty() && errs1.is_empty());
    let (cmds2, errs2) = engine.run_tick(&tick(true), 1);
    assert!(cmds2.is_empty() && errs2.is_empty());
    let (cmds3, errs3) = engine.run_tick(&tick(false), 2);
    assert_eq!(cmds3, vec![String::from("notify-lock")]);
    assert!(errs3.is_empty());
    // no further dispatch while the lid stays closed
    let (cmds4, _) = engine.run_tick(&tick(false), 3);
    assert!(cmds4.is_empty());
}

#[test]
fn dry_run_produces_empty_dirty_set() {
    let mut engine = InfoPublisher::new();
    engine
        .add_provider("LidInfo", &snap(vec![("lid_open", SystemStateVar::Bool(true))]))
        .unwrap();
    let rule = InfoSubscriber::new_refcell("cmd", "$:lid_open").unwrap();
    engine.add_subscriber(rule).unwrap();
    let snaps = vec![snap(vec![("lid_open", SystemStateVar::Bool(true))])];
    let (changed1, dirty1) = engine.collect(&snaps);
    // first observation counts as a change against the empty store
    assert_eq!(changed1, vec![String::from("lid_open")]);
    assert_eq!(dirty1.len(), 1);
    // the same snapshots again: nothing changed, nothing dirty
    let (changed2, dirty2) = engine.collect(&snaps);
    assert!(changed2.is_empty());
    assert!(dirty2.is_empty());
}

#[test]
fn unregistered_snapshot_keys_are_ignored() {
    let mut engine = InfoPublisher::new();
    engine
        .add_provider("LidInfo", &snap(vec![("lid_open", SystemStateVar::Bool(true))]))
        .unwrap();
    let (changed, dirty) = engine.collect(&vec![snap(vec![
        ("lid_open", SystemStateVar::Bool(true)),
        ("surprise_key", SystemStateVar::Int(9)),
    ])]);
    assert_eq!(changed, vec![String::from("lid_open")]);
    assert!(dirty.is_empty());
    let st = &engine.system_state_map;
    assert!(st.get(&String::from("surprise_key")).is_none());
}

#[test]
fn rule_dirty_once_for_two_changed_keys() {
    let mut engine = InfoPublisher::new();
    engine
        .add_provider(
            "Pair",
            &snap(vec![("a", SystemStateVar::Int(1)), ("b", SystemStateVar::Int(1))]),
        )
        .unwrap();
    let rule = InfoSubscriber::new_refcell("echo $:a $:b", "$:a || $:b").unwrap();
    engine.add_subscriber(rule).unwrap();
    engine.collect(&vec![snap(vec![
        ("a", SystemStateVar::Int(1)),
        ("b", SystemStateVar::Int(1)),
    ])]);
    let (cmds, errs) = engine.run_tick(
        &vec![snap(vec![("a", SystemStateVar::Int(2)), ("b", SystemStateVar::Int(3))])],
        0,
    );
    assert_eq!(cmds, vec![String::from("echo 2 3")]);
    assert!(errs.is_empty());
}

#[test]
fn steady_state_provider_failure_is_isolated() {
    let mut engine = InfoPublisher::new();
    engine
        .add_provider("A", &snap(vec![("ka", SystemStateVar::Int(1))]))
        .unwrap();
    engine
        .add_provider("B", &snap(vec![("kb", SystemStateVar::Int(1))]))
        .unwrap();
    let rule = InfoSubscriber::new_refcell("echo $:kb", "kb == 2").unwrap();
    engine.add_subscriber(rule).unwrap();
    engine.collect(&vec![
        snap(vec![("ka", SystemStateVar::Int(1))]),
        snap(vec![("kb", SystemStateVar::Int(1))]),
    ]);
    // provider A fails this tick; B's key still updates and notifies
    let (cmds, errs) = engine.run_tick(
        &vec![failed_snap("sensor gone"), snap(vec![("kb", SystemStateVar::Int(2))])],
        0,
    );
    assert_eq!(cmds, vec![String::from("echo 2")]);
    assert!(errs.is_empty());
}

#[test]
fn notify_is_idempotent_per_tick() {
    let mut rule = InfoSubscriber::new_refcell("echo hi", "x == 1").unwrap();
    let mut st = StateStore::new();
    st.set(&String::from("x"), SystemStateVar::Int(1));
    let changed: Vec<String> = vec![String::from("x")];
    let first = rule.get_notified(&st, &changed, 5);
    assert!(matches!(first, NotifyOutcome::Dispatch(ref c) if c == "echo hi"));
    let second = rule.get_notified(&st, &changed, 5);
    assert!(matches!(second, NotifyOutcome::Skipped));
    // the tick advancing makes it eligible again
    let third = rule.get_notified(&st, &changed, 6);
    assert!(matches!(third, NotifyOutcome::Dispatch(_)));
}

#[test]
fn failed_evaluation_marks_tick_and_continues() {
    let mut rule = InfoSubscriber::new_refcell("echo hi", "ghost_key == 1").unwrap();
    let st = StateStore::new();
    let changed: Vec<String> = vec![];
    let first = rule.get_notified(&st, &changed, 1);
    assert!(matches!(first, NotifyOutcome::Failed(_)));
    // not re-attempted until the tick advances
    let second = rule.get_notified(&st, &changed, 1);
    assert!(matches!(second, NotifyOutcome::Skipped));
}

#[test]
fn missing_template_variable_fails_dispatch() {
    let mut rule = InfoSubscriber::new_refcell("echo $:absent", "x == 1").unwrap();
    let mut st = StateStore::new();
    st.set(&String::from("x"), SystemStateVar::Int(1));
    let outcome = rule.get_notified(&st, &vec![], 0);
    assert!(matches!(outcome, NotifyOutcome::Failed(_)));
}

#[test]
fn tick_counter_wraps_to_zero() {
    assert_eq!(InfoPublisher::next_time_id(0), 1);
    assert_eq!(InfoPublisher::next_time_id(i32::MAX - 2), i32::MAX - 1);
    assert_eq!(InfoPublisher::next_time_id(i32::MAX - 1), 0);
}

#[test]
fn rule_notified_at_max_tick_is_eligible_at_zero() {
    let mut rule = InfoSubscriber::new_refcell("echo hi", "x == 1").unwrap();
    let mut st = StateStore::new();
    st.set(&String::from("x"), SystemStateVar::Int(1));
    rule.last_time_id = i32::MAX - 1;
    let outcome = rule.get_notified(&st, &vec![], 0);
    assert!(matches!(outcome, NotifyOutcome::Dispatch(_)));
}

#[test]
fn store_overwrites_in_place() {
    let mut st = StateStore::new();
    st.set(&String::from("k"), SystemStateVar::Int(1));
    st.set(&String::from("k"), SystemStateVar::Int(2));
    match st.get(&String::from("k")) {
        Some(SystemStateVar::Int(v)) => assert_eq!(*v, 2),
        other => panic!("unexpected entry: {:?}", other),
    }
    assert!(st.get(&String::from("missing")).is_none());
}

#[test]
fn make_subs_skips_lines_without_separator() {
    let config = "# comment\n\nlid_open == false => lock\nnoise line\n$:num_up => report $:num_up\n";
    let subs = scriptrunner::info_objects::utils::make_subs_from_config(config).unwrap();
    assert_eq!(subs.len(), 2);
    assert_eq!(subs[0].command, String::from("lock"));
    assert_eq!(subs[1].command, String::from("report $:num_up"));
}

#[test]
fn make_subs_empty_config_gives_no_rules() {
    let subs = scriptrunner::info_objects::utils::make_subs_from_config("").unwrap();
    assert!(subs.is_empty());
}

#[test]
fn shared_key_keeps_existing_subscriptions() {
    let mut engine = InfoPublisher::new();
    engine
        .add_provider("A", &snap(vec![("k", SystemStateVar::Int(1))]))
        .unwrap();
    // a second provider claiming the same key must not wipe its bucket
    engine
        .add_provider("B", &snap(vec![("k", SystemStateVar::Int(1))]))
        .unwrap();
    let rule = InfoSubscriber::new_refcell("echo $:k", "k == 2").unwrap();
    engine.add_subscriber(rule).unwrap();
    engine.collect(&vec![snap(vec![("k", SystemStateVar::Int(1))])]);
    let (cmds, _) = engine.run_tick(&vec![snap(vec![("k", SystemStateVar::Int(2))])], 0);
    assert_eq!(cmds, vec![String::from("echo 2")]);
}

#[test]
fn make_subs_rejects_malformed_rule_line() {
    let config = "good == 1 => ok\nbad ==> oops\n";
    assert!(scriptrunner::info_objects::utils::make_subs_from_config(config).is_err());
}
