use scriptrunner::expr::eval_expr;
use scriptrunner::info_objects::InfoSubscriber;
use scriptrunner::interp::interpolate;
use scriptrunner::store::StateStore;
use scriptrunner::values::SystemStateVar;

fn store_of(entries: Vec<(&str, SystemStateVar)>) -> StateStore {
    let mut st = StateStore::new();
    for (k, v) in entries {
        st.set(&String::from(k), v);
    }
    st
}

fn eval_cond(cond: &str, st: &StateStore, changed: Vec<&str>) -> Result<bool, String> {
    let sub = InfoSubscriber::new_refcell("true", cond).expect("condition should parse");
    let changed: Vec<String> = changed.into_iter().map(String::from).collect();
    eval_expr(&sub.condition, st, &changed)
}

#[test]
fn condition_int_and_string_true() {
    let st = store_of(vec![
        ("a", SystemStateVar::Int(7)),
        ("b", SystemStateVar::Str(String::from("x"))),
    ]);
    assert_eq!(eval_cond("a > 5 && b == \"x\"", &st, vec![]), Ok(true));
}

#[test]
fn condition_int_and_string_false_after_change() {
    let st = store_of(vec![
        ("a", SystemStateVar::Int(3)),
        ("b", SystemStateVar::Str(String::from("x"))),
    ]);
    assert_eq!(eval_cond("a > 5 && b == \"x\"", &st, vec![]), Ok(false));
}

#[test]
fn condition_operators() {
    let st = store_of(vec![("n", SystemStateVar::Int(-2)), ("f", SystemStateVar::Bool(false))]);
    assert_eq!(eval_cond("n >= -3", &st, vec![]), Ok(true));
    assert_eq!(eval_cond("n < -2", &st, vec![]), Ok(false));
    assert_eq!(eval_cond("n <= -2", &st, vec![]), Ok(true));
    assert_eq!(eval_cond("n != 0", &st, vec![]), Ok(true));
    assert_eq!(eval_cond("f == false", &st, vec![]), Ok(true));
    assert_eq!(eval_cond("!(f == true)", &st, vec![]), Ok(true));
}

#[test]
fn condition_cross_variant_compares_false() {
    let st = store_of(vec![("a", SystemStateVar::Int(1))]);
    assert_eq!(eval_cond("a == \"x\"", &st, vec![]), Ok(false));
    // a mismatched variant makes every comparison false, != included
    assert_eq!(eval_cond("a != \"x\"", &st, vec![]), Ok(false));
    assert_eq!(eval_cond("a < \"x\"", &st, vec![]), Ok(false));
}

#[test]
fn condition_string_ordering() {
    let st = store_of(vec![("s", SystemStateVar::Str(String::from("abc")))]);
    assert_eq!(eval_cond("s < \"abd\"", &st, vec![]), Ok(true));
    assert_eq!(eval_cond("s < \"abc\"", &st, vec![]), Ok(false));
    assert_eq!(eval_cond("s <= \"abc\"", &st, vec![]), Ok(true));
    assert_eq!(eval_cond("s < \"ab\"", &st, vec![]), Ok(false));
    assert_eq!(eval_cond("s < \"abca\"", &st, vec![]), Ok(true));
}

#[test]
fn condition_change_marker() {
    let st = store_of(vec![("a", SystemStateVar::Int(1))]);
    assert_eq!(eval_cond("$:a", &st, vec!["a"]), Ok(true));
    assert_eq!(eval_cond("$:a", &st, vec![]), Ok(false));
    assert_eq!(eval_cond("$:a || a == 2", &st, vec![]), Ok(false));
    assert_eq!(eval_cond("$:a || a == 1", &st, vec![]), Ok(true));
}

#[test]
fn condition_unknown_variable_errors() {
    let st = store_of(vec![("a", SystemStateVar::Int(1))]);
    assert!(eval_cond("zzz == 1", &st, vec![]).is_err());
}

#[test]
fn condition_syntax_errors() {
    assert!(InfoSubscriber::new_refcell("cmd", "a ==").is_err());
    assert!(InfoSubscriber::new_refcell("cmd", "a & b").is_err());
    assert!(InfoSubscriber::new_refcell("cmd", "(a == 1").is_err());
    assert!(InfoSubscriber::new_refcell("cmd", "a == \"unterminated").is_err());
    assert!(InfoSubscriber::new_refcell("cmd", "$: == 1").is_err());
    // integer literals are limited to 18 digits
    assert!(InfoSubscriber::new_refcell("cmd", "a == 1000000000000000000").is_err());
    assert!(InfoSubscriber::new_refcell("cmd", "a == 999999999999999999").is_ok());
}

#[test]
fn from_config_line_splits_and_trims() {
    let sub = InfoSubscriber::from_config_line(&String::from(
        "  lid_open == false  =>  notify-lock  ",
    ))
    .expect("line should parse");
    assert_eq!(sub.command, String::from("notify-lock"));
    assert_eq!(sub.dependencies, String::from("lid_open == false"));
    let vars = sub.get_dependent_vars();
    assert_eq!(vars, vec![String::from("lid_open")]);
}

#[test]
fn from_config_line_wrong_separator_count() {
    assert!(InfoSubscriber::from_config_line(&String::from("a == 1")).is_err());
    assert!(InfoSubscriber::from_config_line(&String::from("a == 1 => x => y")).is_err());
}

#[test]
fn dependent_vars_exclude_literals() {
    let sub = InfoSubscriber::new_refcell("cmd", "lid_open == false && $:num_up").unwrap();
    let mut vars = sub.get_dependent_vars();
    vars.sort();
    assert_eq!(vars, vec![String::from("lid_open"), String::from("num_up")]);
}

#[test]
fn interpolation_bool() {
    let st = store_of(vec![("lid_open", SystemStateVar::Bool(true))]);
    assert_eq!(
        interpolate(&String::from("echo $:lid_open"), &st),
        Ok(String::from("echo true"))
    );
}

#[test]
fn interpolation_int_and_string() {
    let st = store_of(vec![
        ("n", SystemStateVar::Int(-42)),
        ("z", SystemStateVar::Int(0)),
        ("who", SystemStateVar::Str(String::from("world"))),
    ]);
    assert_eq!(
        interpolate(&String::from("hello $:who: $:n/$:z"), &st),
        Ok(String::from("hello world: -42/0"))
    );
}

#[test]
fn interpolation_extreme_integers() {
    let st = store_of(vec![
        ("lo", SystemStateVar::Int(i64::MIN)),
        ("hi", SystemStateVar::Int(i64::MAX)),
    ]);
    assert_eq!(
        interpolate(&String::from("$:lo $:hi"), &st),
        Ok(String::from("-9223372036854775808 9223372036854775807"))
    );
}

#[test]
fn interpolation_missing_variable() {
    let st = store_of(vec![("a", SystemStateVar::Int(1))]);
    let r = interpolate(&String::from("echo $:nope"), &st);
    assert!(r.is_err());
}

#[test]
fn interpolation_leaves_bare_dollars() {
    let st = store_of(vec![("a", SystemStateVar::Int(1))]);
    assert_eq!(
        interpolate(&String::from("cost $5, $: and $:a"), &st),
        Ok(String::from("cost $5, $: and 1"))
    );
}

#[test]
fn join_path_inserts_separator() {
    assert_eq!(scriptrunner::common::join_path("a", "b"), String::from("a/b"));
}

#[test]
fn value_kind_labels() {
    assert_eq!(SystemStateVar::Str(String::new()).kind_label(), "String ");
    assert_eq!(SystemStateVar::Int(0).kind_label(), "Integer");
    assert_eq!(SystemStateVar::Bool(true).kind_label(), "Boolean");
}
