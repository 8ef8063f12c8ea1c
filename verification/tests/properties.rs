use value_resolve::Value;
use value_resolve::attempt;
use value_resolve::filter_allowed;
use value_resolve::find_preferred;

#[test]
fn wildcard_allowed_passes_everything_through() {
    assert_eq!(
        attempt(
            &[240, 360],
            &[Value::Any],
            &[Value::Number(240), Value::Number(360)],
        ),
        vec![240, 360],
    );
    assert_eq!(
        filter_allowed(vec![120, 480, 1080], vec![Value::Number(480), Value::Any]),
        vec![120, 480, 1080],
    );
}

#[test]
fn wildcard_preferred_passes_everything_through() {
    assert_eq!(
        find_preferred(vec![120, 480, 1080], vec![Value::Any]),
        vec![120, 480, 1080],
    );
}

#[test]
fn filtering_introduces_no_value() {
    let available = [240, 360, 480, 720];
    let result = filter_allowed(
        available.to_vec(),
        vec![Value::Number(100), Value::Number(360), Value::Number(720)],
    );
    assert_eq!(result, vec![360, 720]);
    for v in result {
        assert!(available.contains(&v));
    }
}

#[test]
fn selection_prefers_first_value_at_or_above() {
    assert_eq!(attempt(&[240, 720], &[Value::Any], &[Value::Number(300)]), vec![720]);
    assert_eq!(attempt(&[240, 720], &[Value::Any], &[Value::Number(720)]), vec![720]);
    assert_eq!(attempt(&[240, 720], &[Value::Any], &[Value::Number(100)]), vec![240]);
}

#[test]
fn selection_falls_back_to_largest_value() {
    assert_eq!(attempt(&[240, 360, 720], &[Value::Any], &[Value::Number(9000)]), vec![720]);
}

#[test]
fn equal_inputs_give_equal_results() {
    let first = attempt(
        &[240, 360, 720],
        &[Value::Number(360), Value::Number(720)],
        &[Value::Number(360), Value::Number(1080)],
    );
    let second = attempt(
        &[240, 360, 720],
        &[Value::Number(360), Value::Number(720)],
        &[Value::Number(360), Value::Number(1080)],
    );
    assert_eq!(first, second);
}

#[test]
fn empty_available_yields_empty_result() {
    assert_eq!(
        attempt(&[], &[Value::Number(240)], &[Value::Number(240)]),
        Vec::<i32>::new(),
    );
    assert_eq!(attempt(&[], &[Value::Any], &[Value::Any]), Vec::<i32>::new(),);
}

#[test]
fn empty_allowed_yields_empty_result() {
    assert_eq!(attempt(&[240, 360], &[], &[Value::Number(240)]), Vec::<i32>::new(),);
}

#[test]
fn empty_preferred_yields_empty_result() {
    assert_eq!(attempt(&[240, 360], &[Value::Any], &[]), Vec::<i32>::new(),);
}

#[test]
fn adjacent_duplicate_selections_collapse() {
    assert_eq!(
        attempt(
            &[240],
            &[Value::Any],
            &[Value::Number(1080), Value::Number(1080)],
        ),
        vec![240],
    );
    assert_eq!(
        attempt(
            &[240, 720],
            &[Value::Any],
            &[Value::Number(500), Value::Number(600), Value::Number(700)],
        ),
        vec![720],
    );
}

#[test]
fn assume_number_returns_the_number() {
    assert_eq!(Value::Number(1).assume_number(), 1);
    assert_eq!(Value::Number(-5).assume_number(), -5);
}

#[test]
fn values_compare_by_variant_and_number() {
    assert_eq!(Value::Number(360), Value::Number(360));
    assert_ne!(Value::Number(360), Value::Number(720));
    assert_eq!(Value::Any, Value::Any);
    assert_ne!(Value::Any, Value::Number(360));
}
