use value_resolve::Value;
use value_resolve::attempt;

#[test]
fn test1() {
    assert_eq!(
        attempt(
            &[240, 360, 720],
            &[Value::Number(360), Value::Number(720)],
            &[Value::Number(1080)],
        ),
        vec![720],
    );
}

#[test]
fn test2() {
    assert_eq!(
        attempt(
            &[240, 720],
            &[Value::Number(360), Value::Number(720)],
            &[Value::Number(1080)],
        ),
        vec![720],
    );
}

#[test]
fn test3() {
    assert_eq!(
        attempt(
            &[240],
            &[Value::Number(360), Value::Number(720)],
            &[Value::Number(1080)],
        ),
        Vec::<i32>::new(),
    );
}

#[test]
fn test4() {
    assert_eq!(
        attempt(
            &[240, 360, 720],
            &[
                Value::Number(240),
                Value::Number(360),
                Value::Number(720),
                Value::Number(1080),
            ],
            &[Value::Number(240), Value::Number(360)],
        ),
        vec![240, 360],
    );
}

#[test]
fn test5() {
    assert_eq!(
        attempt(
            &[240, 720],
            &[
                Value::Number(240),
                Value::Number(360),
                Value::Number(720),
                Value::Number(1080),
            ],
            &[Value::Number(240), Value::Number(360)],
        ),
        vec![240, 720],
    );
}

#[test]
fn test6() {
    assert_eq!(
        attempt(
            &[240, 720],
            &[Value::Number(240), Value::Number(360), Value::Number(1080)],
            &[Value::Number(240), Value::Number(360)],
        ),
        vec![240],
    );
}

#[test]
fn test7() {
    assert_eq!(
        attempt(
            &[720],
            &[Value::Number(240), Value::Number(360), Value::Number(1080)],
            &[Value::Number(240), Value::Number(360)],
        ),
        Vec::<i32>::new(),
    );
}

#[test]
fn test8() {
    assert_eq!(
        attempt(
            &[240, 360],
            &[Value::Number(240), Value::Number(360)],
            &[Value::Number(720), Value::Number(1080)],
        ),
        vec![360],
    );
}

#[test]
fn test_any1() {
    assert_eq!(
        attempt(
            &[240, 360, 720],
            &[Value::Number(360), Value::Any],
            &[Value::Number(360), Value::Number(720)],
        ),
        vec![360, 720],
    );
}

#[test]
fn test_any2() {
    assert_eq!(
        attempt(
            &[240, 360, 720],
            &[Value::Number(240), Value::Number(360), Value::Number(720)],
            &[Value::Any, Value::Number(720)],
        ),
        vec![240, 360, 720],
    );
}

#[test]
fn test_any3() {
    assert_eq!(
        attempt(
            &[240, 360, 720],
            &[Value::Number(360), Value::Number(1080)],
            &[Value::Any, Value::Number(720)],
        ),
        vec![360],
    );
}

#[test]
fn test_any4() {
    assert_eq!(
        attempt(
            &[240, 360, 720],
            &[Value::Number(1080)],
            &[Value::Any, Value::Number(720)],
        ),
        Vec::<i32>::new(),
    );
}
