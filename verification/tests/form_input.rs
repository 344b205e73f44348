use talps_manager::form::{parse_dep_ids, parse_id, trim_blanks, validate_task_form};
use talps_manager::decimal::{parse_u64, u64_to_dec};

#[test]
fn trim_strips_blanks() {
    assert_eq!(trim_blanks("  12 \t"), "12");
    assert_eq!(trim_blanks(""), "");
    assert_eq!(trim_blanks(" \t "), "");
    assert_eq!(trim_blanks("a b"), "a b");
}

#[test]
fn parse_u64_exact() {
    assert_eq!(parse_u64("0"), Some(0));
    assert_eq!(parse_u64("409"), Some(409));
    assert_eq!(parse_u64("18446744073709551615"), Some(u64::MAX));
    // one past the largest value
    assert_eq!(parse_u64("18446744073709551616"), None);
    assert_eq!(parse_u64(""), None);
    assert_eq!(parse_u64("12a"), None);
    assert_eq!(parse_u64("-3"), None);
}

#[test]
fn render_then_parse_is_identity() {
    for n in [0u64, 7, 10, 999, 123456789, u64::MAX] {
        assert_eq!(parse_u64(&u64_to_dec(n)), Some(n));
    }
}

#[test]
fn parse_id_trims() {
    assert_eq!(parse_id(" 42 "), Some(42));
    assert_eq!(parse_id("\t7"), Some(7));
    assert_eq!(parse_id(" "), None);
    assert_eq!(parse_id("4 2"), None);
}

#[test]
fn parse_dep_ids_lists() {
    assert_eq!(parse_dep_ids("1, 2,3"), Some(vec![1, 2, 3]));
    assert_eq!(parse_dep_ids(" 10 "), Some(vec![10]));
    // an empty entry has one empty piece, which is refused
    assert_eq!(parse_dep_ids(""), None);
    assert_eq!(parse_dep_ids("1,,2"), None);
    assert_eq!(parse_dep_ids("1,x"), None);
    assert_eq!(parse_dep_ids("1,2,"), None);
}

#[test]
fn form_validation_messages() {
    let err = validate_task_form("  ", "1", "run.sh").unwrap_err();
    assert_eq!(err.title, "Error");
    assert_eq!(err.content, "Task name cannot be empty");

    let err = validate_task_form("build", "1", " ").unwrap_err();
    assert_eq!(err.title, "Error");
    assert_eq!(err.content, "Exec File cannot be empty");

    let err = validate_task_form("build", "nope", "run.sh").unwrap_err();
    assert_eq!(err.title, "Error");
    assert_eq!(err.content, "Deps id is not valid");

    let ids = validate_task_form("build", "3 , 1", "run.sh").unwrap();
    assert_eq!(ids, vec![3, 1]);
}
