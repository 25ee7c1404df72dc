use dslab::dag_links::instance_links;
use dslab::numbers::{parse_i64, parse_u64};
use dslab::trace::{select_jobs, task_record, JobLimits};
use dslab::wfcommons::{is_legacy_schema, task_stage};

#[test]
fn parse_u64_follows_from_str() {
    for s in ["0", "42", "+7", "18446744073709551615", "", "+", "-1", "1a", " 1", "18446744073709551616", "007"] {
        assert_eq!(parse_u64(s), s.parse::<u64>().ok(), "input {:?}", s);
    }
}

#[test]
fn parse_i64_follows_from_str() {
    for s in [
        "0", "-0", "42", "+7", "-7", "9223372036854775807", "9223372036854775808", "-9223372036854775808",
        "-9223372036854775809", "", "-", "+", "+-1", "--1", "1.5",
    ] {
        assert_eq!(parse_i64(s), s.parse::<i64>().ok(), "input {:?}", s);
    }
}

#[test]
fn task_records() {
    assert_eq!(task_record("task_abc", "3", "j_1", "Terminated"), None);
    assert_eq!(task_record("M1", "3", "j_1", "Terminated"), Some(("j_1".to_string(), 3)));
    assert_eq!(task_record("M1", "3", "j_1", "Failed"), Some(("j_1".to_string(), u64::MAX)));
    assert_eq!(task_record("R2_1", "x", "j_2", "Terminated"), Some(("j_2".to_string(), u64::MAX)));
    assert_eq!(task_record("tas", "1", "j_3", "Terminated"), Some(("j_3".to_string(), 1)));
}

fn limits(max_dags: u64) -> JobLimits {
    JobLimits { min_ins: 2, max_ins: 10, min_tasks: 1, max_tasks: 3, max_dags }
}

fn rows() -> Vec<(String, u64)> {
    vec![
        ("j_3".to_string(), 4),
        ("j_1".to_string(), 1),
        ("j_2".to_string(), 5),
        ("j_1".to_string(), 2),
        ("j_4".to_string(), 3),
        ("j_4".to_string(), u64::MAX),
        ("j_5".to_string(), 11),
        ("j_6".to_string(), 1),
        ("j_6".to_string(), 1),
        ("j_6".to_string(), 1),
        ("j_6".to_string(), 1),
        ("j_0".to_string(), 1),
    ]
}

#[test]
fn select_jobs_in_name_order_within_limits() {
    assert_eq!(select_jobs(rows(), &limits(u64::MAX)), vec!["j_1", "j_2", "j_3"]);
    assert_eq!(select_jobs(rows(), &limits(2)), vec!["j_1", "j_2"]);
    assert_eq!(select_jobs(rows(), &limits(1)), vec!["j_1"]);
    assert!(select_jobs(rows(), &limits(0)).is_empty());
    assert!(select_jobs(Vec::new(), &limits(5)).is_empty());
}

#[test]
fn select_jobs_rejects_overflowing_totals() {
    let rows = vec![("a".to_string(), u64::MAX - 1), ("a".to_string(), 5)];
    let lim = JobLimits { min_ins: 0, max_ins: u64::MAX, min_tasks: 0, max_tasks: u64::MAX, max_dags: 10 };
    assert!(select_jobs(rows, &lim).is_empty());
}

fn rec(name: &str, task: &str) -> (String, String) {
    (name.to_string(), task.to_string())
}

#[test]
fn links_follow_task_dependencies() {
    let records = vec![rec("i1", "M1"), rec("i2", "M1"), rec("i3", "R2_1"), rec("i4", "J3_2_1")];
    let links = instance_links(&records);
    assert_eq!(links.len(), 4);
    assert!(links[0].inputs.is_empty());
    assert_eq!(links[0].outputs, vec!["from_i1_to_i3", "from_i1_to_i4"]);
    assert_eq!(links[1].outputs, vec!["from_i2_to_i3", "from_i2_to_i4"]);
    assert_eq!(links[2].inputs, vec!["from_i1_to_i3", "from_i2_to_i3"]);
    assert_eq!(links[2].outputs, vec!["from_i3_to_i4"]);
    assert_eq!(links[3].inputs, vec!["from_i3_to_i4", "from_i1_to_i4", "from_i2_to_i4"]);
    assert!(links[3].outputs.is_empty());
    let inputs: usize = links.iter().map(|l| l.inputs.len()).sum();
    let outputs: usize = links.iter().map(|l| l.outputs.len()).sum();
    assert_eq!((inputs, outputs), (5, 5));
}

#[test]
fn repeated_instance_names_share_links_at_first_record() {
    let records = vec![rec("a", "M1"), rec("b", "R2_1"), rec("a", "M1")];
    let links = instance_links(&records);
    assert_eq!(links[0].outputs, vec!["from_a_to_b", "from_a_to_b"]);
    assert_eq!(links[1].inputs, vec!["from_a_to_b", "from_a_to_b"]);
    assert!(links[2].inputs.is_empty());
    assert!(links[2].outputs.is_empty());
}

#[test]
fn task_keys_skip_leading_letters() {
    let records = vec![rec("x", "task_Nzg3ODAwNDgzMTAzNTE2MTI3Mg=="), rec("y", "MergeTask12"), rec("z", "R3_12")];
    let links = instance_links(&records);
    assert_eq!(links[1].outputs, vec!["from_y_to_z"]);
    assert!(links[0].outputs.is_empty());
}

#[test]
fn legacy_schema_versions() {
    assert!(is_legacy_schema("1.4"));
    assert!(is_legacy_schema("1.3"));
    assert!(is_legacy_schema("0.4"));
    assert!(!is_legacy_schema("0.9"));
    assert!(is_legacy_schema("1"));
    assert!(is_legacy_schema("1.x"));
    assert!(!is_legacy_schema("1.5"));
    assert!(!is_legacy_schema("2.0"));
    assert!(!is_legacy_schema("v1.4"));
    assert!(!is_legacy_schema(""));
}

#[test]
fn task_stages() {
    assert_eq!(task_stage("mProject_00001"), "mProject");
    assert_eq!(task_stage("single"), "single");
    assert_eq!(task_stage("_x"), "");
}

#[test]
fn input_names_and_output_names_are_the_same_bag() {
    let records = vec![rec("i1", "M1"), rec("i2", "M1"), rec("i3", "R2_1"), rec("i4", "J3_2_1"), rec("i1", "M1")];
    let links = instance_links(&records);
    let mut inputs: Vec<String> = links.iter().flat_map(|l| l.inputs.clone()).collect();
    let mut outputs: Vec<String> = links.iter().flat_map(|l| l.outputs.clone()).collect();
    inputs.sort();
    outputs.sort();
    assert_eq!(inputs, outputs);
    assert_eq!(inputs.len(), 7);
}
