use dslab::wfcommons::{workflow_graph, FileSpec, SpecTask, WorkflowError};

fn task(id: &str, parents: &[&str], inputs: Option<&[&str]>, outputs: Option<&[&str]>) -> SpecTask {
    SpecTask {
        id: id.to_string(),
        parents: parents.iter().map(|s| s.to_string()).collect(),
        input_files: inputs.map(|v| v.iter().map(|s| s.to_string()).collect()),
        output_files: outputs.map(|v| v.iter().map(|s| s.to_string()).collect()),
    }
}

fn file(id: &str, size: u64) -> FileSpec {
    FileSpec { id: id.to_string(), size_in_bytes: size }
}

fn ids(v: &[&str]) -> Vec<String> {
    v.iter().map(|s| s.to_string()).collect()
}

#[test]
fn files_become_items_and_parents_without_files_get_links() {
    let tasks = vec![
        task("a", &[], Some(&["in.txt"]), Some(&["mid.txt"])),
        task("b", &["a"], Some(&["mid.txt"]), Some(&["out.txt"])),
        task("c", &["a", "b"], None, None),
    ];
    let files = vec![file("in.txt", 10), file("mid.txt", 2_000_000), file("out.txt", 5)];
    let g = workflow_graph(&tasks, &files, &ids(&["a", "b", "c"])).unwrap();
    let items: Vec<(String, u64, Option<usize>)> =
        g.data_items.iter().map(|d| (d.name.clone(), d.size_in_bytes, d.producer)).collect();
    assert_eq!(
        items,
        vec![
            ("mid.txt".to_string(), 2_000_000, Some(0)),
            ("out.txt".to_string(), 5, Some(1)),
            ("in.txt".to_string(), 10, None),
            ("a -> c".to_string(), 0, Some(0)),
            ("b -> c".to_string(), 0, Some(1)),
        ]
    );
    assert_eq!(g.dependencies, vec![(2, 0), (0, 1), (3, 2), (4, 2)]);
}

#[test]
fn unsized_files_are_ignored_and_tasks_numbered_by_execution_order() {
    let tasks = vec![task("x", &[], Some(&["nosize"]), Some(&["o"])), task("y", &["x"], None, None)];
    let files = vec![file("o", 1), file("o", 7)];
    let g = workflow_graph(&tasks, &files, &ids(&["y", "x"])).unwrap();
    assert_eq!(g.data_items.len(), 2);
    assert_eq!(g.data_items[0].name, "o");
    assert_eq!(g.data_items[0].size_in_bytes, 7);
    assert_eq!(g.data_items[0].producer, Some(1));
    assert_eq!(g.data_items[1].name, "x -> y");
    assert_eq!(g.dependencies, vec![(1, 0)]);
}

#[test]
fn workflow_errors() {
    let tasks = vec![task("x", &[], None, None)];
    assert_eq!(workflow_graph(&tasks, &Vec::new(), &ids(&["z"])).err(), Some(WorkflowError::UnknownTask));
    let tasks = vec![task("x", &["ghost"], None, None)];
    assert_eq!(workflow_graph(&tasks, &Vec::new(), &ids(&["x"])).err(), Some(WorkflowError::UnknownParent));
    let tasks = vec![task("x", &[], None, None)];
    assert!(workflow_graph(&tasks, &Vec::new(), &ids(&["x"])).is_ok());
}

use dslab::wfcommons::{generate_task_resources, CoreRange, MemoryRange};
use rand::{Rng, SeedableRng};
use rand_pcg::Pcg64;

fn stages(v: &[&str]) -> Vec<String> {
    v.iter().map(|s| s.to_string()).collect()
}

#[test]
fn fixed_cores_and_no_memory_draw_nothing() {
    let mut rng = Pcg64::seed_from_u64(7);
    let res = generate_task_resources(&stages(&["a", "b"]), &vec![3, 5], &None, &None, &mut rng);
    assert_eq!(res, vec![(3, None), (5, None)]);
    let mut fresh = Pcg64::seed_from_u64(7);
    assert_eq!(rng.gen::<u64>(), fresh.gen::<u64>());
}

#[test]
fn regular_ranges_reuse_values_per_stage() {
    let mut rng = Pcg64::seed_from_u64(42);
    let cores = Some(CoreRange { min: 1, max: 64, regular: true });
    let memory = Some(MemoryRange { min: 1000, max: 1_000_000, regular: true });
    let st = stages(&["a", "b", "a", "b", "c"]);
    let res = generate_task_resources(&st, &vec![0; 5], &cores, &memory, &mut rng);
    assert_eq!(res[2], res[0]);
    assert_eq!(res[3], res[1]);
    let mut expected = Pcg64::seed_from_u64(42);
    for i in [0, 1, 4] {
        let c: u32 = expected.gen_range(1..=64);
        let m: u64 = expected.gen_range(1000..=1_000_000);
        assert_eq!(res[i], (c, Some(m)));
    }
}

#[test]
fn irregular_ranges_draw_for_every_task() {
    let mut rng = Pcg64::seed_from_u64(3);
    let cores = Some(CoreRange { min: 2, max: 8, regular: false });
    let st = stages(&["a", "a", "a"]);
    let res = generate_task_resources(&st, &vec![0; 3], &cores, &None, &mut rng);
    let mut expected = Pcg64::seed_from_u64(3);
    for r in &res {
        let c: u32 = expected.gen_range(2..=8);
        assert_eq!(*r, (c, None));
        assert!(2 <= r.0 && r.0 <= 8);
    }
}

use dslab::wfcommons::{
    assemble_task_resources, generator_for, resource_draw_plan, wfcommons_layout, DrawRequest, WfError,
};
use std::hash::{Hash, Hasher};

#[test]
fn layout_follows_the_schema_version() {
    assert_eq!(wfcommons_layout("not json"), Err(WfError::InvalidJson));
    assert_eq!(wfcommons_layout("{\"workflow\": {}}"), Ok(false));
    assert_eq!(wfcommons_layout("{\"schemaVersion\": 1.4}"), Ok(false));
    assert_eq!(wfcommons_layout("{\"schemaVersion\": \"1.4\"}"), Ok(true));
    assert_eq!(wfcommons_layout("{\"schemaVersion\": \"1.3\", \"workflow\": {}}"), Ok(true));
    assert_eq!(wfcommons_layout("{\"schemaVersion\": \"1.5\"}"), Ok(false));
    assert_eq!(wfcommons_layout("{\"schemaVersion\": \"2\"}"), Ok(false));
    assert_eq!(wfcommons_layout("{\"schemaVersion\": \"1\"}"), Ok(true));
}

fn expected_generator(text: &str, seed: u64) -> Pcg64 {
    let mut hasher = std::collections::hash_map::DefaultHasher::new();
    text.hash(&mut hasher);
    Pcg64::seed_from_u64(hasher.finish().wrapping_add(seed))
}

#[test]
fn generator_is_seeded_from_text_hash_and_seed() {
    let text = "{\"schemaVersion\": \"1.5\"}";
    let mut a = generator_for(text, Some(9));
    let mut b = generator_for(text, Some(9));
    let mut e = expected_generator(text, 9);
    for _ in 0..4 {
        let x: u64 = a.gen();
        assert_eq!(x, b.gen::<u64>());
        assert_eq!(x, e.gen::<u64>());
    }
    let mut d = generator_for(text, None);
    let mut e = expected_generator(text, 123);
    assert_eq!(d.gen::<u64>(), e.gen::<u64>());
    let mut other = generator_for("{}", Some(9));
    let mut e = expected_generator("{}", 9);
    assert_eq!(other.gen::<u64>(), e.gen::<u64>());
}

#[test]
fn draw_plan_skips_later_tasks_of_a_stage_under_regular_ranges() {
    let st = stages(&["a", "b", "a"]);
    let cores = Some(CoreRange { min: 1, max: 4, regular: true });
    let memory = Some(MemoryRange { min: 10, max: 20, regular: false });
    let plan = resource_draw_plan(&st, &cores, &memory);
    let got: Vec<(Option<(u32, u32)>, Option<(u64, u64)>)> = plan.iter().map(|r| (r.cores, r.memory)).collect();
    assert_eq!(
        got,
        vec![
            (Some((1, 4)), Some((10, 20))),
            (Some((1, 4)), Some((10, 20))),
            (None, Some((10, 20))),
        ]
    );
    let plan: Vec<DrawRequest> = resource_draw_plan(&st, &None, &None);
    assert!(plan.iter().all(|r| r.cores.is_none() && r.memory.is_none()));
    assert_eq!(plan.len(), 3);
}

#[test]
fn assembled_resources_take_stage_values() {
    let st = stages(&["a", "b", "a"]);
    let cores = Some(CoreRange { min: 1, max: 4, regular: true });
    let memory = Some(MemoryRange { min: 10, max: 20, regular: false });
    let drawn = vec![(Some(3), Some(11)), (Some(2), Some(19)), (None, Some(15))];
    let res = assemble_task_resources(&st, &vec![7, 7, 7], &cores, &memory, &drawn);
    assert_eq!(res, vec![(3, Some(11)), (2, Some(19)), (3, Some(15))]);
    let drawn = vec![(None, None), (None, None), (None, None)];
    let res = assemble_task_resources(&st, &vec![5, 6, 7], &None, &None, &drawn);
    assert_eq!(res, vec![(5, None), (6, None), (7, None)]);
}
