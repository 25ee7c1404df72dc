//! Rules of the WfCommons workflow format that do not depend on how the
//! document is read.

use vstd::prelude::*;
use rand::{Rng, SeedableRng};
use std::hash::{Hash, Hasher};
use crate::numbers::{parse_i64, parsed_i64};
use crate::text::{chars_of, char_vec_views, segments, split_chars, string_of};

verus! {

/// Whether a document of schema version `version` is in the old layout
/// (major version at most 1 and minor version at most 4, or no readable
/// minor version). A version whose major part is not a number is taken for
/// the current layout.
pub open spec fn schema_is_legacy(version: Seq<char>) -> bool {
    let parts = segments(version, '.');
    match parsed_i64(parts[0]) {
        None => false,
        Some(major) => major <= 1 && (parts.len() < 2 || match parsed_i64(parts[1]) {
            None => true,
            Some(minor) => minor <= 4,
        }),
    }
}

/// The schema version of a WfCommons document: `None` when the text is not
/// JSON, `Some(None)` when it has no string `schemaVersion` field, and
/// `Some(Some(v))` when that field is the string `v`.
pub uninterp spec fn json_schema_version(text: Seq<char>) -> Option<Option<Seq<char>>>;

/// Reads the `schemaVersion` string of a JSON document with
/// `serde_json::from_str::<Value>` and `Value::get`: `None` when the text is
/// not JSON, `Some(None)` when the document has no string field of that name.
/// The outcome is named `json_schema_version`; the JSON grammar is not stated.
#[verifier::external_body]
fn schema_version_of(text: &str) -> (res: Option<Option<String>>)
    ensures
        match (res, json_schema_version(text@)) {
            (None, None) => true,
            (Some(None), Some(None)) => true,
            (Some(Some(v)), Some(Some(w))) => v@ == w,
            _ => false,
        },
{
    match serde_json::from_str::<serde_json::Value>(text) {
        Err(_) => None,
        Ok(value) => match value.get("schemaVersion") {
            Some(serde_json::Value::String(v)) => Some(Some(v.clone())),
            _ => Some(None),
        },
    }
}

/// Why a WfCommons document cannot be read.
#[derive(Clone, Copy, Debug, PartialEq, Eq, Structural)]
pub enum WfError {
    /// The text is not JSON.
    InvalidJson,
}

/// Which layout a WfCommons document uses: `Ok(true)` for the old layout
/// (a string schema version that `is_legacy_schema` accepts), `Ok(false)`
/// for the current one, and an error when the text is not JSON.
pub fn wfcommons_layout(text: &str) -> (res: Result<bool, WfError>)
    ensures
        match json_schema_version(text@) {
            None => res == Err::<bool, WfError>(WfError::InvalidJson),
            Some(None) => res == Ok::<bool, WfError>(false),
            Some(Some(v)) => res == Ok::<bool, WfError>(schema_is_legacy(v)),
        },
{
    match schema_version_of(text) {
        None => Err(WfError::InvalidJson),
        Some(None) => Ok(false),
        Some(Some(v)) => Ok(is_legacy_schema(v.as_str())),
    }
}

/// The hash of a text by `DefaultHasher::new()`, whose keys are fixed.
pub uninterp spec fn text_hash(text: Seq<char>) -> u64;

/// Hashes `text` with a fresh `std::collections::hash_map::DefaultHasher`
/// (`Hash::hash`, then `Hasher::finish`). The value is named `text_hash`; the
/// hashing algorithm is not stated.
#[verifier::external_body]
fn hash_text(text: &str) -> (res: u64)
    ensures
        res == text_hash(text@),
{
    let mut hasher = std::collections::hash_map::DefaultHasher::new();
    text.hash(&mut hasher);
    hasher.finish()
}

/// The generator that `SeedableRng::seed_from_u64(seed)` builds.
pub uninterp spec fn seeded_generator(seed: u64) -> rand_pcg::Lcg128Xsl64;

/// `Lcg128Xsl64::seed_from_u64`: the generator for `seed`, named
/// `seeded_generator`; how the seed is expanded into the state is not stated.
#[verifier::external_body]
fn generator_from_seed(seed: u64) -> (res: rand_pcg::Lcg128Xsl64)
    ensures
        res == seeded_generator(seed),
{
    rand_pcg::Lcg128Xsl64::seed_from_u64(seed)
}

/// The seed of the generator for a document: the hash of its text plus the
/// configured seed (123 when none is configured), wrapping around on overflow.
pub open spec fn generator_seed(text: Seq<char>, seed: Option<u64>) -> u64 {
    text_hash(text).wrapping_add(
        match seed {
            Some(s) => s,
            None => 123u64,
        },
    )
}

/// The generator that draws the generated resources of a document: seeded
/// from the hash of its text and the configured seed, so that one text and
/// one seed always give the same generator.
pub fn generator_for(text: &str, seed: Option<u64>) -> (res: rand_pcg::Lcg128Xsl64)
    ensures
        res == seeded_generator(generator_seed(text@, seed)),
{
    let hash = hash_text(text);
    let s: u64 = match seed {
        Some(s) => s,
        None => 123,
    };
    generator_from_seed(hash.wrapping_add(s))
}

/// Parses the decimal number spelled by `cs`.
fn parse_i64_chars(cs: &Vec<char>) -> (res: Option<i64>)
    ensures
        res == parsed_i64(cs@),
{
    let s = string_of(cs, 0, cs.len());
    assert(cs@.subrange(0, cs@.len() as int) =~= cs@);
    parse_i64(s.as_str())
}

/// Tells whether a document of schema version `version` must be read with the
/// old layout.
pub fn is_legacy_schema(version: &str) -> (res: bool)
    ensures
        res == schema_is_legacy(version@),
{
    let s = chars_of(version);
    let parts = split_chars(&s, '.');
    assert(char_vec_views(parts@).len() == parts@.len());
    assert(parts@[0]@ == segments(version@, '.')[0]);
    match parse_i64_chars(&parts[0]) {
        None => false,
        Some(major) => {
            if major > 1 {
                false
            } else if parts.len() < 2 {
                true
            } else {
                assert(parts@[1]@ == segments(version@, '.')[1]);
                match parse_i64_chars(&parts[1]) {
                    None => true,
                    Some(minor) => minor <= 4,
                }
            }
        },
    }
}

/// The stage of a task: the part of its identifier before the first `_`.
pub fn task_stage(task_id: &str) -> (res: String)
    ensures
        res@ == segments(task_id@, '_')[0],
{
    let s = chars_of(task_id);
    let parts = split_chars(&s, '_');
    assert(char_vec_views(parts@).len() == parts@.len());
    assert(parts@[0]@ == segments(task_id@, '_')[0]);
    let res = string_of(&parts[0], 0, parts[0].len());
    assert(parts@[0]@.subrange(0, parts@[0]@.len() as int) =~= parts@[0]@);
    res
}


/// A task as the specification part of a workflow document declares it.
pub struct SpecTask {
    pub id: String,
    pub parents: Vec<String>,
    pub input_files: Option<Vec<String>>,
    pub output_files: Option<Vec<String>>,
}

/// A file as a workflow document declares it.
pub struct FileSpec {
    pub id: String,
    pub size_in_bytes: u64,
}

/// A data item of the graph built from a workflow: a file or a link between
/// a parent task and its child, the task that produces it if any.
pub struct PlannedDataItem {
    pub name: String,
    pub size_in_bytes: u64,
    pub producer: Option<usize>,
}

/// The data items of a workflow, in the order they are created, and the
/// dependencies of tasks on them as (data item, consuming task) pairs. Tasks
/// are numbered by their position in the execution part of the document.
pub struct WorkflowGraph {
    pub data_items: Vec<PlannedDataItem>,
    pub dependencies: Vec<(usize, usize)>,
}

/// Why a workflow document describes no graph.
#[derive(Clone, Copy, Debug, PartialEq, Eq, Structural)]
pub enum WorkflowError {
    /// A task of the specification part does not appear in the execution part.
    UnknownTask,
    /// A task names a parent that does not appear in the execution part.
    UnknownParent,
}

/// The size of file `name`: the last declaration of that file counts.
pub open spec fn file_size(files: Seq<FileSpec>, name: Seq<char>) -> Option<u64>
    decreases files.len(),
{
    if files.len() == 0 {
        None
    } else if files.last().id@ == name {
        Some(files.last().size_in_bytes)
    } else {
        file_size(files.drop_last(), name)
    }
}

/// The input files declared for task `id` by the last task of that identifier
/// that declares any.
pub open spec fn declared_inputs(tasks: Seq<SpecTask>, id: Seq<char>) -> Option<Seq<String>>
    decreases tasks.len(),
{
    if tasks.len() == 0 {
        None
    } else if tasks.last().id@ == id && tasks.last().input_files is Some {
        Some(tasks.last().input_files->0@)
    } else {
        declared_inputs(tasks.drop_last(), id)
    }
}

/// The output files declared for task `id` by the last task of that
/// identifier that declares any.
pub open spec fn declared_outputs(tasks: Seq<SpecTask>, id: Seq<char>) -> Option<Seq<String>>
    decreases tasks.len(),
{
    if tasks.len() == 0 {
        None
    } else if tasks.last().id@ == id && tasks.last().output_files is Some {
        Some(tasks.last().output_files->0@)
    } else {
        declared_outputs(tasks.drop_last(), id)
    }
}

/// The number of task `id`: its last position in the execution part.
pub open spec fn task_index(exec_ids: Seq<String>, id: Seq<char>) -> Option<int>
    decreases exec_ids.len(),
{
    if exec_ids.len() == 0 {
        None
    } else if exec_ids.last()@ == id {
        Some(exec_ids.len() - 1)
    } else {
        task_index(exec_ids.drop_last(), id)
    }
}

/// The data item last registered under `name`.
pub open spec fn named_item(named: Seq<(Seq<char>, int)>, name: Seq<char>) -> Option<int>
    decreases named.len(),
{
    if named.len() == 0 {
        None
    } else if named.last().0 == name {
        Some(named.last().1)
    } else {
        named_item(named.drop_last(), name)
    }
}

/// The state of building a graph: data items (name, size, producer),
/// dependencies (data item, consumer), and the items registered by name.
pub type GraphState = (Seq<(Seq<char>, u64, Option<int>)>, Seq<(int, int)>, Seq<(Seq<char>, int)>);

/// The name of the data item that links `parent` to `child`.
pub open spec fn parent_link_name(parent: Seq<char>, child: Seq<char>) -> Seq<char> {
    parent + " -> "@ + child
}

/// Adds the declared output files of task `producer` that have a size.
pub open spec fn add_outputs(st: GraphState, names: Seq<String>, files: Seq<FileSpec>, producer: int) -> GraphState
    decreases names.len(),
{
    if names.len() == 0 {
        st
    } else {
        let s0 = add_outputs(st, names.drop_last(), files, producer);
        let name = names.last()@;
        match file_size(files, name) {
            None => s0,
            Some(size) => (s0.0.push((name, size, Some(producer))), s0.1, s0.2.push((name, s0.0.len() as int))),
        }
    }
}

/// The state once the outputs of the first `k` executed tasks are added.
pub open spec fn after_outputs(exec_ids: Seq<String>, tasks: Seq<SpecTask>, files: Seq<FileSpec>, k: nat) -> GraphState
    decreases k,
{
    if k == 0 {
        (Seq::empty(), Seq::empty(), Seq::empty())
    } else {
        let st = after_outputs(exec_ids, tasks, files, (k - 1) as nat);
        match declared_outputs(tasks, exec_ids[k - 1]@) {
            None => st,
            Some(outs) => add_outputs(st, outs, files, k - 1),
        }
    }
}

/// Adds the dependencies of task `consumer` on its input files `names`: on the
/// item registered under the name (noting its producer as a predecessor), or
/// else on a new item for a file that has a size.
pub open spec fn add_inputs(st: GraphState, preds: Set<int>, names: Seq<String>, files: Seq<FileSpec>, consumer: int) -> (GraphState, Set<int>)
    decreases names.len(),
{
    if names.len() == 0 {
        (st, preds)
    } else {
        let (s0, p0) = add_inputs(st, preds, names.drop_last(), files, consumer);
        let name = names.last()@;
        match named_item(s0.2, name) {
            Some(id) => (
                (s0.0, s0.1.push((id, consumer)), s0.2),
                match s0.0[id].2 {
                    Some(p) => p0.insert(p),
                    None => p0,
                },
            ),
            None => match file_size(files, name) {
                Some(size) => (
                    (
                        s0.0.push((name, size, None)),
                        s0.1.push((s0.0.len() as int, consumer)),
                        s0.2.push((name, s0.0.len() as int)),
                    ),
                    p0,
                ),
                None => (s0, p0),
            },
        }
    }
}

/// Adds, for each parent of task `child` (numbered `consumer`) that is not yet a
/// predecessor, an empty data item linking the parent to the child.
pub open spec fn add_parents(
    st: GraphState,
    preds: Set<int>,
    parents: Seq<String>,
    exec_ids: Seq<String>,
    child: Seq<char>,
    consumer: int,
) -> Result<(GraphState, Set<int>), WorkflowError>
    decreases parents.len(),
{
    if parents.len() == 0 {
        Ok((st, preds))
    } else {
        match add_parents(st, preds, parents.drop_last(), exec_ids, child, consumer) {
            Err(e) => Err(e),
            Ok((s0, p0)) => match task_index(exec_ids, parents.last()@) {
                None => Err(WorkflowError::UnknownParent),
                Some(pid) => if p0.contains(pid) {
                    Ok((s0, p0))
                } else {
                    Ok(
                        (
                            (
                                s0.0.push((parent_link_name(parents.last()@, child), 0, Some(pid))),
                                s0.1.push((s0.0.len() as int, consumer)),
                                s0.2,
                            ),
                            p0.insert(pid),
                        ),
                    )
                },
            },
        }
    }
}

/// The state once the dependencies of the first `j` declared tasks are added.
pub open spec fn after_dependencies(exec_ids: Seq<String>, tasks: Seq<SpecTask>, files: Seq<FileSpec>, j: nat) -> Result<GraphState, WorkflowError>
    decreases j,
{
    if j == 0 {
        Ok(after_outputs(exec_ids, tasks, files, exec_ids.len()))
    } else {
        match after_dependencies(exec_ids, tasks, files, (j - 1) as nat) {
            Err(e) => Err(e),
            Ok(st) => {
                let t = tasks[j - 1];
                match task_index(exec_ids, t.id@) {
                    None => Err(WorkflowError::UnknownTask),
                    Some(tid) => {
                        let (s1, p1) = match declared_inputs(tasks, t.id@) {
                            None => (st, Set::<int>::empty()),
                            Some(ins) => add_inputs(st, Set::<int>::empty(), ins, files, tid),
                        };
                        match add_parents(s1, p1, t.parents@, exec_ids, t.id@, tid) {
                            Err(e) => Err(e),
                            Ok((s2, _)) => Ok(s2),
                        }
                    },
                }
            },
        }
    }
}

/// The data items of a graph as (name, size, producer).
pub open spec fn item_views(items: Seq<PlannedDataItem>) -> Seq<(Seq<char>, u64, Option<int>)> {
    items.map_values(
        |d: PlannedDataItem|
            (
                d.name@,
                d.size_in_bytes,
                match d.producer {
                    Some(p) => Some(p as int),
                    None => None,
                },
            ),
    )
}

/// Dependencies with their indices as integers.
pub open spec fn dependency_views(deps: Seq<(usize, usize)>) -> Seq<(int, int)> {
    deps.map_values(|d: (usize, usize)| (d.0 as int, d.1 as int))
}

/// Items registered by name, with their indices as integers.
pub open spec fn named_views(named: Seq<(String, usize)>) -> Seq<(Seq<char>, int)> {
    named.map_values(|n: (String, usize)| (n.0@, n.1 as int))
}


/// The values of a list of indices, as a set of integers.
pub open spec fn index_set(v: Seq<usize>) -> Set<int> {
    Set::new(|x: int| exists|i: int| 0 <= i < v.len() && v[i] as int == x)
}

/// The exec state of graph construction seen as a `GraphState`.
pub open spec fn state_view(items: Seq<PlannedDataItem>, deps: Seq<(usize, usize)>, named: Seq<(String, usize)>) -> GraphState {
    (item_views(items), dependency_views(deps), named_views(named))
}

fn lookup_file_size(files: &Vec<FileSpec>, name: &String) -> (res: Option<u64>)
    ensures
        res == file_size(files@, name@),
{
    let mut i = files.len();
    assert(files@.take(i as int) =~= files@);
    while i > 0
        invariant
            i <= files@.len(),
            file_size(files@, name@) == file_size(files@.take(i as int), name@),
        decreases i,
    {
        assert(files@.take(i as int).drop_last() =~= files@.take(i - 1));
        if files[i - 1].id == *name {
            return Some(files[i - 1].size_in_bytes);
        }
        i = i - 1;
    }
    None
}

fn lookup_inputs<'a>(tasks: &'a Vec<SpecTask>, id: &String) -> (res: Option<&'a Vec<String>>)
    ensures
        match res {
            Some(v) => declared_inputs(tasks@, id@) == Some(v@),
            None => declared_inputs(tasks@, id@) is None,
        },
{
    let mut i = tasks.len();
    assert(tasks@.take(i as int) =~= tasks@);
    while i > 0
        invariant
            i <= tasks@.len(),
            declared_inputs(tasks@, id@) == declared_inputs(tasks@.take(i as int), id@),
        decreases i,
    {
        assert(tasks@.take(i as int).drop_last() =~= tasks@.take(i - 1));
        let t = &tasks[i - 1];
        if t.id == *id {
            match &t.input_files {
                Some(v) => {
                    return Some(v);
                },
                None => {},
            }
        }
        i = i - 1;
    }
    None
}

fn lookup_outputs<'a>(tasks: &'a Vec<SpecTask>, id: &String) -> (res: Option<&'a Vec<String>>)
    ensures
        match res {
            Some(v) => declared_outputs(tasks@, id@) == Some(v@),
            None => declared_outputs(tasks@, id@) is None,
        },
{
    let mut i = tasks.len();
    assert(tasks@.take(i as int) =~= tasks@);
    while i > 0
        invariant
            i <= tasks@.len(),
            declared_outputs(tasks@, id@) == declared_outputs(tasks@.take(i as int), id@),
        decreases i,
    {
        assert(tasks@.take(i as int).drop_last() =~= tasks@.take(i - 1));
        let t = &tasks[i - 1];
        if t.id == *id {
            match &t.output_files {
                Some(v) => {
                    return Some(v);
                },
                None => {},
            }
        }
        i = i - 1;
    }
    None
}

fn lookup_task_index(exec_ids: &Vec<String>, id: &String) -> (res: Option<usize>)
    ensures
        match res {
            Some(k) => task_index(exec_ids@, id@) == Some(k as int) && k < exec_ids@.len(),
            None => task_index(exec_ids@, id@) is None,
        },
{
    let mut i = exec_ids.len();
    assert(exec_ids@.take(i as int) =~= exec_ids@);
    while i > 0
        invariant
            i <= exec_ids@.len(),
            task_index(exec_ids@, id@) == task_index(exec_ids@.take(i as int), id@),
        decreases i,
    {
        assert(exec_ids@.take(i as int).drop_last() =~= exec_ids@.take(i - 1));
        if exec_ids[i - 1] == *id {
            return Some(i - 1);
        }
        i = i - 1;
    }
    None
}

fn lookup_named(named: &Vec<(String, usize)>, name: &String) -> (res: Option<usize>)
    ensures
        match res {
            Some(k) => named_item(named_views(named@), name@) == Some(k as int),
            None => named_item(named_views(named@), name@) is None,
        },
{
    let ghost nv = named_views(named@);
    let mut i = named.len();
    assert(nv.take(i as int) =~= nv);
    while i > 0
        invariant
            i <= named@.len(),
            nv == named_views(named@),
            named_item(nv, name@) == named_item(nv.take(i as int), name@),
        decreases i,
    {
        assert(nv.take(i as int).drop_last() =~= nv.take(i - 1));
        if named[i - 1].0 == *name {
            return Some(named[i - 1].1);
        }
        i = i - 1;
    }
    None
}

fn contains_index(v: &Vec<usize>, x: usize) -> (res: bool)
    ensures
        res == index_set(v@).contains(x as int),
{
    let mut i: usize = 0;
    while i < v.len()
        invariant
            i <= v@.len(),
            forall|j: int| 0 <= j < i ==> v@[j] != x,
        decreases v@.len() - i,
    {
        if v[i] == x {
            return true;
        }
        i = i + 1;
    }
    false
}


/// An error in building the links of one task stays an error to the end.
proof fn lemma_parents_error_sticks(
    st: GraphState,
    preds: Set<int>,
    parents: Seq<String>,
    exec_ids: Seq<String>,
    child: Seq<char>,
    consumer: int,
    k: int,
)
    requires
        0 <= k <= parents.len(),
        add_parents(st, preds, parents.take(k), exec_ids, child, consumer) is Err,
    ensures
        add_parents(st, preds, parents, exec_ids, child, consumer) == add_parents(st, preds, parents.take(k), exec_ids, child, consumer),
    decreases parents.len() - k,
{
    if k == parents.len() {
        assert(parents.take(k) =~= parents);
    } else {
        assert(parents.take(k + 1).drop_last() =~= parents.take(k));
        lemma_parents_error_sticks(st, preds, parents, exec_ids, child, consumer, k + 1);
    }
}

/// An error in building the graph stays an error to the end.
proof fn lemma_dependencies_error_sticks(exec_ids: Seq<String>, tasks: Seq<SpecTask>, files: Seq<FileSpec>, j: nat)
    requires
        j <= tasks.len(),
        after_dependencies(exec_ids, tasks, files, j) is Err,
    ensures
        after_dependencies(exec_ids, tasks, files, tasks.len()) == after_dependencies(exec_ids, tasks, files, j),
    decreases tasks.len() - j,
{
    if j < tasks.len() {
        lemma_dependencies_error_sticks(exec_ids, tasks, files, j + 1);
    }
}

/// Builds the data items and dependencies of a workflow from the tasks and
/// files its specification part declares and the task identifiers of its
/// execution part (whose order numbers the tasks). First the declared output
/// files of each executed task become items produced by it; then, task by
/// declared task, each input file becomes a dependency (on the item of that
/// name, or on a new item for the file), and each parent that produces none
/// of the inputs gets an empty linking item.
pub fn workflow_graph(tasks: &Vec<SpecTask>, files: &Vec<FileSpec>, exec_ids: &Vec<String>) -> (res: Result<WorkflowGraph, WorkflowError>)
    ensures
        match (res, after_dependencies(exec_ids@, tasks@, files@, tasks@.len())) {
            (Ok(g), Ok(st)) => item_views(g.data_items@) == st.0 && dependency_views(g.dependencies@) == st.1,
            (Err(e), Err(f)) => e == f,
            _ => false,
        },
        res matches Ok(g) ==> forall|i: int, k: int|
            0 <= i < k < g.data_items@.len() && (#[trigger] g.data_items@[i]).producer is None
                && (#[trigger] g.data_items@[k]).producer is None ==> g.data_items@[i].name@ != g.data_items@[k].name@,
        res matches Ok(g) ==> forall|j: int, q: int|
            #![trigger tasks@[j].parents@[q]]
            0 <= j < tasks@.len() && 0 <= q < tasks@[j].parents@.len()
                ==> exists|d: int|
                0 <= d < g.dependencies@.len() && (#[trigger] g.dependencies@[d]).1 as int == task_index(exec_ids@, tasks@[j].id@)->0
                    && (g.dependencies@[d].0 as int) < g.data_items@.len()
                    && (g.data_items@[g.dependencies@[d].0 as int].producer matches Some(p)
                    && Some(p as int) == task_index(exec_ids@, tasks@[j].parents@[q]@)),
{
    let mut items: Vec<PlannedDataItem> = Vec::new();
    let mut deps: Vec<(usize, usize)> = Vec::new();
    let mut named: Vec<(String, usize)> = Vec::new();
    proof {
        assert(state_view(items@, deps@, named@) =~= after_outputs(exec_ids@, tasks@, files@, 0));
    }
    let mut k: usize = 0;
    while k < exec_ids.len()
        invariant
            k <= exec_ids@.len(),
            state_view(items@, deps@, named@) == after_outputs(exec_ids@, tasks@, files@, k as nat),
            forall|i: int| 0 <= i < named@.len() ==> (#[trigger] named@[i]).1 < items@.len(),
        decreases exec_ids@.len() - k,
    {
        let ghost st = state_view(items@, deps@, named@);
        match lookup_outputs(tasks, &exec_ids[k]) {
            None => {},
            Some(outs) => {
                let mut m: usize = 0;
                assert(outs@.take(0) =~= Seq::<String>::empty());
                while m < outs.len()
                    invariant
                        m <= outs@.len(),
                        state_view(items@, deps@, named@) == add_outputs(st, outs@.take(m as int), files@, k as int),
                        forall|i: int| 0 <= i < named@.len() ==> (#[trigger] named@[i]).1 < items@.len(),
                    decreases outs@.len() - m,
                {
                    assert(outs@.take(m + 1).drop_last() =~= outs@.take(m as int));
                    match lookup_file_size(files, &outs[m]) {
                        None => {},
                        Some(size) => {
                            let id = items.len();
                            let ghost before = state_view(items@, deps@, named@);
                            items.push(PlannedDataItem { name: outs[m].clone(), size_in_bytes: size, producer: Some(k) });
                            named.push((outs[m].clone(), id));
                            assert(state_view(items@, deps@, named@) =~= (
                                before.0.push((outs@[m as int]@, size, Some(k as int))),
                                before.1,
                                before.2.push((outs@[m as int]@, before.0.len() as int)),
                            ));
                        },
                    }
                    m = m + 1;
                }
                assert(outs@.take(outs@.len() as int) =~= outs@);
            },
        }
        k = k + 1;
    }
    let mut j: usize = 0;
    while j < tasks.len()
        invariant
            j <= tasks@.len(),
            after_dependencies(exec_ids@, tasks@, files@, j as nat) == Ok::<GraphState, WorkflowError>(state_view(items@, deps@, named@)),
            forall|i: int| 0 <= i < named@.len() ==> (#[trigger] named@[i]).1 < items@.len(),
        decreases tasks@.len() - j,
    {
        let ghost st = state_view(items@, deps@, named@);
        let t = &tasks[j];
        let tid = match lookup_task_index(exec_ids, &t.id) {
            None => {
                proof {
                    lemma_dependencies_error_sticks(exec_ids@, tasks@, files@, (j + 1) as nat);
                }
                return Err(WorkflowError::UnknownTask);
            },
            Some(x) => x,
        };
        let mut preds: Vec<usize> = Vec::new();
        assert(index_set(preds@) =~= Set::<int>::empty());
        match lookup_inputs(tasks, &t.id) {
            None => {},
            Some(ins) => {
                let mut m: usize = 0;
                assert(ins@.take(0) =~= Seq::<String>::empty());
                while m < ins.len()
                    invariant
                        m <= ins@.len(),
                        tid < exec_ids@.len(),
                        (state_view(items@, deps@, named@), index_set(preds@)) == add_inputs(st, Set::<int>::empty(), ins@.take(m as int), files@, tid as int),
                        forall|i: int| 0 <= i < named@.len() ==> (#[trigger] named@[i]).1 < items@.len(),
                    decreases ins@.len() - m,
                {
                    assert(ins@.take(m + 1).drop_last() =~= ins@.take(m as int));
                    let ghost before = state_view(items@, deps@, named@);
                    let ghost pbefore = index_set(preds@);
                    match lookup_named(&named, &ins[m]) {
                        Some(id) => {
                            proof {
                                let nv = named_views(named@);
                                lemma_named_item_in(nv, ins@[m as int]@);
                                let k = choose|k: int| 0 <= k < nv.len() && nv[k].1 == id as int;
                                assert(named@[k].1 == id);
                            }
                            match items[id].producer {
                                Some(p) => {
                                    proof {
                                        lemma_index_set_push(preds@, p);
                                    }
                                    preds.push(p);
                                },
                                None => {
                                    assert(index_set(preds@) =~= pbefore);
                                },
                            }
                            deps.push((id, tid));
                            assert(state_view(items@, deps@, named@) =~= (before.0, before.1.push((id as int, tid as int)), before.2));
                        },
                        None => match lookup_file_size(files, &ins[m]) {
                            Some(size) => {
                                let id = items.len();
                                items.push(PlannedDataItem { name: ins[m].clone(), size_in_bytes: size, producer: None });
                                named.push((ins[m].clone(), id));
                                deps.push((id, tid));
                                assert(state_view(items@, deps@, named@) =~= (
                                    before.0.push((ins@[m as int]@, size, None)),
                                    before.1.push((before.0.len() as int, tid as int)),
                                    before.2.push((ins@[m as int]@, before.0.len() as int)),
                                ));
                            },
                            None => {},
                        },
                    }
                    m = m + 1;
                }
                assert(ins@.take(ins@.len() as int) =~= ins@);
            },
        }
        let ghost s1 = state_view(items@, deps@, named@);
        let ghost p1 = index_set(preds@);
        assert((s1, p1) == (match declared_inputs(tasks@, t.id@) {
            None => (st, Set::<int>::empty()),
            Some(ins) => add_inputs(st, Set::<int>::empty(), ins, files@, tid as int),
        }));
        let mut m: usize = 0;
        assert(t.parents@.take(0) =~= Seq::<String>::empty());
        while m < t.parents.len()
            invariant
                m <= t.parents@.len(),
                j < tasks@.len(),
                t == tasks@[j as int],
                tid < exec_ids@.len(),
                after_dependencies(exec_ids@, tasks@, files@, j as nat) == Ok::<GraphState, WorkflowError>(st),
                task_index(exec_ids@, t.id@) == Some(tid as int),
                (s1, p1) == (match declared_inputs(tasks@, t.id@) {
                    None => (st, Set::<int>::empty()),
                    Some(ins) => add_inputs(st, Set::<int>::empty(), ins, files@, tid as int),
                }),
                add_parents(s1, p1, t.parents@.take(m as int), exec_ids@, t.id@, tid as int)
                    == Ok::<(GraphState, Set<int>), WorkflowError>((state_view(items@, deps@, named@), index_set(preds@))),
                forall|i: int| 0 <= i < named@.len() ==> (#[trigger] named@[i]).1 < items@.len(),
            decreases t.parents@.len() - m,
        {
            assert(t.parents@.take(m + 1).drop_last() =~= t.parents@.take(m as int));
            let pid = match lookup_task_index(exec_ids, &t.parents[m]) {
                None => {
                    proof {
                        lemma_parents_error_sticks(s1, p1, t.parents@, exec_ids@, t.id@, tid as int, m + 1);
                        lemma_dependencies_error_sticks(exec_ids@, tasks@, files@, (j + 1) as nat);
                    }
                    return Err(WorkflowError::UnknownParent);
                },
                Some(x) => x,
            };
            if !contains_index(&preds, pid) {
                let ghost before = state_view(items@, deps@, named@);
                let ghost pbefore = index_set(preds@);
                let mut name = t.parents[m].clone();
                name.append(" -> ");
                name.append(t.id.as_str());
                let id = items.len();
                items.push(PlannedDataItem { name, size_in_bytes: 0, producer: Some(pid) });
                deps.push((id, tid));
                proof {
                    lemma_index_set_push(preds@, pid);
                }
                preds.push(pid);
                assert(state_view(items@, deps@, named@) =~= (
                    before.0.push((parent_link_name(t.parents@[m as int]@, t.id@), 0, Some(pid as int))),
                    before.1.push((before.0.len() as int, tid as int)),
                    before.2,
                ));
            }
            m = m + 1;
        }
        assert(t.parents@.take(t.parents@.len() as int) =~= t.parents@);
        j = j + 1;
    }
    let g = WorkflowGraph { data_items: items, dependencies: deps };
    proof {
        let st = state_view(g.data_items@, g.dependencies@, named@);
        assert forall|i: int, k: int|
            0 <= i < k < g.data_items@.len() && (#[trigger] g.data_items@[i]).producer is None && (#[trigger] g.data_items@[k]).producer is None
            implies g.data_items@[i].name@ != g.data_items@[k].name@ by {
            assert(st.0[i].2 is None && st.0[k].2 is None);
            crate::workflow_laws::law_unproduced_file_is_one_item(exec_ids@, tasks@, files@, st, i, k);
        }
        assert forall|jj: int, q: int|
            #![trigger tasks@[jj].parents@[q]]
            0 <= jj < tasks@.len() && 0 <= q < tasks@[jj].parents@.len()
            implies exists|d: int|
                0 <= d < g.dependencies@.len() && (#[trigger] g.dependencies@[d]).1 as int == task_index(exec_ids@, tasks@[jj].id@)->0
                    && (g.dependencies@[d].0 as int) < g.data_items@.len()
                    && (g.data_items@[g.dependencies@[d].0 as int].producer matches Some(p)
                    && Some(p as int) == task_index(exec_ids@, tasks@[jj].parents@[q]@)) by {
            crate::workflow_laws::law_parents_precede_children(exec_ids@, tasks@, files@, st, jj, q);
            let d = choose|d: int|
                0 <= d < st.1.len() && (#[trigger] st.1[d]).1 == task_index(exec_ids@, tasks@[jj].id@)->0
                    && 0 <= st.1[d].0 < st.0.len() && st.0[st.1[d].0].2 == task_index(exec_ids@, tasks@[jj].parents@[q]@);
            assert(st.1[d] == (g.dependencies@[d].0 as int, g.dependencies@[d].1 as int));
            assert(st.0[g.dependencies@[d].0 as int].2 == match g.data_items@[g.dependencies@[d].0 as int].producer {
                Some(p) => Some(p as int),
                None => None,
            });
        }
    }
    Ok(g)
}

/// Appending an index adds it to the set of indices.
proof fn lemma_index_set_push(v: Seq<usize>, p: usize)
    ensures
        index_set(v.push(p)) == index_set(v).insert(p as int),
{
    let w = v.push(p);
    assert forall|x: int| index_set(w).contains(x) <==> index_set(v).insert(p as int).contains(x) by {
        if index_set(w).contains(x) {
            let i = choose|i: int| 0 <= i < w.len() && w[i] as int == x;
            if i < v.len() {
                assert(v[i] == w[i]);
            }
        }
        if x == p as int {
            assert(w[v.len() as int] == p);
        } else if index_set(v).contains(x) {
            let i = choose|i: int| 0 <= i < v.len() && v[i] as int == x;
            assert(w[i] == v[i]);
        }
    }
    assert(index_set(w) =~= index_set(v).insert(p as int));
}

/// The item registered under a name is one of the registered items.
proof fn lemma_named_item_in(named: Seq<(Seq<char>, int)>, name: Seq<char>)
    requires
        named_item(named, name) is Some,
    ensures
        exists|k: int| 0 <= k < named.len() && named[k].1 == named_item(named, name)->0,
    decreases named.len(),
{
    if named.last().0 == name {
        assert(named[named.len() - 1].1 == named_item(named, name)->0);
    } else {
        lemma_named_item_in(named.drop_last(), name);
        let k = choose|k: int| 0 <= k < named.len() - 1 && named.drop_last()[k].1 == named_item(named, name)->0;
        assert(named[k] == named.drop_last()[k]);
    }
}


/// The random number generator that draws generated resource requirements.
#[verifier::external_type_specification]
#[verifier::external_body]
pub struct ExLcg128Xsl64(rand_pcg::Lcg128Xsl64);

/// The value that `Rng::gen_range(min..=max)` draws for `u32` from a
/// generator in state `rng`, and the generator's state after the draw.
pub uninterp spec fn gen_range_u32(rng: rand_pcg::Lcg128Xsl64, min: u32, max: u32) -> (u32, rand_pcg::Lcg128Xsl64);

/// The value that `Rng::gen_range(min..=max)` draws for `u64` from a
/// generator in state `rng`, and the generator's state after the draw.
pub uninterp spec fn gen_range_u64(rng: rand_pcg::Lcg128Xsl64, min: u64, max: u64) -> (u64, rand_pcg::Lcg128Xsl64);

/// `Rng::gen_range` over `min..=max` for `u32` (it panics on an empty range,
/// which `requires` rules out): a value of the range. The value and the new
/// state of the generator are named `gen_range_u32` of the old state and the
/// bounds; the sampling algorithm is not stated.
#[verifier::external_body]
fn draw_u32(rng: &mut rand_pcg::Lcg128Xsl64, min: u32, max: u32) -> (res: u32)
    requires
        min <= max,
    ensures
        min <= res <= max,
        (res, *final(rng)) == gen_range_u32(*old(rng), min, max),
{
    rng.gen_range(min..=max)
}

/// `Rng::gen_range` over `min..=max` for `u64` (it panics on an empty range,
/// which `requires` rules out): a value of the range. The value and the new
/// state of the generator are named `gen_range_u64` of the old state and the
/// bounds; the sampling algorithm is not stated.
#[verifier::external_body]
fn draw_u64(rng: &mut rand_pcg::Lcg128Xsl64, min: u64, max: u64) -> (res: u64)
    requires
        min <= max,
    ensures
        min <= res <= max,
        (res, *final(rng)) == gen_range_u64(*old(rng), min, max),
{
    rng.gen_range(min..=max)
}

/// How to generate the core counts of tasks.
pub struct CoreRange {
    pub min: u32,
    pub max: u32,
    /// Tasks of one stage get the same count.
    pub regular: bool,
}

/// How to generate the memory requirements of tasks.
pub struct MemoryRange {
    pub min: u64,
    pub max: u64,
    /// Tasks of one stage get the same requirement.
    pub regular: bool,
}

/// No task before task `j` is of its stage.
pub open spec fn first_of_stage(stages: Seq<String>, j: int) -> bool {
    forall|q: int| 0 <= q < j ==> stages[q]@ != stages[j]@
}

/// The first task of the stage of task `i`.
pub open spec fn stage_leader(stages: Seq<String>, i: int) -> int {
    choose|j: int| 0 <= j <= i && stages[j]@ == stages[i]@ && first_of_stage(stages, j)
}

/// Every task has a first task of its stage.
proof fn lemma_stage_leader(stages: Seq<String>, i: int)
    requires
        0 <= i < stages.len(),
    ensures
        0 <= stage_leader(stages, i) <= i,
        stages[stage_leader(stages, i)]@ == stages[i]@,
        first_of_stage(stages, stage_leader(stages, i)),
    decreases i,
{
    if first_of_stage(stages, i) {
        assert(0 <= i <= i && stages[i]@ == stages[i]@ && first_of_stage(stages, i));
    } else {
        let q = choose|q: int| 0 <= q < i && stages[q]@ == stages[i]@;
        lemma_stage_leader(stages, q);
        let l = stage_leader(stages, q);
        assert(0 <= l <= i && stages[l]@ == stages[i]@ && first_of_stage(stages, l));
    }
}

/// The first task of a stage is its own first task.
proof fn lemma_leader_of_leader(stages: Seq<String>, i: int)
    requires
        0 <= i < stages.len(),
    ensures
        stage_leader(stages, stage_leader(stages, i)) == stage_leader(stages, i),
{
    lemma_stage_leader(stages, i);
    let l = stage_leader(stages, i);
    lemma_stage_leader(stages, l);
    let ll = stage_leader(stages, l);
    if ll < l {
        assert(stages[ll]@ != stages[l]@);
    }
}

/// The first earlier task of the stage of task `i`, if any.
fn earlier_of_stage(stages: &Vec<String>, i: usize) -> (res: Option<usize>)
    requires
        i < stages@.len(),
    ensures
        match res {
            Some(j) => j < i && j == stage_leader(stages@, i as int),
            None => stage_leader(stages@, i as int) == i,
        },
{
    let mut j: usize = 0;
    while j < i && !(stages[j] == stages[i])
        invariant
            j <= i < stages@.len(),
            forall|q: int| 0 <= q < j ==> stages@[q]@ != stages@[i as int]@,
        decreases i - j,
    {
        j = j + 1;
    }
    proof {
        let l = stage_leader(stages@, i as int);
        assert(0 <= j <= i && stages@[j as int]@ == stages@[i as int]@ && first_of_stage(stages@, j as int));
        if l < j {
            assert(stages@[l]@ != stages@[i as int]@);
        } else if l > j {
            assert(stages@[j as int]@ != stages@[i as int]@);
        }
    }
    if j < i {
        Some(j)
    } else {
        None
    }
}

/// The draws one task needs: a core count from `cores` and a memory value
/// from `memory`, each as inclusive bounds, where a draw is made.
#[derive(Clone, Copy, Debug)]
pub struct DrawRequest {
    pub cores: Option<(u32, u32)>,
    pub memory: Option<(u64, u64)>,
}

/// The core draw of task `i`: one from the core range, except for a task
/// that is not the first of its stage when the range is regular.
pub open spec fn core_request(stages: Seq<String>, cores: Option<CoreRange>, i: int) -> Option<(u32, u32)> {
    match cores {
        None => None,
        Some(c) => if c.regular && stage_leader(stages, i) < i {
            None
        } else {
            Some((c.min, c.max))
        },
    }
}

/// The memory draw of task `i`: one from the memory range, except for a task
/// that is not the first of its stage when the range is regular.
pub open spec fn memory_request(stages: Seq<String>, memory: Option<MemoryRange>, i: int) -> Option<(u64, u64)> {
    match memory {
        None => None,
        Some(m) => if m.regular && stage_leader(stages, i) < i {
            None
        } else {
            Some((m.min, m.max))
        },
    }
}

/// The draws of all tasks, in task order.
pub open spec fn draw_plan(stages: Seq<String>, cores: Option<CoreRange>, memory: Option<MemoryRange>) -> Seq<DrawRequest> {
    Seq::new(
        stages.len(),
        |i: int| DrawRequest { cores: core_request(stages, cores, i), memory: memory_request(stages, memory, i) },
    )
}

/// `drawn` holds a value exactly where `plan` asks for a draw.
pub open spec fn drawn_matches_plan(plan: Seq<DrawRequest>, drawn: Seq<(Option<u32>, Option<u64>)>) -> bool {
    &&& drawn.len() == plan.len()
    &&& forall|i: int| 0 <= i < plan.len() ==> ((#[trigger] drawn[i]).0 is Some <==> plan[i].cores is Some)
        && (drawn[i].1 is Some <==> plan[i].memory is Some)
}

/// `drawn` holds a value exactly where `plan` asks for a draw, each within
/// the bounds of its request.
pub open spec fn drawn_within_plan(plan: Seq<DrawRequest>, drawn: Seq<(Option<u32>, Option<u64>)>) -> bool {
    &&& drawn_matches_plan(plan, drawn)
    &&& forall|i: int|
        0 <= i < plan.len() ==> match ((#[trigger] drawn[i]).0, plan[i].cores) {
            (Some(v), Some(b)) => b.0 <= v <= b.1,
            _ => true,
        } && match (drawn[i].1, plan[i].memory) {
            (Some(v), Some(b)) => b.0 <= v <= b.1,
            _ => true,
        }
}

/// The values drawn for one request from a generator in state `rng`, the
/// core draw before the memory draw, and the generator's state afterwards.
pub open spec fn request_draws(req: DrawRequest, rng: rand_pcg::Lcg128Xsl64) -> ((Option<u32>, Option<u64>), rand_pcg::Lcg128Xsl64) {
    let (c, r1) = match req.cores {
        None => (None, rng),
        Some(b) => {
            let (v, r) = gen_range_u32(rng, b.0, b.1);
            (Some(v), r)
        },
    };
    let (m, r2) = match req.memory {
        None => (None, r1),
        Some(b) => {
            let (v, r) = gen_range_u64(r1, b.0, b.1);
            (Some(v), r)
        },
    };
    ((c, m), r2)
}

/// The values drawn for the requests of `plan` in order from a generator in
/// state `rng`, and the generator's state after the last draw.
pub open spec fn plan_draws(plan: Seq<DrawRequest>, rng: rand_pcg::Lcg128Xsl64) -> (Seq<(Option<u32>, Option<u64>)>, rand_pcg::Lcg128Xsl64)
    decreases plan.len(),
{
    if plan.len() == 0 {
        (Seq::empty(), rng)
    } else {
        let (prev, r) = plan_draws(plan.drop_last(), rng);
        let (d, r2) = request_draws(plan.last(), r);
        (prev.push(d), r2)
    }
}

/// The task whose draw gives task `i` its value from a range: the first task
/// of its stage when the range is regular, else the task itself.
pub open spec fn value_source(stages: Seq<String>, regular: bool, i: int) -> int {
    if regular {
        stage_leader(stages, i)
    } else {
        i
    }
}

/// The core count and memory value of each task built from the drawn values:
/// fixed cores without a core range, no memory value without a memory range,
/// and otherwise the value drawn for the task's source.
pub open spec fn assembled_resources(
    stages: Seq<String>,
    fixed_cores: Seq<u32>,
    cores: Option<CoreRange>,
    memory: Option<MemoryRange>,
    drawn: Seq<(Option<u32>, Option<u64>)>,
) -> Seq<(u32, Option<u64>)> {
    Seq::new(
        stages.len(),
        |i: int|
            (
                match cores {
                    None => fixed_cores[i],
                    Some(c) => drawn[value_source(stages, c.regular, i)].0->0,
                },
                match memory {
                    None => None,
                    Some(m) => drawn[value_source(stages, m.regular, i)].1,
                },
            ),
    )
}

/// Which draws the tasks need, in task order.
pub fn resource_draw_plan(stages: &Vec<String>, cores: &Option<CoreRange>, memory: &Option<MemoryRange>) -> (plan: Vec<DrawRequest>)
    ensures
        plan@ == draw_plan(stages@, *cores, *memory),
{
    let mut plan: Vec<DrawRequest> = Vec::new();
    let mut i: usize = 0;
    while i < stages.len()
        invariant
            i <= stages@.len(),
            plan@.len() == i,
            forall|q: int| 0 <= q < i ==> #[trigger] plan@[q] == draw_plan(stages@, *cores, *memory)[q],
        decreases stages@.len() - i,
    {
        let earlier = earlier_of_stage(stages, i);
        let c = match cores {
            None => None,
            Some(range) => match earlier {
                Some(_) if range.regular => None,
                _ => Some((range.min, range.max)),
            },
        };
        let m = match memory {
            None => None,
            Some(range) => match earlier {
                Some(_) if range.regular => None,
                _ => Some((range.min, range.max)),
            },
        };
        plan.push(DrawRequest { cores: c, memory: m });
        i = i + 1;
    }
    assert(plan@ =~= draw_plan(stages@, *cores, *memory));
    plan
}

/// Makes the draws of `plan` from `rng`, request by request in order, the
/// core draw of a request before its memory draw.
fn perform_draws(plan: &Vec<DrawRequest>, rng: &mut rand_pcg::Lcg128Xsl64) -> (drawn: Vec<(Option<u32>, Option<u64>)>)
    requires
        forall|i: int| 0 <= i < plan@.len() ==> match (#[trigger] plan@[i]).cores {
            Some(b) => b.0 <= b.1,
            None => true,
        } && match plan@[i].memory {
            Some(b) => b.0 <= b.1,
            None => true,
        },
    ensures
        drawn_within_plan(plan@, drawn@),
        (drawn@, *final(rng)) == plan_draws(plan@, *old(rng)),
{
    let ghost start = *rng;
    let mut drawn: Vec<(Option<u32>, Option<u64>)> = Vec::new();
    let mut i: usize = 0;
    assert(plan@.take(0) =~= Seq::<DrawRequest>::empty());
    while i < plan.len()
        invariant
            forall|q: int| 0 <= q < plan@.len() ==> match (#[trigger] plan@[q]).cores {
                Some(b) => b.0 <= b.1,
                None => true,
            } && match plan@[q].memory {
                Some(b) => b.0 <= b.1,
                None => true,
            },
            i <= plan@.len(),
            drawn_within_plan(plan@.take(i as int), drawn@),
            (drawn@, *rng) == plan_draws(plan@.take(i as int), start),
        decreases plan@.len() - i,
    {
        let req = plan[i];
        let ghost r0 = *rng;
        let c = match req.cores {
            None => None,
            Some((lo, hi)) => Some(draw_u32(rng, lo, hi)),
        };
        let ghost r1 = *rng;
        let m = match req.memory {
            None => None,
            Some((lo, hi)) => Some(draw_u64(rng, lo, hi)),
        };
        let ghost before = drawn@;
        drawn.push((c, m));
        proof {
            let pt = plan@.take(i + 1);
            assert(pt.drop_last() =~= plan@.take(i as int));
            assert(pt.last() == req);
            assert(request_draws(req, r0) == ((c, m), *rng));
            assert forall|q: int| 0 <= q < i + 1 implies ((#[trigger] drawn@[q]).0 is Some <==> pt[q].cores is Some)
                && (drawn@[q].1 is Some <==> pt[q].memory is Some) && match (drawn@[q].0, pt[q].cores) {
                    (Some(v), Some(b)) => b.0 <= v <= b.1,
                    _ => true,
                } && match (drawn@[q].1, pt[q].memory) {
                    (Some(v), Some(b)) => b.0 <= v <= b.1,
                    _ => true,
                } by {
                if q < i {
                    assert(drawn@[q] == before[q]);
                    assert(pt[q] == plan@.take(i as int)[q]);
                    assert(drawn_within_plan(plan@.take(i as int), before));
                    assert((before[q].0 is Some <==> plan@.take(i as int)[q].cores is Some));
                }
            }
        }
        i = i + 1;
    }
    assert(plan@.take(plan@.len() as int) =~= plan@);
    drawn
}

/// Builds the core count and memory value of each task from the values drawn
/// for the plan of the tasks.
pub fn assemble_task_resources(
    stages: &Vec<String>,
    fixed_cores: &Vec<u32>,
    cores: &Option<CoreRange>,
    memory: &Option<MemoryRange>,
    drawn: &Vec<(Option<u32>, Option<u64>)>,
) -> (res: Vec<(u32, Option<u64>)>)
    requires
        stages@.len() == fixed_cores@.len(),
        drawn_matches_plan(draw_plan(stages@, *cores, *memory), drawn@),
    ensures
        res@ == assembled_resources(stages@, fixed_cores@, *cores, *memory, drawn@),
{
    let ghost plan = draw_plan(stages@, *cores, *memory);
    let mut res: Vec<(u32, Option<u64>)> = Vec::new();
    let mut i: usize = 0;
    while i < stages.len()
        invariant
            stages@.len() == fixed_cores@.len(),
            plan == draw_plan(stages@, *cores, *memory),
            drawn_matches_plan(plan, drawn@),
            i <= stages@.len(),
            res@.len() == i,
            forall|q: int| 0 <= q < i ==> #[trigger] res@[q] == assembled_resources(stages@, fixed_cores@, *cores, *memory, drawn@)[q],
        decreases stages@.len() - i,
    {
        let earlier = earlier_of_stage(stages, i);
        proof {
            lemma_stage_leader(stages@, i as int);
            lemma_leader_of_leader(stages@, i as int);
            let l = stage_leader(stages@, i as int);
            assert(plan[l] == DrawRequest { cores: core_request(stages@, *cores, l), memory: memory_request(stages@, *memory, l) });
            assert(plan[i as int] == DrawRequest { cores: core_request(stages@, *cores, i as int), memory: memory_request(stages@, *memory, i as int) });
        }
        let c: u32 = match cores {
            None => fixed_cores[i],
            Some(range) => {
                let source = match earlier {
                    Some(j) if range.regular => j,
                    _ => i,
                };
                match drawn[source].0 {
                    Some(v) => v,
                    None => {
                        assert(false);
                        0
                    },
                }
            },
        };
        let m: Option<u64> = match memory {
            None => None,
            Some(range) => {
                let source = match earlier {
                    Some(j) if range.regular => j,
                    _ => i,
                };
                drawn[source].1
            },
        };
        res.push((c, m));
        i = i + 1;
    }
    assert(res@ =~= assembled_resources(stages@, fixed_cores@, *cores, *memory, drawn@));
    res
}

/// Generates the core count and the raw memory draw of each task: the draws
/// that `resource_draw_plan` lists are made from `rng`, task by task in order
/// (a task's core draw before its memory draw), and the result is
/// `assemble_task_resources` of the drawn values.
pub fn generate_task_resources(
    stages: &Vec<String>,
    fixed_cores: &Vec<u32>,
    cores: &Option<CoreRange>,
    memory: &Option<MemoryRange>,
    rng: &mut rand_pcg::Lcg128Xsl64,
) -> (res: Vec<(u32, Option<u64>)>)
    requires
        stages@.len() == fixed_cores@.len(),
        cores matches Some(c) ==> c.min <= c.max,
        memory matches Some(m) ==> m.min <= m.max,
    ensures
        ({
            let (drawn, after) = plan_draws(draw_plan(stages@, *cores, *memory), *old(rng));
            &&& drawn_within_plan(draw_plan(stages@, *cores, *memory), drawn)
            &&& res@ == assembled_resources(stages@, fixed_cores@, *cores, *memory, drawn)
            &&& *final(rng) == after
        }),
{
    let plan = resource_draw_plan(stages, cores, memory);
    let drawn = perform_draws(&plan, rng);
    assemble_task_resources(stages, fixed_cores, cores, memory, &drawn)
}

} // verus!
