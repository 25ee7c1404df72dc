//! What the data-item graph of a WfCommons workflow guarantees: a file read by
//! several tasks is one data item, every task depends on the files it reads,
//! and every parent of a task is among its predecessors.

use vstd::prelude::*;
use crate::wfcommons::{
    add_inputs, add_outputs, add_parents, after_dependencies, after_outputs, declared_inputs, declared_outputs, file_size,
    named_item, task_index, FileSpec, GraphState, SpecTask, WorkflowError,
};

verus! {

/// Task `consumer` depends on a data item produced by task `producer`.
pub open spec fn depends_on_producer(st: GraphState, consumer: int, producer: int) -> bool {
    exists|k: int|
        0 <= k < st.1.len() && (#[trigger] st.1[k]).1 == consumer && 0 <= st.1[k].0 < st.0.len()
            && st.0[st.1[k].0].2 == Some(producer)
}

/// Task `consumer` depends on a data item named `name`.
pub open spec fn reads_item(st: GraphState, consumer: int, name: Seq<char>) -> bool {
    exists|k: int|
        0 <= k < st.1.len() && (#[trigger] st.1[k]).1 == consumer && 0 <= st.1[k].0 < st.0.len()
            && st.0[st.1[k].0].0 == name
}

/// Every task of `preds` produces an item that `consumer` depends on.
pub open spec fn preds_witnessed(st: GraphState, preds: Set<int>, consumer: int) -> bool {
    forall|x: int| #[trigger] preds.contains(x) ==> depends_on_producer(st, consumer, x)
}

/// `b` keeps the items and dependencies of `a` and may add more after them.
pub open spec fn extends(a: GraphState, b: GraphState) -> bool {
    &&& a.0.len() <= b.0.len()
    &&& a.1.len() <= b.1.len()
    &&& forall|i: int| 0 <= i < a.0.len() ==> #[trigger] b.0[i] == a.0[i]
    &&& forall|k: int| 0 <= k < a.1.len() ==> #[trigger] b.1[k] == a.1[k]
}

/// Consistency of a graph under construction: registered names and
/// dependencies point at items, a registered item carries its name, every
/// item no task produces is registered, and no two such items share a name.
pub open spec fn graph_wf(st: GraphState) -> bool {
    &&& forall|k: int| 0 <= k < st.2.len() ==> 0 <= (#[trigger] st.2[k]).1 < st.0.len() && st.0[st.2[k].1].0 == st.2[k].0
    &&& forall|k: int| 0 <= k < st.1.len() ==> 0 <= (#[trigger] st.1[k]).0 < st.0.len()
    &&& forall|i: int| 0 <= i < st.0.len() && (#[trigger] st.0[i]).2 is None ==> named_item(st.2, st.0[i].0) is Some
    &&& forall|i: int, j: int|
        0 <= i < j < st.0.len() && (#[trigger] st.0[i]).2 is None && (#[trigger] st.0[j]).2 is None
            ==> st.0[i].0 != st.0[j].0
}

/// A name stays registered when more names are registered.
proof fn lemma_named_push(named: Seq<(Seq<char>, int)>, e: (Seq<char>, int), name: Seq<char>)
    ensures
        named_item(named, name) is Some ==> named_item(named.push(e), name) is Some,
        named_item(named.push(e), name) == (if e.0 == name { Some(e.1) } else { named_item(named, name) }),
{
    assert(named.push(e).drop_last() =~= named);
}

/// The item registered under a name is a registration of that name.
proof fn lemma_named_found(named: Seq<(Seq<char>, int)>, name: Seq<char>)
    requires
        named_item(named, name) is Some,
    ensures
        exists|k: int| 0 <= k < named.len() && #[trigger] named[k] == (name, named_item(named, name)->0),
    decreases named.len(),
{
    if named.last().0 == name {
        assert(named[named.len() - 1] == (name, named_item(named, name)->0));
    } else {
        lemma_named_found(named.drop_last(), name);
        let k = choose|k: int| 0 <= k < named.len() - 1 && #[trigger] named.drop_last()[k] == (name, named_item(named, name)->0);
        assert(named[k] == named.drop_last()[k]);
    }
}

/// Extending is transitive.
proof fn lemma_extends_trans(a: GraphState, b: GraphState, c: GraphState)
    requires
        extends(a, b),
        extends(b, c),
    ensures
        extends(a, c),
{
    assert forall|i: int| 0 <= i < a.0.len() implies #[trigger] c.0[i] == a.0[i] by {
        assert(c.0[i] == b.0[i]);
    }
    assert forall|k: int| 0 <= k < a.1.len() implies #[trigger] c.1[k] == a.1[k] by {
        assert(c.1[k] == b.1[k]);
    }
}

/// Dependencies of a graph stay in every extension of it.
proof fn lemma_extends_keeps(a: GraphState, b: GraphState, consumer: int)
    requires
        extends(a, b),
    ensures
        forall|x: int| depends_on_producer(a, consumer, x) ==> #[trigger] depends_on_producer(b, consumer, x),
        forall|n: Seq<char>| reads_item(a, consumer, n) ==> #[trigger] reads_item(b, consumer, n),
{
    assert forall|x: int| depends_on_producer(a, consumer, x) implies #[trigger] depends_on_producer(b, consumer, x) by {
        let k = choose|k: int|
            0 <= k < a.1.len() && (#[trigger] a.1[k]).1 == consumer && 0 <= a.1[k].0 < a.0.len() && a.0[a.1[k].0].2 == Some(x);
        assert(b.1[k] == a.1[k]);
        assert(b.0[a.1[k].0] == a.0[a.1[k].0]);
    }
    assert forall|n: Seq<char>| reads_item(a, consumer, n) implies #[trigger] reads_item(b, consumer, n) by {
        let k = choose|k: int|
            0 <= k < a.1.len() && (#[trigger] a.1[k]).1 == consumer && 0 <= a.1[k].0 < a.0.len() && a.0[a.1[k].0].0 == n;
        assert(b.1[k] == a.1[k]);
        assert(b.0[a.1[k].0] == a.0[a.1[k].0]);
    }
}

/// Adding the outputs of a task keeps the graph consistent.
proof fn lemma_add_outputs(st: GraphState, names: Seq<String>, files: Seq<FileSpec>, producer: int)
    requires
        graph_wf(st),
    ensures
        graph_wf(add_outputs(st, names, files, producer)),
        extends(st, add_outputs(st, names, files, producer)),
    decreases names.len(),
{
    if names.len() > 0 {
        let s0 = add_outputs(st, names.drop_last(), files, producer);
        lemma_add_outputs(st, names.drop_last(), files, producer);
        let name = names.last()@;
        match file_size(files, name) {
            None => {},
            Some(size) => {
                let r = add_outputs(st, names, files, producer);
                let l = s0.0.len() as int;
                assert(r == (s0.0.push((name, size, Some(producer))), s0.1, s0.2.push((name, l))));
                assert forall|i: int| 0 <= i < r.0.len() && (#[trigger] r.0[i]).2 is None implies named_item(r.2, r.0[i].0) is Some by {
                    assert(r.0[i] == s0.0[i]);
                    lemma_named_push(s0.2, (name, l), s0.0[i].0);
                }
                assert forall|k: int| 0 <= k < r.2.len() implies 0 <= (#[trigger] r.2[k]).1 < r.0.len() && r.0[r.2[k].1].0 == r.2[k].0 by {
                    if k < s0.2.len() {
                        assert(r.2[k] == s0.2[k]);
                    }
                }
                assert forall|i: int, j: int|
                    0 <= i < j < r.0.len() && (#[trigger] r.0[i]).2 is None && (#[trigger] r.0[j]).2 is None
                    implies r.0[i].0 != r.0[j].0 by {
                    assert(r.0[i] == s0.0[i]);
                    assert(r.0[j] == s0.0[j]);
                }
                lemma_extends_trans(st, s0, r);
            },
        }
    }
}

/// The graph is consistent once the outputs of the first `k` executed tasks
/// are added.
proof fn lemma_after_outputs(exec_ids: Seq<String>, tasks: Seq<SpecTask>, files: Seq<FileSpec>, k: nat)
    ensures
        graph_wf(after_outputs(exec_ids, tasks, files, k)),
    decreases k,
{
    if k > 0 {
        lemma_after_outputs(exec_ids, tasks, files, (k - 1) as nat);
        let st = after_outputs(exec_ids, tasks, files, (k - 1) as nat);
        match declared_outputs(tasks, exec_ids[k - 1]@) {
            None => {},
            Some(outs) => lemma_add_outputs(st, outs, files, k - 1),
        }
    }
}

/// Adding the inputs of a task keeps the graph consistent, witnesses every
/// predecessor it notes, and makes the task depend on an item named after
/// each input file that has a size.
proof fn lemma_add_inputs(st: GraphState, preds: Set<int>, names: Seq<String>, files: Seq<FileSpec>, consumer: int)
    requires
        graph_wf(st),
        preds_witnessed(st, preds, consumer),
    ensures
        graph_wf(add_inputs(st, preds, names, files, consumer).0),
        preds_witnessed(add_inputs(st, preds, names, files, consumer).0, add_inputs(st, preds, names, files, consumer).1, consumer),
        extends(st, add_inputs(st, preds, names, files, consumer).0),
        forall|q: int|
            0 <= q < names.len() && (file_size(files, (#[trigger] names[q])@) is Some)
                ==> reads_item(add_inputs(st, preds, names, files, consumer).0, consumer, names[q]@),
    decreases names.len(),
{
    if names.len() > 0 {
        let (s0, p0) = add_inputs(st, preds, names.drop_last(), files, consumer);
        lemma_add_inputs(st, preds, names.drop_last(), files, consumer);
        let name = names.last()@;
        let (r, pr) = add_inputs(st, preds, names, files, consumer);
        let l = s0.0.len() as int;
        match named_item(s0.2, name) {
            Some(id) => {
                lemma_named_found(s0.2, name);
                let kk = choose|kk: int| 0 <= kk < s0.2.len() && #[trigger] s0.2[kk] == (name, id);
                assert(0 <= id < l && s0.0[id].0 == name);
                assert(r == (s0.0, s0.1.push((id, consumer)), s0.2));
                assert(extends(s0, r));
                lemma_extends_keeps(s0, r, consumer);
                assert forall|k: int| 0 <= k < r.1.len() implies 0 <= (#[trigger] r.1[k]).0 < r.0.len() by {
                    if k < s0.1.len() {
                        assert(r.1[k] == s0.1[k]);
                    }
                }
                assert(r.1[s0.1.len() as int] == (id, consumer));
                assert(reads_item(r, consumer, name));
                assert forall|x: int| #[trigger] pr.contains(x) implies depends_on_producer(r, consumer, x) by {
                    if p0.contains(x) {
                        assert(depends_on_producer(s0, consumer, x));
                    } else {
                        assert(r.0[r.1[s0.1.len() as int].0].2 == Some(x));
                    }
                }
                assert forall|q: int|
                    0 <= q < names.len() && (file_size(files, (#[trigger] names[q])@) is Some)
                    implies reads_item(r, consumer, names[q]@) by {
                    if q < names.len() - 1 {
                        assert(names[q] == names.drop_last()[q]);
                        assert(reads_item(s0, consumer, names[q]@));
                    }
                }
                lemma_extends_trans(st, s0, r);
            },
            None => match file_size(files, name) {
                Some(size) => {
                    assert(r == (s0.0.push((name, size, None)), s0.1.push((l, consumer)), s0.2.push((name, l))));
                    assert(extends(s0, r));
                    lemma_extends_keeps(s0, r, consumer);
                    assert forall|k: int| 0 <= k < r.1.len() implies 0 <= (#[trigger] r.1[k]).0 < r.0.len() by {
                        if k < s0.1.len() {
                            assert(r.1[k] == s0.1[k]);
                        }
                    }
                    assert forall|k: int| 0 <= k < r.2.len() implies 0 <= (#[trigger] r.2[k]).1 < r.0.len() && r.0[r.2[k].1].0 == r.2[k].0 by {
                        if k < s0.2.len() {
                            assert(r.2[k] == s0.2[k]);
                            assert(r.0[s0.2[k].1] == s0.0[s0.2[k].1]);
                        }
                    }
                    assert forall|i: int| 0 <= i < r.0.len() && (#[trigger] r.0[i]).2 is None implies named_item(r.2, r.0[i].0) is Some by {
                        lemma_named_push(s0.2, (name, l), r.0[i].0);
                        if i < l {
                            assert(r.0[i] == s0.0[i]);
                        }
                    }
                    assert forall|i: int, j: int|
                        0 <= i < j < r.0.len() && (#[trigger] r.0[i]).2 is None && (#[trigger] r.0[j]).2 is None
                        implies r.0[i].0 != r.0[j].0 by {
                        assert(r.0[i] == s0.0[i]);
                        if j < l {
                            assert(r.0[j] == s0.0[j]);
                        } else {
                            assert(named_item(s0.2, s0.0[i].0) is Some);
                        }
                    }
                    assert(r.1[s0.1.len() as int] == (l, consumer));
                    assert(r.0[l].0 == name);
                    assert(reads_item(r, consumer, name));
                    assert forall|q: int|
                        0 <= q < names.len() && (file_size(files, (#[trigger] names[q])@) is Some)
                        implies reads_item(r, consumer, names[q]@) by {
                        if q < names.len() - 1 {
                            assert(names[q] == names.drop_last()[q]);
                            assert(reads_item(s0, consumer, names[q]@));
                        }
                    }
                    assert forall|x: int| #[trigger] pr.contains(x) implies depends_on_producer(r, consumer, x) by {
                        assert(depends_on_producer(s0, consumer, x));
                    }
                    lemma_extends_trans(st, s0, r);
                },
                None => {
                    assert forall|q: int|
                        0 <= q < names.len() && (file_size(files, (#[trigger] names[q])@) is Some)
                        implies reads_item(r, consumer, names[q]@) by {
                        if q < names.len() - 1 {
                            assert(names[q] == names.drop_last()[q]);
                        }
                    }
                },
            },
        }
    }
}


/// Adding the links of a task to its parents keeps the graph consistent and
/// makes every parent a witnessed predecessor of the task.
proof fn lemma_add_parents(
    st: GraphState,
    preds: Set<int>,
    parents: Seq<String>,
    exec_ids: Seq<String>,
    child: Seq<char>,
    consumer: int,
)
    requires
        graph_wf(st),
        preds_witnessed(st, preds, consumer),
    ensures
        add_parents(st, preds, parents, exec_ids, child, consumer) matches Ok((s, p)) ==> {
            &&& graph_wf(s)
            &&& preds_witnessed(s, p, consumer)
            &&& extends(st, s)
            &&& forall|x: int| preds.contains(x) ==> #[trigger] p.contains(x)
            &&& forall|q: int| 0 <= q < parents.len() ==> task_index(exec_ids, (#[trigger] parents[q])@) is Some
                && p.contains(task_index(exec_ids, parents[q]@)->0)
        },
    decreases parents.len(),
{
    if parents.len() > 0 {
        lemma_add_parents(st, preds, parents.drop_last(), exec_ids, child, consumer);
        match add_parents(st, preds, parents.drop_last(), exec_ids, child, consumer) {
            Err(_) => {},
            Ok((s0, p0)) => match task_index(exec_ids, parents.last()@) {
                None => {},
                Some(pid) => {
                    if p0.contains(pid) {
                        assert forall|q: int| 0 <= q < parents.len() implies task_index(exec_ids, (#[trigger] parents[q])@) is Some
                            && p0.contains(task_index(exec_ids, parents[q]@)->0) by {
                            if q < parents.len() - 1 {
                                assert(parents[q] == parents.drop_last()[q]);
                            }
                        }
                    } else {
                        let l = s0.0.len() as int;
                        let r = (
                            s0.0.push((crate::wfcommons::parent_link_name(parents.last()@, child), 0u64, Some(pid))),
                            s0.1.push((l, consumer)),
                            s0.2,
                        );
                        let pr = p0.insert(pid);
                        assert(add_parents(st, preds, parents, exec_ids, child, consumer) == Ok::<(GraphState, Set<int>), WorkflowError>((r, pr)));
                        assert(extends(s0, r));
                        lemma_extends_keeps(s0, r, consumer);
                        assert forall|k: int| 0 <= k < r.1.len() implies 0 <= (#[trigger] r.1[k]).0 < r.0.len() by {
                            if k < s0.1.len() {
                                assert(r.1[k] == s0.1[k]);
                            }
                        }
                        assert forall|k: int| 0 <= k < r.2.len() implies 0 <= (#[trigger] r.2[k]).1 < r.0.len() && r.0[r.2[k].1].0 == r.2[k].0 by {
                            assert(r.0[s0.2[k].1] == s0.0[s0.2[k].1]);
                        }
                        assert forall|i: int| 0 <= i < r.0.len() && (#[trigger] r.0[i]).2 is None implies named_item(r.2, r.0[i].0) is Some by {
                            assert(r.0[i] == s0.0[i]);
                        }
                        assert forall|i: int, j: int|
                            0 <= i < j < r.0.len() && (#[trigger] r.0[i]).2 is None && (#[trigger] r.0[j]).2 is None
                            implies r.0[i].0 != r.0[j].0 by {
                            assert(r.0[i] == s0.0[i]);
                            assert(r.0[j] == s0.0[j]);
                        }
                        assert(r.1[s0.1.len() as int] == (l, consumer));
                        assert(depends_on_producer(r, consumer, pid));
                        assert forall|x: int| #[trigger] pr.contains(x) implies depends_on_producer(r, consumer, x) by {
                            if x != pid {
                                assert(depends_on_producer(s0, consumer, x));
                            }
                        }
                        assert forall|q: int| 0 <= q < parents.len() implies task_index(exec_ids, (#[trigger] parents[q])@) is Some
                            && pr.contains(task_index(exec_ids, parents[q]@)->0) by {
                            if q < parents.len() - 1 {
                                assert(parents[q] == parents.drop_last()[q]);
                            }
                        }
                        lemma_extends_trans(st, s0, r);
                    }
                },
            },
        }
    }
}

/// One step of adding dependencies: from the state after `j - 1` declared
/// tasks to the state after `j`, the graph stays consistent and only grows,
/// task `j - 1` depends on an item named after each of its input files that
/// has a size, and on an item produced by each of its parents.
proof fn lemma_dependency_step(exec_ids: Seq<String>, tasks: Seq<SpecTask>, files: Seq<FileSpec>, j: nat)
    requires
        1 <= j <= tasks.len(),
        after_dependencies(exec_ids, tasks, files, (j - 1) as nat) matches Ok(prev) && graph_wf(prev),
        after_dependencies(exec_ids, tasks, files, j) is Ok,
    ensures
        ({
            let prev = after_dependencies(exec_ids, tasks, files, (j - 1) as nat)->Ok_0;
            let cur = after_dependencies(exec_ids, tasks, files, j)->Ok_0;
            let t = tasks[j - 1];
            let tid = task_index(exec_ids, t.id@)->0;
            &&& task_index(exec_ids, t.id@) is Some
            &&& graph_wf(cur)
            &&& extends(prev, cur)
            &&& forall|q: int| 0 <= q < t.parents@.len() ==> task_index(exec_ids, (#[trigger] t.parents@[q])@) is Some
                && depends_on_producer(cur, tid, task_index(exec_ids, t.parents@[q]@)->0)
            &&& declared_inputs(tasks, t.id@) matches Some(ins) ==> forall|q: int|
                0 <= q < ins.len() && (file_size(files, (#[trigger] ins[q])@) is Some) ==> reads_item(cur, tid, ins[q]@)
        }),
{
    let st = after_dependencies(exec_ids, tasks, files, (j - 1) as nat)->Ok_0;
    let t = tasks[j - 1];
    let tid = task_index(exec_ids, t.id@)->0;
    let (s1, p1) = match declared_inputs(tasks, t.id@) {
        None => (st, Set::<int>::empty()),
        Some(ins) => add_inputs(st, Set::<int>::empty(), ins, files, tid),
    };
    assert(preds_witnessed(st, Set::<int>::empty(), tid));
    match declared_inputs(tasks, t.id@) {
        None => {
            assert(extends(st, st));
        },
        Some(ins) => lemma_add_inputs(st, Set::<int>::empty(), ins, files, tid),
    }
    lemma_add_parents(s1, p1, t.parents@, exec_ids, t.id@, tid);
    let (s2, p2) = add_parents(s1, p1, t.parents@, exec_ids, t.id@, tid)->Ok_0;
    assert(after_dependencies(exec_ids, tasks, files, j) == Ok::<GraphState, WorkflowError>(s2));
    lemma_extends_trans(st, s1, s2);
    lemma_extends_keeps(s1, s2, tid);
    assert forall|q: int| 0 <= q < t.parents@.len() implies task_index(exec_ids, (#[trigger] t.parents@[q])@) is Some
        && depends_on_producer(s2, tid, task_index(exec_ids, t.parents@[q]@)->0) by {
        assert(p2.contains(task_index(exec_ids, t.parents@[q]@)->0));
    }
    match declared_inputs(tasks, t.id@) {
        None => {},
        Some(ins) => {
            assert forall|q: int| 0 <= q < ins.len() && (file_size(files, (#[trigger] ins[q])@) is Some)
                implies reads_item(s2, tid, ins[q]@) by {
                assert(reads_item(s1, tid, ins[q]@));
            }
        },
    }
}

/// The state after `j` declared tasks is consistent, when there is one.
proof fn lemma_after_dependencies(exec_ids: Seq<String>, tasks: Seq<SpecTask>, files: Seq<FileSpec>, j: nat)
    requires
        j <= tasks.len(),
        after_dependencies(exec_ids, tasks, files, j) is Ok,
    ensures
        graph_wf(after_dependencies(exec_ids, tasks, files, j)->Ok_0),
    decreases j,
{
    if j == 0 {
        lemma_after_outputs(exec_ids, tasks, files, exec_ids.len());
    } else {
        lemma_after_dependencies(exec_ids, tasks, files, (j - 1) as nat);
        lemma_dependency_step(exec_ids, tasks, files, j);
    }
}

/// The state after `j` declared tasks is kept in the state after `j2 >= j`.
proof fn lemma_dependencies_grow(exec_ids: Seq<String>, tasks: Seq<SpecTask>, files: Seq<FileSpec>, j: nat, j2: nat)
    requires
        j <= j2 <= tasks.len(),
        after_dependencies(exec_ids, tasks, files, j2) is Ok,
    ensures
        after_dependencies(exec_ids, tasks, files, j) is Ok,
        extends(after_dependencies(exec_ids, tasks, files, j)->Ok_0, after_dependencies(exec_ids, tasks, files, j2)->Ok_0),
    decreases j2 - j,
{
    if j == j2 {
        let a = after_dependencies(exec_ids, tasks, files, j)->Ok_0;
        assert(extends(a, a));
    } else {
        lemma_dependencies_grow(exec_ids, tasks, files, (j + 1) as nat, j2);
        lemma_after_dependencies(exec_ids, tasks, files, j2);
        assert(after_dependencies(exec_ids, tasks, files, j) is Ok);
        lemma_after_dependencies(exec_ids, tasks, files, j);
        lemma_dependency_step(exec_ids, tasks, files, (j + 1) as nat);
        lemma_extends_trans(
            after_dependencies(exec_ids, tasks, files, j)->Ok_0,
            after_dependencies(exec_ids, tasks, files, (j + 1) as nat)->Ok_0,
            after_dependencies(exec_ids, tasks, files, j2)->Ok_0,
        );
    }
}

/// A file that no task produces is one data item, however many tasks read
/// it: no two data items without a producer carry the same name.
pub proof fn law_unproduced_file_is_one_item(
    exec_ids: Seq<String>,
    tasks: Seq<SpecTask>,
    files: Seq<FileSpec>,
    st: GraphState,
    i: int,
    k: int,
)
    requires
        after_dependencies(exec_ids, tasks, files, tasks.len()) == Ok::<GraphState, WorkflowError>(st),
        0 <= i < k < st.0.len(),
        st.0[i].2 is None,
        st.0[k].2 is None,
    ensures
        st.0[i].0 != st.0[k].0,
{
    lemma_after_dependencies(exec_ids, tasks, files, tasks.len());
}

/// Every task depends on a data item named after each input file declared
/// for it that has a size.
pub proof fn law_tasks_read_their_input_files(
    exec_ids: Seq<String>,
    tasks: Seq<SpecTask>,
    files: Seq<FileSpec>,
    st: GraphState,
    j: int,
    q: int,
)
    requires
        after_dependencies(exec_ids, tasks, files, tasks.len()) == Ok::<GraphState, WorkflowError>(st),
        0 <= j < tasks.len(),
        declared_inputs(tasks, tasks[j].id@) matches Some(ins) && 0 <= q < ins.len() && file_size(files, ins[q]@) is Some,
    ensures
        task_index(exec_ids, tasks[j].id@) is Some,
        exists|d: int|
            0 <= d < st.1.len() && (#[trigger] st.1[d]).1 == task_index(exec_ids, tasks[j].id@)->0
                && 0 <= st.1[d].0 < st.0.len() && st.0[st.1[d].0].0 == (declared_inputs(tasks, tasks[j].id@)->0)[q]@,
{
    lemma_dependencies_grow(exec_ids, tasks, files, j as nat, tasks.len());
    lemma_dependencies_grow(exec_ids, tasks, files, (j + 1) as nat, tasks.len());
    lemma_after_dependencies(exec_ids, tasks, files, j as nat);
    lemma_dependency_step(exec_ids, tasks, files, (j + 1) as nat);
    let ins = declared_inputs(tasks, tasks[j].id@)->0;
    let tid = task_index(exec_ids, tasks[j].id@)->0;
    lemma_extends_keeps(after_dependencies(exec_ids, tasks, files, (j + 1) as nat)->Ok_0, st, tid);
    assert(reads_item(after_dependencies(exec_ids, tasks, files, (j + 1) as nat)->Ok_0, tid, ins[q]@));
    assert(reads_item(st, tid, ins[q]@));
}

/// Every parent of a declared task precedes it: the task depends on a data
/// item produced by the parent.
pub proof fn law_parents_precede_children(
    exec_ids: Seq<String>,
    tasks: Seq<SpecTask>,
    files: Seq<FileSpec>,
    st: GraphState,
    j: int,
    q: int,
)
    requires
        after_dependencies(exec_ids, tasks, files, tasks.len()) == Ok::<GraphState, WorkflowError>(st),
        0 <= j < tasks.len(),
        0 <= q < tasks[j].parents@.len(),
    ensures
        task_index(exec_ids, tasks[j].id@) is Some,
        task_index(exec_ids, tasks[j].parents@[q]@) is Some,
        exists|d: int|
            0 <= d < st.1.len() && (#[trigger] st.1[d]).1 == task_index(exec_ids, tasks[j].id@)->0
                && 0 <= st.1[d].0 < st.0.len()
                && st.0[st.1[d].0].2 == task_index(exec_ids, tasks[j].parents@[q]@),
{
    lemma_dependencies_grow(exec_ids, tasks, files, j as nat, tasks.len());
    lemma_dependencies_grow(exec_ids, tasks, files, (j + 1) as nat, tasks.len());
    lemma_after_dependencies(exec_ids, tasks, files, j as nat);
    lemma_dependency_step(exec_ids, tasks, files, (j + 1) as nat);
    let tid = task_index(exec_ids, tasks[j].id@)->0;
    let pid = task_index(exec_ids, tasks[j].parents@[q]@)->0;
    lemma_extends_keeps(after_dependencies(exec_ids, tasks, files, (j + 1) as nat)->Ok_0, st, tid);
    assert(depends_on_producer(after_dependencies(exec_ids, tasks, files, (j + 1) as nat)->Ok_0, tid, pid));
    assert(depends_on_producer(st, tid, pid));
}

} // verus!
