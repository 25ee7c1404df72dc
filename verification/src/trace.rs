//! Selecting jobs of a batch-cluster trace to turn into DAGs: the trace lists
//! each task of each job with its number of instances, and a job is taken when
//! all its tasks terminated and its size lies within the requested limits.

use vstd::prelude::*;
use itertools::Itertools;
use crate::text::{chars_of, chars_match};
use crate::numbers::{parse_u64, parsed_u64};

verus! {

/// Strict lexicographic order of texts, character by character. This is the
/// order of Rust strings: their UTF-8 bytes order as their code points do.
pub open spec fn text_lt(a: Seq<char>, b: Seq<char>) -> bool
    decreases a.len(),
{
    if a.len() == 0 {
        b.len() > 0
    } else if b.len() == 0 {
        false
    } else if a[0] != b[0] {
        a[0] < b[0]
    } else {
        text_lt(a.drop_first(), b.drop_first())
    }
}

/// No text comes before itself.
pub proof fn lemma_text_lt_irreflexive(a: Seq<char>)
    ensures
        !text_lt(a, a),
    decreases a.len(),
{
    if a.len() > 0 {
        lemma_text_lt_irreflexive(a.drop_first());
    }
}

/// Of two different texts, one comes before the other.
pub proof fn lemma_text_lt_total(a: Seq<char>, b: Seq<char>)
    requires
        a != b,
    ensures
        text_lt(a, b) || text_lt(b, a),
    decreases a.len(),
{
    if a.len() == 0 {
        if b.len() == 0 {
            assert(a =~= b);
        }
    } else if b.len() == 0 {
    } else if a[0] != b[0] {
    } else {
        if a.drop_first() == b.drop_first() {
            assert(a =~= seq![a[0]] + a.drop_first());
            assert(b =~= seq![b[0]] + b.drop_first());
        }
        lemma_text_lt_total(a.drop_first(), b.drop_first());
    }
}

/// Two texts do not each come before the other.
pub proof fn lemma_text_lt_asymmetric(a: Seq<char>, b: Seq<char>)
    ensures
        !(text_lt(a, b) && text_lt(b, a)),
    decreases a.len(),
{
    if a.len() > 0 && b.len() > 0 && a[0] == b[0] {
        lemma_text_lt_asymmetric(a.drop_first(), b.drop_first());
    }
}

/// The order of texts is transitive.
pub proof fn lemma_text_lt_transitive(a: Seq<char>, b: Seq<char>, c: Seq<char>)
    requires
        text_lt(a, b),
        text_lt(b, c),
    ensures
        text_lt(a, c),
    decreases a.len(),
{
    if a.len() > 0 && b.len() > 0 && c.len() > 0 && a[0] == b[0] && b[0] == c[0] {
        lemma_text_lt_transitive(a.drop_first(), b.drop_first(), c.drop_first());
    }
}

/// The jobs of `rows` never decrease.
pub open spec fn sorted_by_job(rows: Seq<(String, u64)>) -> bool {
    forall|i: int, j: int| 0 <= i < j < rows.len() ==> !text_lt(#[trigger] rows[j].0@, #[trigger] rows[i].0@)
}

/// Sorts task records by job (`slice::sort`: the result is a permutation of the
/// input, ordered by the tuple order, whose first component is the job name,
/// compared as `String`s are, lexicographically).
#[verifier::external_body]
fn sort_records(rows: &mut Vec<(String, u64)>)
    ensures
        final(rows)@.to_multiset() == old(rows)@.to_multiset(),
        sorted_by_job(final(rows)@),
{
    rows.sort();
}

/// The records of a list of groups, one group after the other.
pub open spec fn concat_groups(groups: Seq<Vec<(String, u64)>>) -> Seq<(String, u64)> {
    groups.map_values(|g: Vec<(String, u64)>| g@).flatten()
}

/// Splits records into runs of one job (`Itertools::chunk_by` keyed by the
/// job name: consecutive records with equal keys form one group, so the
/// groups are non-empty, hold one job each, follow each other in order and
/// neighbouring groups hold different jobs).
#[verifier::external_body]
fn group_by_job(rows: &Vec<(String, u64)>) -> (res: Vec<Vec<(String, u64)>>)
    ensures
        concat_groups(res@) == rows@,
        forall|k: int| 0 <= k < res@.len() ==> (#[trigger] res@[k])@.len() > 0,
        forall|k: int, i: int|
            0 <= k < res@.len() && 0 <= i < res@[k]@.len() ==> (#[trigger] res@[k]@[i]).0@ == res@[k]@[0].0@,
        forall|k: int| 0 < k < res@.len() ==> (#[trigger] res@[k])@[0].0@ != res@[k - 1]@[0].0@,
{
    let chunks = rows.iter().chunk_by(|&r| &r.0);
    chunks.into_iter().map(|(_, group)| group.cloned().collect()).collect()
}

/// Tasks whose name starts with `task` run outside any DAG and are skipped.
pub open spec fn is_independent_task(task_name: Seq<char>) -> bool {
    task_name.len() >= 4 && task_name.take(4) == "task"@
}

/// The instance count a task record stands for: tasks that did not terminate,
/// and counts that are not numbers, are marked with `u64::MAX`.
pub open spec fn recorded_instances(instance_num: Seq<char>, status: Seq<char>) -> u64 {
    if status == "Terminated"@ {
        match parsed_u64(instance_num) {
            Some(n) => n,
            None => u64::MAX,
        }
    } else {
        u64::MAX
    }
}

/// Turns the fields of a line of the task table into a `(job, instances)`
/// record, or `None` for a task that belongs to no DAG.
pub fn task_record(task_name: &str, instance_num: &str, job_name: &str, status: &str) -> (res: Option<(String, u64)>)
    ensures
        match res {
            None => is_independent_task(task_name@),
            Some(r) => !is_independent_task(task_name@) && r.0@ == job_name@
                && r.1 == recorded_instances(instance_num@, status@),
        },
        res matches Some(r) ==> (status@ != "Terminated"@ ==> r.1 == u64::MAX),
        res matches Some(r) ==> (status@ == "Terminated"@ && parsed_u64(instance_num@) is Some ==> r.1 == parsed_u64(instance_num@)->0),
{
    let name = chars_of(task_name);
    if name.len() >= 4 && chars_match(&name, 0, 4, "task") {
        assert(name@.take(4) =~= name@.subrange(0, 4));
        return None;
    }
    assert(name@.take(4) =~= name@.subrange(0, 4));
    let st = chars_of(status);
    let terminated = chars_match(&st, 0, st.len(), "Terminated");
    assert(st@.subrange(0, st@.len() as int) =~= st@);
    let instances = if !terminated {
        u64::MAX
    } else {
        match parse_u64(instance_num) {
            Some(n) => n,
            None => u64::MAX,
        }
    };
    proof {
        if status@ != "Terminated"@ {
            law_unterminated_task_is_marked(instance_num@, status@);
        }
    }
    Some((String::from_str(job_name), instances))
}

/// A task whose status is anything but `Terminated` is recorded as unfinished
/// (`u64::MAX`), whatever its instance count says.
pub proof fn law_unterminated_task_is_marked(instance_num: Seq<char>, status: Seq<char>)
    requires
        status != "Terminated"@,
    ensures
        recorded_instances(instance_num, status) == u64::MAX,
{
}

/// Bounds on the jobs to select and on how many to select.
pub struct JobLimits {
    pub min_ins: u64,
    pub max_ins: u64,
    pub min_tasks: u64,
    pub max_tasks: u64,
    pub max_dags: u64,
}

/// Counts the records of `job`.
pub open spec fn count_step(job: Seq<char>) -> spec_fn(int, (String, u64)) -> int {
    |acc: int, r: (String, u64)| acc + (if r.0@ == job { 1int } else { 0int })
}

/// Adds up the instances of the records of `job`.
pub open spec fn instances_step(job: Seq<char>) -> spec_fn(int, (String, u64)) -> int {
    |acc: int, r: (String, u64)| acc + (if r.0@ == job { r.1 as int } else { 0int })
}

/// The number of tasks of `job` in `rows`.
pub open spec fn job_task_count(rows: Seq<(String, u64)>, job: Seq<char>) -> int {
    rows.fold_left(0int, count_step(job))
}

/// The total number of instances of the tasks of `job` in `rows`.
pub open spec fn job_instance_total(rows: Seq<(String, u64)>, job: Seq<char>) -> int {
    rows.fold_left(0int, instances_step(job))
}

/// Whether `job` has a task in `rows`.
pub open spec fn job_listed(rows: Seq<(String, u64)>, job: Seq<char>) -> bool {
    exists|i: int| 0 <= i < rows.len() && #[trigger] rows[i].0@ == job
}

/// Whether some task of `job` did not terminate (or has no readable count).
pub open spec fn job_unfinished(rows: Seq<(String, u64)>, job: Seq<char>) -> bool {
    exists|i: int| 0 <= i < rows.len() && #[trigger] rows[i].0@ == job && rows[i].1 == u64::MAX
}

/// Whether `job` is eligible: listed, finished, and within the limits on
/// instances and tasks.
pub open spec fn job_eligible(rows: Seq<(String, u64)>, job: Seq<char>, limits: JobLimits) -> bool {
    &&& job_listed(rows, job)
    &&& !job_unfinished(rows, job)
    &&& limits.min_ins <= job_instance_total(rows, job) <= limits.max_ins
    &&& limits.min_tasks <= job_task_count(rows, job) <= limits.max_tasks
}

/// The records of `job` in `rows`, in order.
pub open spec fn records_of(rows: Seq<(String, u64)>, job: Seq<char>) -> Seq<(String, u64)> {
    rows.filter(|r: (String, u64)| r.0@ == job)
}

/// Counting the records of a job one by one gives the number of its records.
proof fn lemma_task_count_is_records(rows: Seq<(String, u64)>, job: Seq<char>)
    ensures
        job_task_count(rows, job) == records_of(rows, job).len(),
    decreases rows.len(),
{
    reveal(Seq::filter);
    if rows.len() > 0 {
        lemma_task_count_is_records(rows.drop_last(), job);
    }
}

/// An eligible job has between `min_tasks` and `max_tasks` records.
pub proof fn law_eligible_job_task_bounds(rows: Seq<(String, u64)>, job: Seq<char>, limits: JobLimits)
    requires
        job_eligible(rows, job, limits),
    ensures
        limits.min_tasks <= records_of(rows, job).len() <= limits.max_tasks,
{
    lemma_task_count_is_records(rows, job);
}

/// The total of the instance counts of `records`.
pub open spec fn instance_sum(records: Seq<(String, u64)>) -> int
    decreases records.len(),
{
    if records.len() == 0 {
        0
    } else {
        instance_sum(records.drop_last()) + records.last().1
    }
}

/// Adding up the instances of a job's records one by one gives the total of
/// its records.
proof fn lemma_instance_total_is_records(rows: Seq<(String, u64)>, job: Seq<char>)
    ensures
        job_instance_total(rows, job) == instance_sum(records_of(rows, job)),
    decreases rows.len(),
{
    reveal(Seq::filter);
    if rows.len() > 0 {
        lemma_instance_total_is_records(rows.drop_last(), job);
        let f = records_of(rows.drop_last(), job);
        if rows.last().0@ == job {
            assert(records_of(rows, job) == f.push(rows.last()));
            assert(records_of(rows, job).drop_last() =~= f);
        }
    }
}

/// The instance counts of the records of an eligible job add up to between
/// `min_ins` and `max_ins`.
pub proof fn law_eligible_job_instance_bounds(rows: Seq<(String, u64)>, job: Seq<char>, limits: JobLimits)
    requires
        job_eligible(rows, job, limits),
    ensures
        limits.min_ins <= instance_sum(records_of(rows, job)) <= limits.max_ins,
{
    lemma_instance_total_is_records(rows, job);
}

/// No record of an eligible job is marked unfinished.
pub proof fn law_eligible_job_all_terminated(rows: Seq<(String, u64)>, job: Seq<char>, limits: JobLimits)
    requires
        job_eligible(rows, job, limits),
    ensures
        forall|i: int| 0 <= i < rows.len() && #[trigger] rows[i].0@ == job ==> rows[i].1 != u64::MAX,
{
}

/// Reordering the records changes nothing about any job.
proof fn lemma_job_facts_permutation(a: Seq<(String, u64)>, b: Seq<(String, u64)>, job: Seq<char>)
    requires
        a.to_multiset() == b.to_multiset(),
    ensures
        job_task_count(a, job) == job_task_count(b, job),
        job_instance_total(a, job) == job_instance_total(b, job),
        job_listed(a, job) == job_listed(b, job),
        job_unfinished(a, job) == job_unfinished(b, job),
{
    broadcast use vstd::seq_lib::group_to_multiset_ensures;
    let c = count_step(job);
    let t = instances_step(job);
    assert(vstd::seq_lib::commutative_foldl(c));
    assert(vstd::seq_lib::commutative_foldl(t));
    vstd::seq_lib::lemma_fold_left_permutation(a, b, c, 0int);
    vstd::seq_lib::lemma_fold_left_permutation(a, b, t, 0int);
    if job_listed(a, job) {
        let i = choose|i: int| 0 <= i < a.len() && #[trigger] a[i].0@ == job;
        assert(a.contains(a[i]));
        vstd::seq_lib::to_multiset_contains(a, a[i]);
        vstd::seq_lib::to_multiset_contains(b, a[i]);
        assert(b.contains(a[i]));
        let k = choose|k: int| 0 <= k < b.len() && b[k] == a[i];
        assert(b[k].0@ == job);
    }
    if job_listed(b, job) {
        let i = choose|i: int| 0 <= i < b.len() && #[trigger] b[i].0@ == job;
        assert(b.contains(b[i]));
        vstd::seq_lib::to_multiset_contains(a, b[i]);
        vstd::seq_lib::to_multiset_contains(b, b[i]);
        assert(a.contains(b[i]));
        let k = choose|k: int| 0 <= k < a.len() && a[k] == b[i];
        assert(a[k].0@ == job);
    }
    if job_unfinished(a, job) {
        let i = choose|i: int| 0 <= i < a.len() && #[trigger] a[i].0@ == job && a[i].1 == u64::MAX;
        assert(a.contains(a[i]));
        vstd::seq_lib::to_multiset_contains(a, a[i]);
        vstd::seq_lib::to_multiset_contains(b, a[i]);
        assert(b.contains(a[i]));
        let k = choose|k: int| 0 <= k < b.len() && b[k] == a[i];
        assert(b[k].0@ == job && b[k].1 == u64::MAX);
    }
    if job_unfinished(b, job) {
        let i = choose|i: int| 0 <= i < b.len() && #[trigger] b[i].0@ == job && b[i].1 == u64::MAX;
        assert(b.contains(b[i]));
        vstd::seq_lib::to_multiset_contains(a, b[i]);
        vstd::seq_lib::to_multiset_contains(b, b[i]);
        assert(a.contains(b[i]));
        let k = choose|k: int| 0 <= k < a.len() && a[k] == b[i];
        assert(a[k].0@ == job && a[k].1 == u64::MAX);
    }
}

/// Folding over records of other jobs leaves the accumulator as it is.
proof fn lemma_fold_other_jobs(t: Seq<(String, u64)>, v: int, f: spec_fn(int, (String, u64)) -> int, job: Seq<char>)
    requires
        forall|acc: int, r: (String, u64)| r.0@ != job ==> #[trigger] f(acc, r) == acc,
        forall|k: int| 0 <= k < t.len() ==> (#[trigger] t[k]).0@ != job,
    ensures
        t.fold_left(v, f) == v,
    decreases t.len(),
{
    if t.len() > 0 {
        lemma_fold_other_jobs(t.drop_last(), v, f, job);
        assert(t[t.len() - 1].0@ != job);
    }
}

/// When the records of `job` are exactly `s[from..to]`, folding over `s`
/// is folding over that run.
proof fn lemma_fold_run(s: Seq<(String, u64)>, from: int, to: int, f: spec_fn(int, (String, u64)) -> int, job: Seq<char>)
    requires
        0 <= from <= to <= s.len(),
        forall|acc: int, r: (String, u64)| r.0@ != job ==> #[trigger] f(acc, r) == acc,
        forall|k: int| 0 <= k < from ==> (#[trigger] s[k]).0@ != job,
        forall|k: int| to <= k < s.len() ==> (#[trigger] s[k]).0@ != job,
    ensures
        s.fold_left(0int, f) == s.subrange(from, to).fold_left(0int, f),
{
    let pre = s.subrange(0, from);
    let rest = s.subrange(from, s.len() as int);
    s.lemma_fold_left_split(0int, f, from);
    assert forall|k: int| 0 <= k < pre.len() implies (#[trigger] pre[k]).0@ != job by {
        assert(pre[k] == s[k]);
    }
    lemma_fold_other_jobs(pre, 0int, f, job);
    let run = rest.subrange(0, to - from);
    let post = rest.subrange(to - from, rest.len() as int);
    rest.lemma_fold_left_split(0int, f, to - from);
    assert(run =~= s.subrange(from, to));
    assert forall|k: int| 0 <= k < post.len() implies (#[trigger] post[k]).0@ != job by {
        assert(post[k] == s[to + k]);
    }
    lemma_fold_other_jobs(post, run.fold_left(0int, f), f, job);
}

/// In records sorted by job, a run of one job that is delimited on both sides
/// holds all the records of that job.
proof fn lemma_sorted_run_is_whole(s: Seq<(String, u64)>, from: int, to: int)
    requires
        sorted_by_job(s),
        0 <= from < to <= s.len(),
        forall|k: int| from <= k < to ==> (#[trigger] s[k]).0@ == s[from].0@,
        from == 0 || s[from - 1].0@ != s[from].0@,
        to == s.len() || s[to].0@ != s[from].0@,
    ensures
        forall|k: int| 0 <= k < from ==> (#[trigger] s[k]).0@ != s[from].0@,
        forall|k: int| to <= k < s.len() ==> (#[trigger] s[k]).0@ != s[from].0@,
{
    let job = s[from].0@;
    assert forall|k: int| 0 <= k < from implies (#[trigger] s[k]).0@ != job by {
        if s[k].0@ == job {
            let p = s[from - 1].0@;
            lemma_text_lt_total(p, job);
            assert(!text_lt(job, p)) by {
                assert(!text_lt(s[from - 1].0@, s[k].0@) || k == from - 1);
            }
            assert(!text_lt(p, job));
        }
    }
    assert forall|k: int| to <= k < s.len() implies (#[trigger] s[k]).0@ != job by {
        if s[k].0@ == job {
            let q = s[to].0@;
            lemma_text_lt_total(q, job);
            assert(!text_lt(q, job));
            assert(!text_lt(job, q)) by {
                assert(!text_lt(s[k].0@, s[to].0@) || k == to);
            }
        }
    }
}

/// Selects the jobs to turn into DAGs: among the eligible jobs (listed,
/// finished, within the limits on instances and tasks), the first
/// `max_dags` in order of their names.
pub fn select_jobs(rows: Vec<(String, u64)>, limits: &JobLimits) -> (res: Vec<String>)
    ensures
        res@.len() <= limits.max_dags,
        forall|a: int, b: int| 0 <= a < b < res@.len() ==> text_lt(res@[a]@, res@[b]@),
        forall|m: int| 0 <= m < res@.len() ==> job_eligible(rows@, #[trigger] res@[m]@, *limits),
        forall|job: Seq<char>|
            #[trigger] job_eligible(rows@, job, *limits) && !(exists|m: int| 0 <= m < res@.len() && res@[m]@ == job)
                ==> res@.len() == limits.max_dags && forall|m: int| 0 <= m < res@.len() ==> text_lt(#[trigger] res@[m]@, job),
        forall|m: int| 0 <= m < res@.len() ==> limits.min_tasks <= #[trigger] records_of(rows@, res@[m]@).len() <= limits.max_tasks,
        forall|m: int| 0 <= m < res@.len() ==> limits.min_ins <= #[trigger] instance_sum(records_of(rows@, res@[m]@)) <= limits.max_ins,
        forall|m: int, i: int| 0 <= m < res@.len() && 0 <= i < rows@.len() && #[trigger] rows@[i].0@ == #[trigger] res@[m]@
            ==> rows@[i].1 != u64::MAX,
{
    let ghost rows0 = rows@;
    let mut s = rows;
    sort_records(&mut s);
    assert forall|job: Seq<char>| #[trigger] job_eligible(s@, job, *limits) == job_eligible(rows@, job, *limits) by {
        lemma_job_facts_permutation(s@, rows@, job);
    }
    let groups = group_by_job(&s);
    let n = s.len();
    let ng = groups.len();
    let mut res: Vec<String> = Vec::new();
    let mut k: usize = 0;
    let ghost mut off: int = 0;
    assert(groups@.subrange(0, ng as int) =~= groups@);
    assert(s@.skip(0) =~= s@);
    while k < ng && (res.len() as u64) < limits.max_dags
        invariant
            n == s@.len(),
            ng == groups@.len(),
            sorted_by_job(s@),
            forall|job: Seq<char>| #[trigger] job_eligible(s@, job, *limits) == job_eligible(rows@, job, *limits),
            forall|j: int| 0 <= j < groups@.len() ==> (#[trigger] groups@[j])@.len() > 0,
            forall|j: int, i: int|
                0 <= j < groups@.len() && 0 <= i < groups@[j]@.len() ==> (#[trigger] groups@[j]@[i]).0@ == groups@[j]@[0].0@,
            forall|j: int| 0 < j < groups@.len() ==> (#[trigger] groups@[j])@[0].0@ != groups@[j - 1]@[0].0@,
            k <= ng,
            0 <= off <= n,
            s@.skip(off) == concat_groups(groups@.subrange(k as int, ng as int)),
            k == 0 <==> off == 0,
            k > 0 ==> s@[off - 1].0@ == groups@[k - 1]@[0].0@,
            res@.len() <= limits.max_dags,
            forall|a: int, b: int| 0 <= a < b < res@.len() ==> text_lt(res@[a]@, res@[b]@),
            forall|m: int| 0 <= m < res@.len() ==> job_eligible(s@, #[trigger] res@[m]@, *limits),
            forall|m: int, j: int| 0 <= m < res@.len() && off <= j < n ==> text_lt(#[trigger] res@[m]@, #[trigger] s@[j].0@),
            forall|j: int| 0 <= j < off && #[trigger] job_eligible(s@, s@[j].0@, *limits)
                ==> exists|m: int| 0 <= m < res@.len() && res@[m]@ == s@[j].0@,
        decreases ng - k,
    {
        let g = &groups[k];
        let len = g.len();
        let ghost job = g@[0].0@;
        let ghost rest = groups@.subrange(k + 1, ng as int);
        proof {
            assert(groups@.subrange(k as int, ng as int).map_values(|g: Vec<(String, u64)>| g@).drop_first()
                =~= rest.map_values(|g: Vec<(String, u64)>| g@));
            assert(s@.skip(off) == g@ + concat_groups(rest));
            assert forall|i: int| 0 <= i < len implies #[trigger] s@[off + i] == g@[i] by {
                assert(s@.skip(off)[i] == s@[off + i]);
            }
            assert(s@.skip(off + len) =~= concat_groups(rest)) by {
                assert(s@.skip(off + len) =~= s@.skip(off).skip(len as int));
            }
            assert(s@.subrange(off, off + len) =~= g@);
        }
        let mut count: u64 = 0;
        let mut total: u64 = 0;
        let mut overflow = false;
        let mut unfinished = false;
        let mut t: usize = 0;
        while t < len
            invariant
                len == g@.len(),
                len > 0,
                job == g@[0].0@,
                forall|i: int| 0 <= i < len ==> (#[trigger] g@[i]).0@ == job,
                t <= len,
                count == t,
                count as int == g@.take(t as int).fold_left(0int, count_step(job)),
                overflow == (g@.take(t as int).fold_left(0int, instances_step(job)) > u64::MAX),
                !overflow ==> total as int == g@.take(t as int).fold_left(0int, instances_step(job)),
                unfinished == exists|i: int| 0 <= i < t && (#[trigger] g@[i]).1 == u64::MAX,
            decreases len - t,
        {
            proof {
                assert(g@.take(t + 1).drop_last() =~= g@.take(t as int));
                assert(g@.take(t + 1).last() == g@[t as int]);
            }
            let v = g[t].1;
            if v == u64::MAX {
                unfinished = true;
            }
            if !overflow {
                match total.checked_add(v) {
                    Some(x) => {
                        total = x;
                    },
                    None => {
                        overflow = true;
                    },
                }
            }
            count = count + 1;
            t = t + 1;
        }
        let ghost end = off + len;
        proof {
            assert(g@.take(len as int) =~= g@);
            assert forall|j: int| off <= j < end implies (#[trigger] s@[j]).0@ == s@[off].0@ by {
                assert(s@[j] == g@[j - off]);
                assert(s@[off] == g@[0]);
            }
            assert(s@[off].0@ == job) by {
                assert(s@[off] == g@[0]);
            }
            if k > 0 {
                assert(s@[off - 1].0@ != s@[off].0@);
            }
            if end < n {
                assert(k + 1 < ng) by {
                    if k + 1 == ng {
                        assert(rest.len() == 0);
                        assert(concat_groups(rest) =~= Seq::<(String, u64)>::empty());
                    }
                }
                assert(rest.map_values(|g: Vec<(String, u64)>| g@)[0] == groups@[k + 1]@);
                assert(s@.skip(end)[0] == groups@[k + 1]@[0]);
                assert(s@[end] == groups@[k + 1]@[0]);
            }
            lemma_sorted_run_is_whole(s@, off, end);
            lemma_fold_run(s@, off, end, count_step(job), job);
            lemma_fold_run(s@, off, end, instances_step(job), job);
            assert(job_listed(s@, job)) by {
                assert(s@[off].0@ == job);
            }
            if job_unfinished(s@, job) {
                let j = choose|j: int| 0 <= j < s@.len() && #[trigger] s@[j].0@ == job && s@[j].1 == u64::MAX;
                assert(off <= j < end);
                assert(g@[j - off] == s@[j]);
            }
            if unfinished {
                let i = choose|i: int| 0 <= i < len && (#[trigger] g@[i]).1 == u64::MAX;
                assert(s@[off + i] == g@[i]);
            }
        }
        let eligible = !unfinished && !overflow && limits.min_ins <= total && total <= limits.max_ins
            && limits.min_tasks <= count && count <= limits.max_tasks;
        assert(eligible == job_eligible(s@, job, *limits));
        let ghost res_before = res@;
        if eligible {
            let name = g[0].0.clone();
            res.push(name);
        }
        proof {
            assert forall|m: int, j: int| 0 <= m < res@.len() && end <= j < n implies text_lt(#[trigger] res@[m]@, #[trigger] s@[j].0@) by {
                if m < res_before.len() {
                    assert(res@[m] == res_before[m]);
                    assert(text_lt(res_before[m]@, s@[j].0@));
                } else {
                    assert(s@[j].0@ != job);
                    assert(!text_lt(s@[j].0@, s@[off].0@));
                    lemma_text_lt_total(job, s@[j].0@);
                }
            }
            assert forall|j: int| 0 <= j < end && #[trigger] job_eligible(s@, s@[j].0@, *limits)
                implies exists|m: int| 0 <= m < res@.len() && res@[m]@ == s@[j].0@ by {
                if j >= off {
                    assert(res@[res@.len() - 1]@ == s@[j].0@);
                } else {
                    let m = choose|m: int| 0 <= m < res_before.len() && res_before[m]@ == s@[j].0@;
                    assert(res@[m] == res_before[m]);
                }
            }
            if eligible {
                assert forall|a: int, b: int| 0 <= a < b < res@.len() implies text_lt(res@[a]@, res@[b]@) by {
                    if b == res@.len() - 1 {
                        assert(res@[a] == res_before[a]);
                        assert(text_lt(res_before[a]@, s@[off].0@));
                    } else {
                        assert(res@[a] == res_before[a]);
                        assert(res@[b] == res_before[b]);
                    }
                }
            } else {
                assert(res@ == res_before);
            }
            assert(s@[end - 1].0@ == groups@[k as int]@[0].0@);
            off = end;
        }
        k = k + 1;
    }
    proof {
        if k == ng {
            assert(concat_groups(groups@.subrange(ng as int, ng as int)) =~= Seq::<(String, u64)>::empty());
            assert(off == n) by {
                assert(s@.skip(off).len() == 0);
            }
        }
        assert forall|job: Seq<char>|
            #[trigger] job_eligible(rows@, job, *limits) && !(exists|m: int| 0 <= m < res@.len() && res@[m]@ == job)
            implies res@.len() == limits.max_dags && forall|m: int| 0 <= m < res@.len() ==> text_lt(#[trigger] res@[m]@, job) by {
            assert(job_eligible(s@, job, *limits));
            let j = choose|j: int| 0 <= j < s@.len() && #[trigger] s@[j].0@ == job;
            if j < off {
                assert(job_eligible(s@, s@[j].0@, *limits));
            }
            assert forall|m: int| 0 <= m < res@.len() implies text_lt(#[trigger] res@[m]@, job) by {
                assert(text_lt(res@[m]@, s@[j].0@));
            }
        }
        assert forall|m: int| 0 <= m < res@.len() implies limits.min_tasks <= #[trigger] records_of(rows0, res@[m]@).len() <= limits.max_tasks by {
            law_eligible_job_task_bounds(rows0, res@[m]@, *limits);
        }
        assert forall|m: int| 0 <= m < res@.len() implies limits.min_ins <= #[trigger] instance_sum(records_of(rows0, res@[m]@)) <= limits.max_ins by {
            law_eligible_job_instance_bounds(rows0, res@[m]@, *limits);
        }
        assert forall|m: int, i: int| 0 <= m < res@.len() && 0 <= i < rows0.len() && #[trigger] rows0[i].0@ == #[trigger] res@[m]@
            implies rows0[i].1 != u64::MAX by {
            law_eligible_job_all_terminated(rows0, res@[m]@, *limits);
        }
    }
    res
}

} // verus!
