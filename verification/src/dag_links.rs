//! Dependencies between the instances of a job of a batch-cluster trace.
//!
//! A task name such as `R5_2_3` names task 5 of its job and says that it
//! depends on tasks 2 and 3; the text before the first `_` names the task
//! (its leading non-digits dropped) and each later part names a task it
//! depends on. Every instance of a task receives one input link from every
//! instance of each task it depends on.

use vstd::prelude::*;
use vstd::multiset::Multiset;
use crate::text::{chars_of, char_vec_views, segments, split_chars};

verus! {

/// Whether `c` is an ASCII decimal digit.
pub open spec fn is_digit(c: char) -> bool {
    '0' <= c <= '9'
}

/// `s` without its leading characters that are not digits.
pub open spec fn skip_non_digits(s: Seq<char>) -> Seq<char>
    decreases s.len(),
{
    if s.len() == 0 || is_digit(s[0]) {
        s
    } else {
        skip_non_digits(s.drop_first())
    }
}

/// The task a task name names: its first part, leading non-digits dropped.
pub open spec fn task_key(task_name: Seq<char>) -> Seq<char> {
    skip_non_digits(segments(task_name, '_')[0])
}

/// The tasks a task name says it depends on: its parts after the first.
pub open spec fn task_deps(task_name: Seq<char>) -> Seq<Seq<char>> {
    segments(task_name, '_').drop_first()
}

/// `s[k..]` once its leading non-digits are dropped.
fn skip_non_digit_chars(s: &Vec<char>) -> (res: Vec<char>)
    ensures
        res@ == skip_non_digits(s@),
{
    let mut k: usize = 0;
    assert(s@.skip(0) =~= s@);
    while k < s.len() && !(s[k] >= '0' && s[k] <= '9')
        invariant
            k <= s@.len(),
            skip_non_digits(s@) == skip_non_digits(s@.skip(k as int)),
        decreases s@.len() - k,
    {
        assert(s@.skip(k as int).drop_first() =~= s@.skip(k + 1));
        k = k + 1;
    }
    let mut res: Vec<char> = Vec::new();
    let mut i: usize = k;
    while i < s.len()
        invariant
            k <= i <= s@.len(),
            res@ == s@.subrange(k as int, i as int),
        decreases s@.len() - i,
    {
        res.push(s[i]);
        i = i + 1;
        assert(res@ =~= s@.subrange(k as int, i as int));
    }
    assert(s@.subrange(k as int, s@.len() as int) =~= s@.skip(k as int));
    res
}

/// The task named by `task_name` and the tasks it depends on.
fn task_key_and_deps(task_name: &String) -> (res: (Vec<char>, Vec<Vec<char>>))
    ensures
        res.0@ == task_key(task_name@),
        char_vec_views(res.1@) == task_deps(task_name@),
{
    let s = chars_of(task_name.as_str());
    let mut parts = split_chars(&s, '_');
    assert(char_vec_views(parts@).len() == parts@.len());
    let key = skip_non_digit_chars(&parts[0]);
    let deps = parts.split_off(1);
    assert(char_vec_views(deps@) =~= task_deps(task_name@));
    (key, deps)
}


/// The instance records of a job as texts: instance name and task name.
pub open spec fn record_texts(records: Seq<(String, String)>) -> Seq<(Seq<char>, Seq<char>)> {
    records.map_values(|r: (String, String)| (r.0@, r.1@))
}

/// No record before `r` has the instance name of record `r`.
pub open spec fn is_first_named(rows: Seq<(Seq<char>, Seq<char>)>, r: int) -> bool {
    forall|q: int| 0 <= q < r ==> rows[q].0 != rows[r].0
}

/// The first record that has the instance name of record `r`; the links of
/// all records with one name are gathered there.
pub open spec fn name_owner(rows: Seq<(Seq<char>, Seq<char>)>, r: int) -> int {
    choose|q: int| 0 <= q <= r && rows[q].0 == rows[r].0 && is_first_named(rows, q)
}

/// The name of the link from instance `from` to instance `to`.
pub open spec fn link_name(from: Seq<char>, to: Seq<char>) -> Seq<char> {
    "from_"@ + from + "_to_"@ + to
}

/// The links into record `q` for dependency `dep`, from the records before
/// `p_end` whose task is `dep`, as (producer, consumer) pairs.
pub open spec fn producer_links(rows: Seq<(Seq<char>, Seq<char>)>, q: int, dep: Seq<char>, p_end: nat) -> Seq<(int, int)>
    decreases p_end,
{
    if p_end == 0 {
        Seq::empty()
    } else {
        let p = p_end - 1;
        producer_links(rows, q, dep, (p_end - 1) as nat) + (if task_key(rows[p].1) == dep {
            seq![(p, q)]
        } else {
            Seq::empty()
        })
    }
}

/// The links into record `q` for its first `d_end` dependencies.
pub open spec fn dependency_links(rows: Seq<(Seq<char>, Seq<char>)>, q: int, d_end: nat) -> Seq<(int, int)>
    decreases d_end,
{
    if d_end == 0 {
        Seq::empty()
    } else {
        dependency_links(rows, q, (d_end - 1) as nat) + producer_links(
            rows,
            q,
            task_deps(rows[q].1)[d_end - 1],
            rows.len(),
        )
    }
}

/// The links into the records before `q_end`, record by record, dependency by
/// dependency, producer by producer.
pub open spec fn all_links(rows: Seq<(Seq<char>, Seq<char>)>, q_end: nat) -> Seq<(int, int)>
    decreases q_end,
{
    if q_end == 0 {
        Seq::empty()
    } else {
        all_links(rows, (q_end - 1) as nat) + dependency_links(
            rows,
            q_end - 1,
            task_deps(rows[q_end - 1].1).len(),
        )
    }
}

/// The names of the links of `links` whose consumer's name is owned by record `g`.
pub open spec fn inputs_owned(rows: Seq<(Seq<char>, Seq<char>)>, links: Seq<(int, int)>, g: int) -> Seq<Seq<char>>
    decreases links.len(),
{
    if links.len() == 0 {
        Seq::empty()
    } else {
        let l = links.last();
        let prev = inputs_owned(rows, links.drop_last(), g);
        if name_owner(rows, l.1) == g {
            prev.push(link_name(rows[l.0].0, rows[l.1].0))
        } else {
            prev
        }
    }
}

/// The names of the links of `links` whose producer's name is owned by record `g`.
pub open spec fn outputs_owned(rows: Seq<(Seq<char>, Seq<char>)>, links: Seq<(int, int)>, g: int) -> Seq<Seq<char>>
    decreases links.len(),
{
    if links.len() == 0 {
        Seq::empty()
    } else {
        let l = links.last();
        let prev = outputs_owned(rows, links.drop_last(), g);
        if name_owner(rows, l.0) == g {
            prev.push(link_name(rows[l.0].0, rows[l.1].0))
        } else {
            prev
        }
    }
}

/// The texts of a list of strings.
pub open spec fn string_views(v: Seq<String>) -> Seq<Seq<char>> {
    v.map_values(|s: String| s@)
}

/// Every record has an earliest record with its instance name.
proof fn lemma_name_owner(rows: Seq<(Seq<char>, Seq<char>)>, r: int)
    requires
        0 <= r < rows.len(),
    ensures
        0 <= name_owner(rows, r) <= r,
        rows[name_owner(rows, r)].0 == rows[r].0,
        is_first_named(rows, name_owner(rows, r)),
    decreases r,
{
    if is_first_named(rows, r) {
        assert(0 <= r <= r && rows[r].0 == rows[r].0 && is_first_named(rows, r));
    } else {
        let q = choose|q: int| 0 <= q < r && rows[q].0 == rows[r].0;
        lemma_name_owner(rows, q);
        let o = name_owner(rows, q);
        assert(0 <= o <= r && rows[o].0 == rows[r].0 && is_first_named(rows, o));
    }
}

/// A record whose instance name already appeared earlier gets no links: all
/// links of that name are given at its first record.
pub proof fn law_repeated_name_has_no_links(rows: Seq<(Seq<char>, Seq<char>)>, links: Seq<(int, int)>, r: int)
    requires
        0 <= r < rows.len(),
        !is_first_named(rows, r),
        links_within(rows, links),
    ensures
        inputs_owned(rows, links, r) == Seq::<Seq<char>>::empty(),
        outputs_owned(rows, links, r) == Seq::<Seq<char>>::empty(),
    decreases links.len(),
{
    if links.len() > 0 {
        let l = links.last();
        assert(l == links[links.len() - 1]);
        lemma_name_owner(rows, l.0);
        lemma_name_owner(rows, l.1);
        law_repeated_name_has_no_links(rows, links.drop_last(), r);
    }
}

/// Links join records of the job.
pub open spec fn links_within(rows: Seq<(Seq<char>, Seq<char>)>, links: Seq<(int, int)>) -> bool {
    forall|k: int| 0 <= k < links.len() ==> 0 <= (#[trigger] links[k]).0 < rows.len() && 0 <= links[k].1 < rows.len()
}

proof fn lemma_producer_links_within(rows: Seq<(Seq<char>, Seq<char>)>, q: int, dep: Seq<char>, p_end: nat)
    requires
        0 <= q < rows.len(),
        p_end <= rows.len(),
    ensures
        links_within(rows, producer_links(rows, q, dep, p_end)),
    decreases p_end,
{
    if p_end > 0 {
        lemma_producer_links_within(rows, q, dep, (p_end - 1) as nat);
    }
}

proof fn lemma_dependency_links_within(rows: Seq<(Seq<char>, Seq<char>)>, q: int, d_end: nat)
    requires
        0 <= q < rows.len(),
    ensures
        links_within(rows, dependency_links(rows, q, d_end)),
    decreases d_end,
{
    if d_end > 0 {
        lemma_dependency_links_within(rows, q, (d_end - 1) as nat);
        lemma_producer_links_within(rows, q, task_deps(rows[q].1)[d_end - 1], rows.len());
    }
}

/// All links of a job join records of the job.
pub proof fn lemma_all_links_within(rows: Seq<(Seq<char>, Seq<char>)>, q_end: nat)
    requires
        q_end <= rows.len(),
    ensures
        links_within(rows, all_links(rows, q_end)),
    decreases q_end,
{
    if q_end > 0 {
        lemma_all_links_within(rows, (q_end - 1) as nat);
        lemma_dependency_links_within(rows, q_end - 1, task_deps(rows[q_end - 1].1).len());
    }
}

/// The number of input link names gathered at the records before `g_end`.
pub open spec fn inputs_total(rows: Seq<(Seq<char>, Seq<char>)>, links: Seq<(int, int)>, g_end: nat) -> nat
    decreases g_end,
{
    if g_end == 0 {
        0
    } else {
        inputs_total(rows, links, (g_end - 1) as nat) + inputs_owned(rows, links, g_end - 1).len()
    }
}

/// The number of output link names gathered at the records before `g_end`.
pub open spec fn outputs_total(rows: Seq<(Seq<char>, Seq<char>)>, links: Seq<(int, int)>, g_end: nat) -> nat
    decreases g_end,
{
    if g_end == 0 {
        0
    } else {
        outputs_total(rows, links, (g_end - 1) as nat) + outputs_owned(rows, links, g_end - 1).len()
    }
}

/// One more link adds one name at the owner of its consumer and one at the
/// owner of its producer.
proof fn lemma_totals_push(rows: Seq<(Seq<char>, Seq<char>)>, links: Seq<(int, int)>, l: (int, int), g_end: nat)
    requires
        0 <= l.0 < rows.len(),
        0 <= l.1 < rows.len(),
        g_end <= rows.len(),
    ensures
        inputs_total(rows, links.push(l), g_end) == inputs_total(rows, links, g_end) + (if name_owner(rows, l.1) < g_end { 1int } else { 0int }),
        outputs_total(rows, links.push(l), g_end) == outputs_total(rows, links, g_end) + (if name_owner(rows, l.0) < g_end { 1int } else { 0int }),
    decreases g_end,
{
    lemma_name_owner(rows, l.0);
    lemma_name_owner(rows, l.1);
    assert(links.push(l).drop_last() =~= links);
    if g_end > 0 {
        lemma_totals_push(rows, links, l, (g_end - 1) as nat);
    }
}

/// Every link is given exactly once as an input and exactly once as an
/// output: in all, the records get as many input names and as many output
/// names as there are links.
pub proof fn law_each_link_given_once_each_way(rows: Seq<(Seq<char>, Seq<char>)>, links: Seq<(int, int)>)
    requires
        links_within(rows, links),
    ensures
        inputs_total(rows, links, rows.len()) == links.len(),
        outputs_total(rows, links, rows.len()) == links.len(),
    decreases links.len(),
{
    if links.len() == 0 {
        lemma_totals_empty(rows, links, rows.len());
    } else {
        let l = links.last();
        assert(l == links[links.len() - 1]);
        law_each_link_given_once_each_way(rows, links.drop_last());
        lemma_totals_push(rows, links.drop_last(), l, rows.len());
        assert(links.drop_last().push(l) =~= links);
        lemma_name_owner(rows, l.0);
        lemma_name_owner(rows, l.1);
    }
}

/// Without links no record gets a name.
proof fn lemma_totals_empty(rows: Seq<(Seq<char>, Seq<char>)>, links: Seq<(int, int)>, g_end: nat)
    requires
        links.len() == 0,
    ensures
        inputs_total(rows, links, g_end) == 0,
        outputs_total(rows, links, g_end) == 0,
    decreases g_end,
{
    if g_end > 0 {
        lemma_totals_empty(rows, links, (g_end - 1) as nat);
    }
}

/// The input link names gathered at the records before `g_end`, as a multiset.
pub open spec fn inputs_bag(rows: Seq<(Seq<char>, Seq<char>)>, links: Seq<(int, int)>, g_end: nat) -> Multiset<Seq<char>>
    decreases g_end,
{
    if g_end == 0 {
        Multiset::empty()
    } else {
        inputs_bag(rows, links, (g_end - 1) as nat).add(inputs_owned(rows, links, g_end - 1).to_multiset())
    }
}

/// The output link names gathered at the records before `g_end`, as a multiset.
pub open spec fn outputs_bag(rows: Seq<(Seq<char>, Seq<char>)>, links: Seq<(int, int)>, g_end: nat) -> Multiset<Seq<char>>
    decreases g_end,
{
    if g_end == 0 {
        Multiset::empty()
    } else {
        outputs_bag(rows, links, (g_end - 1) as nat).add(outputs_owned(rows, links, g_end - 1).to_multiset())
    }
}

/// The names of `links`, in order.
pub open spec fn link_names(rows: Seq<(Seq<char>, Seq<char>)>, links: Seq<(int, int)>) -> Seq<Seq<char>> {
    links.map_values(|l: (int, int)| link_name(rows[l.0].0, rows[l.1].0))
}

/// One more link adds its name once to the input names, at the owner of its
/// consumer, and once to the output names, at the owner of its producer.
proof fn lemma_bags_push(rows: Seq<(Seq<char>, Seq<char>)>, links: Seq<(int, int)>, l: (int, int), g_end: nat)
    requires
        0 <= l.0 < rows.len(),
        0 <= l.1 < rows.len(),
    ensures
        inputs_bag(rows, links.push(l), g_end) == (if name_owner(rows, l.1) < g_end {
            inputs_bag(rows, links, g_end).insert(link_name(rows[l.0].0, rows[l.1].0))
        } else {
            inputs_bag(rows, links, g_end)
        }),
        outputs_bag(rows, links.push(l), g_end) == (if name_owner(rows, l.0) < g_end {
            outputs_bag(rows, links, g_end).insert(link_name(rows[l.0].0, rows[l.1].0))
        } else {
            outputs_bag(rows, links, g_end)
        }),
    decreases g_end,
{
    broadcast use vstd::multiset::group_multiset_axioms;
    broadcast use vstd::seq_lib::group_to_multiset_ensures;
    let name = link_name(rows[l.0].0, rows[l.1].0);
    lemma_name_owner(rows, l.0);
    lemma_name_owner(rows, l.1);
    assert(links.push(l).drop_last() =~= links);
    if g_end > 0 {
        let g = g_end - 1;
        lemma_bags_push(rows, links, l, g as nat);
        assert(links.push(l).last() == l);
        assert(inputs_owned(rows, links.push(l), g) == (if name_owner(rows, l.1) == g {
            inputs_owned(rows, links, g).push(name)
        } else {
            inputs_owned(rows, links, g)
        }));
        assert(outputs_owned(rows, links.push(l), g) == (if name_owner(rows, l.0) == g {
            outputs_owned(rows, links, g).push(name)
        } else {
            outputs_owned(rows, links, g)
        }));
        let ib = inputs_bag(rows, links, g as nat);
        let ii = inputs_owned(rows, links, g).to_multiset();
        let ob = outputs_bag(rows, links, g as nat);
        let oo = outputs_owned(rows, links, g).to_multiset();
        assert(ib.insert(name).add(ii) =~= ib.add(ii).insert(name));
        assert(ib.add(ii.insert(name)) =~= ib.add(ii).insert(name));
        assert(ob.insert(name).add(oo) =~= ob.add(oo).insert(name));
        assert(ob.add(oo.insert(name)) =~= ob.add(oo).insert(name));
    }
}

/// Every link is given once as an input and once as an output: the input
/// names of all records and their output names are the same multiset, that
/// of the names of all links.
pub proof fn law_input_names_match_output_names(rows: Seq<(Seq<char>, Seq<char>)>, links: Seq<(int, int)>)
    requires
        links_within(rows, links),
    ensures
        inputs_bag(rows, links, rows.len()) == link_names(rows, links).to_multiset(),
        outputs_bag(rows, links, rows.len()) == link_names(rows, links).to_multiset(),
    decreases links.len(),
{
    broadcast use vstd::multiset::group_multiset_axioms;
    broadcast use vstd::seq_lib::group_to_multiset_ensures;
    if links.len() == 0 {
        lemma_bags_empty(rows, links, rows.len());
        assert(link_names(rows, links) =~= Seq::<Seq<char>>::empty());
    } else {
        let l = links.last();
        assert(l == links[links.len() - 1]);
        let rest = links.drop_last();
        law_input_names_match_output_names(rows, rest);
        lemma_bags_push(rows, rest, l, rows.len());
        assert(rest.push(l) =~= links);
        lemma_name_owner(rows, l.0);
        lemma_name_owner(rows, l.1);
        assert(link_names(rows, links) =~= link_names(rows, rest).push(link_name(rows[l.0].0, rows[l.1].0)));
    }
}

/// Without links the multisets of names are empty.
proof fn lemma_bags_empty(rows: Seq<(Seq<char>, Seq<char>)>, links: Seq<(int, int)>, g_end: nat)
    requires
        links.len() == 0,
    ensures
        inputs_bag(rows, links, g_end) == Multiset::<Seq<char>>::empty(),
        outputs_bag(rows, links, g_end) == Multiset::<Seq<char>>::empty(),
    decreases g_end,
{
    broadcast use vstd::multiset::group_multiset_axioms;
    broadcast use vstd::seq_lib::group_to_multiset_ensures;
    if g_end > 0 {
        lemma_bags_empty(rows, links, (g_end - 1) as nat);
        assert(inputs_owned(rows, links, g_end - 1) =~= Seq::<Seq<char>>::empty());
        assert(outputs_owned(rows, links, g_end - 1) =~= Seq::<Seq<char>>::empty());
        assert(Multiset::<Seq<char>>::empty().add(Seq::<Seq<char>>::empty().to_multiset()) =~= Multiset::<Seq<char>>::empty());
    }
}

/// The links of one instance record: the names of the links into it and out
/// of it.
pub struct InstanceLinks {
    pub inputs: Vec<String>,
    pub outputs: Vec<String>,
}

/// The record owning the name of record `r`.
fn find_name_owner(records: &Vec<(String, String)>, r: usize) -> (res: usize)
    requires
        r < records@.len(),
    ensures
        res == name_owner(record_texts(records@), r as int),
        res <= r,
{
    let ghost rows = record_texts(records@);
    let mut q: usize = 0;
    while q < r && !(records[q].0 == records[r].0)
        invariant
            q <= r < records@.len(),
            rows == record_texts(records@),
            forall|j: int| 0 <= j < q ==> rows[j].0 != rows[r as int].0,
        decreases r - q,
    {
        q = q + 1;
    }
    proof {
        assert(rows[q as int].0 == rows[r as int].0);
        assert(is_first_named(rows, q as int));
        let o = name_owner(rows, r as int);
        assert(0 <= o <= r && rows[o].0 == rows[r as int].0 && is_first_named(rows, o));
        if o < q {
            assert(rows[o].0 != rows[r as int].0);
        } else if o > q {
            assert(rows[q as int].0 != rows[o].0);
        }
    }
    q
}

/// Whether two character vectors are equal.
fn same_chars(a: &Vec<char>, b: &Vec<char>) -> (res: bool)
    ensures
        res == (a@ == b@),
{
    if a.len() != b.len() {
        return false;
    }
    let mut i: usize = 0;
    while i < a.len()
        invariant
            a@.len() == b@.len(),
            i <= a@.len(),
            forall|j: int| 0 <= j < i ==> a@[j] == b@[j],
        decreases a@.len() - i,
    {
        if a[i] != b[i] {
            return false;
        }
        i = i + 1;
    }
    assert(a@ =~= b@);
    true
}

/// The name of the link from `from` to `to`.
fn make_link_name(from: &String, to: &String) -> (res: String)
    ensures
        res@ == link_name(from@, to@),
{
    let mut name = String::from_str("from_");
    name.append(from.as_str());
    name.append("_to_");
    name.append(to.as_str());
    name
}


/// For every instance record of a job, the names of the links into it and out
/// of it. A link `from_A_to_B` joins every instance `A` of a task to every
/// instance `B` of a task that depends on it; where several records share an
/// instance name, all their links are given at the first of them and the
/// others get none.
pub fn instance_links(records: &Vec<(String, String)>) -> (res: Vec<InstanceLinks>)
    ensures
        res@.len() == records@.len(),
        forall|r: int|
            0 <= r < res@.len() ==> string_views(#[trigger] res@[r].inputs@) == inputs_owned(
                record_texts(records@),
                all_links(record_texts(records@), records@.len()),
                r,
            ) && string_views(res@[r].outputs@) == outputs_owned(
                record_texts(records@),
                all_links(record_texts(records@), records@.len()),
                r,
            ),
{
    let n = records.len();
    let ghost rows = record_texts(records@);
    let mut keys: Vec<Vec<char>> = Vec::new();
    let mut deps: Vec<Vec<Vec<char>>> = Vec::new();
    let mut owners: Vec<usize> = Vec::new();
    let mut links: Vec<InstanceLinks> = Vec::new();
    let mut r: usize = 0;
    while r < n
        invariant
            n == records@.len(),
            rows == record_texts(records@),
            r <= n,
            keys@.len() == r,
            deps@.len() == r,
            owners@.len() == r,
            links@.len() == r,
            forall|j: int| 0 <= j < r ==> (#[trigger] keys@[j])@ == task_key(rows[j].1),
            forall|j: int| 0 <= j < r ==> char_vec_views((#[trigger] deps@[j])@) == task_deps(rows[j].1),
            forall|j: int| 0 <= j < r ==> #[trigger] owners@[j] == name_owner(rows, j) && owners@[j] <= j,
            forall|j: int| 0 <= j < r ==> (#[trigger] links@[j]).inputs@.len() == 0 && links@[j].outputs@.len() == 0,
        decreases n - r,
    {
        let (k, d) = task_key_and_deps(&records[r].1);
        keys.push(k);
        deps.push(d);
        owners.push(find_name_owner(records, r));
        links.push(InstanceLinks { inputs: Vec::new(), outputs: Vec::new() });
        r = r + 1;
    }
    let ghost mut done: Seq<(int, int)> = Seq::empty();
    assert forall|g: int| 0 <= g < n implies string_views((#[trigger] links@[g]).inputs@) == inputs_owned(rows, done, g)
        && string_views(links@[g].outputs@) == outputs_owned(rows, done, g) by {
        assert(string_views(links@[g].inputs@) =~= Seq::<Seq<char>>::empty());
        assert(string_views(links@[g].outputs@) =~= Seq::<Seq<char>>::empty());
    }
    let mut q: usize = 0;
    while q < n
        invariant
            n == records@.len(),
            rows == record_texts(records@),
            q <= n,
            keys@.len() == n,
            deps@.len() == n,
            owners@.len() == n,
            links@.len() == n,
            forall|j: int| 0 <= j < n ==> (#[trigger] keys@[j])@ == task_key(rows[j].1),
            forall|j: int| 0 <= j < n ==> char_vec_views((#[trigger] deps@[j])@) == task_deps(rows[j].1),
            forall|j: int| 0 <= j < n ==> #[trigger] owners@[j] == name_owner(rows, j) && owners@[j] <= j,
            done == all_links(rows, q as nat),
            forall|g: int| 0 <= g < n ==> string_views((#[trigger] links@[g]).inputs@) == inputs_owned(rows, done, g)
                && string_views(links@[g].outputs@) == outputs_owned(rows, done, g),
        decreases n - q,
    {
        let nd = deps[q].len();
        assert(char_vec_views(deps@[q as int]@).len() == nd);
        let ghost base = done;
        let mut di: usize = 0;
        assert(base + dependency_links(rows, q as int, 0) =~= base);
        while di < nd
            invariant
                n == records@.len(),
                rows == record_texts(records@),
                q < n,
                keys@.len() == n,
                deps@.len() == n,
                owners@.len() == n,
                links@.len() == n,
                nd == deps@[q as int]@.len(),
                nd == task_deps(rows[q as int].1).len(),
                forall|j: int| 0 <= j < n ==> (#[trigger] keys@[j])@ == task_key(rows[j].1),
                forall|j: int| 0 <= j < n ==> char_vec_views((#[trigger] deps@[j])@) == task_deps(rows[j].1),
                forall|j: int| 0 <= j < n ==> #[trigger] owners@[j] == name_owner(rows, j) && owners@[j] <= j,
                base == all_links(rows, q as nat),
                di <= nd,
                done == base + dependency_links(rows, q as int, di as nat),
                forall|g: int| 0 <= g < n ==> string_views((#[trigger] links@[g]).inputs@) == inputs_owned(rows, done, g)
                    && string_views(links@[g].outputs@) == outputs_owned(rows, done, g),
            decreases nd - di,
        {
            let ghost dep = task_deps(rows[q as int].1)[di as int];
            assert(deps@[q as int]@[di as int]@ == dep);
            let ghost base_d = done;
            assert(base_d + producer_links(rows, q as int, dep, 0) =~= base_d);
            let mut p: usize = 0;
            while p < n
                invariant
                    n == records@.len(),
                    rows == record_texts(records@),
                    q < n,
                    p <= n,
                    di < nd,
                    keys@.len() == n,
                    deps@.len() == n,
                    owners@.len() == n,
                    links@.len() == n,
                    nd == deps@[q as int]@.len(),
                    deps@[q as int]@[di as int]@ == dep,
                    forall|j: int| 0 <= j < n ==> (#[trigger] keys@[j])@ == task_key(rows[j].1),
                    forall|j: int| 0 <= j < n ==> #[trigger] owners@[j] == name_owner(rows, j) && owners@[j] <= j,
                    done == base_d + producer_links(rows, q as int, dep, p as nat),
                    forall|g: int| 0 <= g < n ==> string_views((#[trigger] links@[g]).inputs@) == inputs_owned(rows, done, g)
                        && string_views(links@[g].outputs@) == outputs_owned(rows, done, g),
                decreases n - p,
            {
                if same_chars(&keys[p], &deps[q][di]) {
                    let e = make_link_name(&records[p].0, &records[q].0);
                    let gq = owners[q];
                    let gp = owners[p];
                    let ghost before = links@;
                    let ghost old_done = done;
                    proof {
                        done = done.push((p as int, q as int));
                        assert(done.drop_last() =~= old_done);
                        assert(rows[p as int].0 == records@[p as int].0@);
                        assert(rows[q as int].0 == records@[q as int].0@);
                    }
                    links[gq].inputs.push(e.clone());
                    links[gp].outputs.push(e);
                    assert forall|g: int| 0 <= g < n implies string_views((#[trigger] links@[g]).inputs@) == inputs_owned(rows, done, g)
                        && string_views(links@[g].outputs@) == outputs_owned(rows, done, g) by {
                        assert(string_views(before[g].inputs@) == inputs_owned(rows, old_done, g));
                        assert(string_views(before[g].outputs@) == outputs_owned(rows, old_done, g));
                        if g == gq {
                            assert(string_views(links@[g].inputs@) =~= string_views(before[g].inputs@).push(link_name(rows[p as int].0, rows[q as int].0)));
                        } else {
                            assert(links@[g].inputs@ == before[g].inputs@);
                        }
                        if g == gp {
                            assert(string_views(links@[g].outputs@) =~= string_views(before[g].outputs@).push(link_name(rows[p as int].0, rows[q as int].0)));
                        } else {
                            assert(links@[g].outputs@ == before[g].outputs@);
                        }
                    }
                }
                proof {
                    assert(base_d + producer_links(rows, q as int, dep, (p + 1) as nat) =~= done);
                }
                p = p + 1;
            }
            proof {
                assert(base + dependency_links(rows, q as int, (di + 1) as nat) =~= done);
            }
            di = di + 1;
        }
        proof {
            assert(all_links(rows, (q + 1) as nat) =~= done);
        }
        q = q + 1;
    }
    links
}

} // verus!
