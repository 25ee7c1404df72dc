//! Choosing a placement policy from its textual description, such as
//! `"BestFitThreshold[threshold=0.8]"`.

use vstd::prelude::*;
use crate::text::{chars_of, chars_match, char_vec_views, segments, split_chars, string_of};

verus! {

/// The placement policies that a description can name.
#[derive(Clone, Copy, Debug, PartialEq, Eq, Structural)]
pub enum VmPlacementAlgorithmType {
    FirstFit,
    BestFit,
    WorstFit,
    BestFitThreshold,
}

/// The policy whose name is exactly `name`.
pub open spec fn placement_type_named(name: Seq<char>) -> Option<VmPlacementAlgorithmType> {
    if name == "FirstFit"@ {
        Some(VmPlacementAlgorithmType::FirstFit)
    } else if name == "BestFit"@ {
        Some(VmPlacementAlgorithmType::BestFit)
    } else if name == "WorstFit"@ {
        Some(VmPlacementAlgorithmType::WorstFit)
    } else if name == "BestFitThreshold"@ {
        Some(VmPlacementAlgorithmType::BestFitThreshold)
    } else {
        None
    }
}

/// The policy named by `s[from..to]`.
fn placement_type_of(s: &Vec<char>, from: usize, to: usize) -> (res: Option<VmPlacementAlgorithmType>)
    requires
        from <= to <= s@.len(),
    ensures
        res == placement_type_named(s@.subrange(from as int, to as int)),
{
    if chars_match(s, from, to, "FirstFit") {
        Some(VmPlacementAlgorithmType::FirstFit)
    } else if chars_match(s, from, to, "BestFit") {
        Some(VmPlacementAlgorithmType::BestFit)
    } else if chars_match(s, from, to, "WorstFit") {
        Some(VmPlacementAlgorithmType::WorstFit)
    } else if chars_match(s, from, to, "BestFitThreshold") {
        Some(VmPlacementAlgorithmType::BestFitThreshold)
    } else {
        None
    }
}

impl VmPlacementAlgorithmType {
    /// The policy whose name is exactly `name`, case included.
    pub fn from_name(name: &str) -> (res: Option<VmPlacementAlgorithmType>)
        ensures
            res == placement_type_named(name@),
    {
        let cs = chars_of(name);
        assert(cs@.subrange(0, cs@.len() as int) =~= name@);
        placement_type_of(&cs, 0, cs.len())
    }
}

impl core::str::FromStr for VmPlacementAlgorithmType {
    type Err = PlacementParseError;

    /// The policy named exactly `s`.
    fn from_str(s: &str) -> (res: Result<VmPlacementAlgorithmType, PlacementParseError>)
        ensures
            match placement_type_named(s@) {
                Some(t) => res == Ok::<VmPlacementAlgorithmType, PlacementParseError>(t),
                None => res == Err::<VmPlacementAlgorithmType, PlacementParseError>(PlacementParseError::UnknownAlgorithm),
            },
    {
        match VmPlacementAlgorithmType::from_name(s) {
            Some(t) => Ok(t),
            None => Err(PlacementParseError::UnknownAlgorithm),
        }
    }
}

/// Whether `c` is kept when a description is cleaned: closing brackets and
/// double quotes are dropped.
pub open spec fn kept_in_description(c: char) -> bool {
    c != ']' && c != '"'
}

/// A description with its closing brackets and double quotes removed.
pub open spec fn cleaned_description(raw: Seq<char>) -> Seq<char> {
    raw.filter(|c: char| kept_in_description(c))
}

/// `k` is the position of the first `c` in `s`.
pub open spec fn is_first_of(s: Seq<char>, c: char, k: int) -> bool {
    &&& 0 <= k < s.len()
    &&& s[k] == c
    &&& forall|j: int| 0 <= j < k ==> s[j] != c
}

/// The position of the first `c` in `s`, or the length of `s` when `s` has no `c`.
pub open spec fn first_of(s: Seq<char>, c: char) -> int {
    if exists|k: int| is_first_of(s, c, k) {
        choose|k: int| is_first_of(s, c, k)
    } else {
        s.len() as int
    }
}

/// Why a description names no policy.
#[derive(Clone, Copy, Debug, PartialEq, Eq, Structural)]
pub enum PlacementParseError {
    /// The part before the first `[` is not the name of a policy.
    UnknownAlgorithm,
    /// The description has no `[`, so it gives no argument list.
    MissingArguments,
}

/// A policy and the argument text it is to be configured with.
pub struct PlacementAlgorithmConfig {
    pub algorithm: VmPlacementAlgorithmType,
    pub args: String,
}

/// What a description names: the description is cleaned, then split at `[`;
/// the first part names the policy and the second is its argument text.
pub open spec fn parsed_description(raw: Seq<char>) -> Result<(VmPlacementAlgorithmType, Seq<char>), PlacementParseError> {
    let s = cleaned_description(raw);
    let p = first_of(s, '[');
    match placement_type_named(s.take(p)) {
        None => Err(PlacementParseError::UnknownAlgorithm),
        Some(t) => if p == s.len() {
            Err(PlacementParseError::MissingArguments)
        } else {
            let rest = s.skip(p + 1);
            Ok((t, rest.take(first_of(rest, '['))))
        },
    }
}

/// The position of the first `c` in `s[from..]`, or the length of `s`.
fn find_char(s: &Vec<char>, from: usize, c: char) -> (res: usize)
    requires
        from <= s@.len(),
    ensures
        res == from + first_of(s@.skip(from as int), c),
{
    let ghost t = s@.skip(from as int);
    let mut i: usize = from;
    while i < s.len()
        invariant
            from <= i <= s@.len(),
            t == s@.skip(from as int),
            forall|j: int| 0 <= j < i - from ==> t[j] != c,
        decreases s@.len() - i,
    {
        if s[i] == c {
            assert(is_first_of(t, c, i - from));
            let ghost k = choose|k: int| is_first_of(t, c, k);
            assert(k == i - from) by {
                if k < i - from {
                    assert(t[k] != c);
                } else if k > i - from {
                    assert(t[i - from] != c);
                }
            }
            return i;
        }
        i = i + 1;
    }
    assert(!exists|k: int| is_first_of(t, c, k)) by {
        if exists|k: int| is_first_of(t, c, k) {
            let k = choose|k: int| is_first_of(t, c, k);
            assert(t[k] != c);
        }
    }
    i
}

/// The characters of `raw` with closing brackets and double quotes removed.
fn clean_description(raw: &Vec<char>) -> (res: Vec<char>)
    ensures
        res@ == cleaned_description(raw@),
{
    let mut res: Vec<char> = Vec::new();
    let mut i: usize = 0;
    while i < raw.len()
        invariant
            i <= raw@.len(),
            res@ == cleaned_description(raw@.take(i as int)),
        decreases raw@.len() - i,
    {
        let c = raw[i];
        proof {
            reveal(Seq::filter);
            assert(raw@.take(i + 1).drop_last() =~= raw@.take(i as int));
            assert(raw@.take(i + 1).last() == c);
        }
        if c != ']' && c != '"' {
            res.push(c);
        }
        i = i + 1;
    }
    assert(raw@.take(raw@.len() as int) =~= raw@);
    res
}

/// Reads a placement policy description: closing brackets and double quotes
/// are removed, the text before the first `[` must name a policy and the text
/// between the first `[` and the next one (or the end) is its argument text.
pub fn parse_placement_algorithm(raw_data: String) -> (res: Result<PlacementAlgorithmConfig, PlacementParseError>)
    ensures
        match (res, parsed_description(raw_data@)) {
            (Ok(cfg), Ok((t, args))) => cfg.algorithm == t && cfg.args@ == args,
            (Err(e), Err(f)) => e == f,
            _ => false,
        },
{
    let raw = chars_of(raw_data.as_str());
    let s = clean_description(&raw);
    let p = find_char(&s, 0, '[');
    assert(s@.skip(0) =~= s@);
    assert(s@.subrange(0, p as int) =~= s@.take(p as int));
    match placement_type_of(&s, 0, p) {
        None => Err(PlacementParseError::UnknownAlgorithm),
        Some(algorithm) => {
            if p == s.len() {
                Err(PlacementParseError::MissingArguments)
            } else {
                let q = find_char(&s, p + 1, '[');
                let args = string_of(&s, p + 1, q);
                assert(s@.subrange(p + 1, q as int) =~= s@.skip(p + 1).take(q - (p + 1)));
                Ok(PlacementAlgorithmConfig { algorithm, args })
            }
        },
    }
}


/// A `key=value` entry of a policy's argument text names `key` but gives no value.
#[derive(Clone, Copy, Debug, PartialEq, Eq, Structural)]
pub enum ConfigArgError {
    MissingValue,
}

/// The values given to `key` in the comma-separated `key=value` entries
/// `entries`, in order (for each entry for `key`, the text between its first
/// and second `=`), and an error as soon as an entry for `key` has no `=`.
pub open spec fn config_values(entries: Seq<Seq<char>>, key: Seq<char>) -> Result<Seq<Seq<char>>, ConfigArgError>
    decreases entries.len(),
{
    if entries.len() == 0 {
        Ok(Seq::empty())
    } else {
        match config_values(entries.drop_last(), key) {
            Err(e) => Err(e),
            Ok(prev) => {
                let parts = segments(entries.last(), '=');
                if parts[0] != key {
                    Ok(prev)
                } else if parts.len() < 2 {
                    Err(ConfigArgError::MissingValue)
                } else {
                    Ok(prev.push(parts[1]))
                }
            },
        }
    }
}

/// An entry without a value stops the lookup for good.
proof fn lemma_values_error_sticks(entries: Seq<Seq<char>>, k: int, key: Seq<char>)
    requires
        0 <= k <= entries.len(),
        config_values(entries.take(k), key) is Err,
    ensures
        config_values(entries, key) is Err,
    decreases entries.len() - k,
{
    if k == entries.len() {
        assert(entries.take(k) =~= entries);
    } else {
        assert(entries.take(k + 1).drop_last() =~= entries.take(k));
        lemma_values_error_sticks(entries, k + 1, key);
    }
}

/// The values given to `key` in a policy argument text such as
/// `threshold=0.8,other=1`, in the order of the entries.
pub fn config_arg_values(config: &str, key: &str) -> (res: Result<Vec<String>, ConfigArgError>)
    ensures
        match (res, config_values(segments(config@, ','), key@)) {
            (Ok(v), Ok(w)) => v@.len() == w.len() && forall|i: int| 0 <= i < w.len() ==> #[trigger] v@[i]@ == w[i],
            (Err(e), Err(f)) => e == f,
            _ => false,
        },
{
    let s = chars_of(config);
    let k = chars_of(key);
    let entries = split_chars(&s, ',');
    let ghost ev = char_vec_views(entries@);
    assert(ev.len() == entries@.len());
    let mut found: Vec<String> = Vec::new();
    let mut i: usize = 0;
    while i < entries.len()
        invariant
            i <= entries@.len(),
            ev == char_vec_views(entries@),
            ev == segments(config@, ','),
            k@ == key@,
            config_values(ev.take(i as int), key@) matches Ok(prev) && found@.len() == prev.len()
                && forall|q: int| 0 <= q < prev.len() ==> #[trigger] found@[q]@ == prev[q],
        decreases entries@.len() - i,
    {
        let parts = split_chars(&entries[i], '=');
        assert(char_vec_views(parts@).len() == parts@.len());
        proof {
            assert(ev.take(i + 1).drop_last() =~= ev.take(i as int));
            assert(ev.take(i + 1).last() == entries@[i as int]@);
        }
        if chars_match(&parts[0], 0, parts[0].len(), key) {
            assert(parts@[0]@.subrange(0, parts@[0]@.len() as int) =~= parts@[0]@);
            if parts.len() < 2 {
                proof {
                    lemma_values_error_sticks(ev, i + 1, key@);
                }
                return Err(ConfigArgError::MissingValue);
            }
            let v = string_of(&parts[1], 0, parts[1].len());
            assert(parts@[1]@.subrange(0, parts@[1]@.len() as int) =~= parts@[1]@);
            found.push(v);
        } else {
            assert(parts@[0]@.subrange(0, parts@[0]@.len() as int) =~= parts@[0]@);
        }
        i = i + 1;
    }
    assert(ev.take(ev.len() as int) =~= ev);
    Ok(found)
}

/// A text without closing brackets and double quotes is left as it is by cleaning.
proof fn lemma_clean_keeps(s: Seq<char>)
    requires
        forall|i: int| 0 <= i < s.len() ==> kept_in_description(#[trigger] s[i]),
    ensures
        cleaned_description(s) == s,
    decreases s.len(),
{
    reveal(Seq::filter);
    if s.len() > 0 {
        lemma_clean_keeps(s.drop_last());
        assert(s.drop_last().push(s.last()) =~= s);
    }
}

/// The position of the first `c` in a text that has none is its length.
proof fn lemma_first_of_absent(s: Seq<char>, c: char)
    requires
        forall|i: int| 0 <= i < s.len() ==> #[trigger] s[i] != c,
    ensures
        first_of(s, c) == s.len(),
{
}

/// The names of the policies hold no bracket or double quote.
proof fn lemma_policy_names_plain(name: Seq<char>)
    requires
        placement_type_named(name) is Some,
    ensures
        forall|i: int|
            0 <= i < name.len() ==> kept_in_description(#[trigger] name[i]) && name[i] != '[',
{
    reveal_strlit("FirstFit");
    reveal_strlit("BestFit");
    reveal_strlit("WorstFit");
    reveal_strlit("BestFitThreshold");
}

/// A description written as a policy name, `[`, an argument text free of
/// brackets and double quotes, and `]` reads back as that policy and that text.
pub proof fn law_description_round_trip(name: Seq<char>, args: Seq<char>)
    requires
        placement_type_named(name) is Some,
        forall|i: int|
            0 <= i < args.len() ==> kept_in_description(#[trigger] args[i]) && args[i] != '[',
    ensures
        parsed_description(name + seq!['['] + args + seq![']'])
            == Ok::<(VmPlacementAlgorithmType, Seq<char>), PlacementParseError>(
            (placement_type_named(name)->0, args),
        ),
{
    broadcast use vstd::seq_lib::group_filter_ensures;
    lemma_policy_names_plain(name);
    let body = name + seq!['['] + args;
    let raw = body + seq![']'];
    lemma_clean_keeps(name);
    lemma_clean_keeps(args);
    reveal(Seq::filter);
    assert(raw.drop_last() =~= body);
    assert(cleaned_description(raw) == cleaned_description(body));
    Seq::filter_distributes_over_add(name + seq!['['], args, |c: char| kept_in_description(c));
    Seq::filter_distributes_over_add(name, seq!['['], |c: char| kept_in_description(c));
    assert(seq!['['].drop_last() =~= Seq::<char>::empty());
    assert(cleaned_description(seq!['[']) =~= seq!['[']);
    let s = cleaned_description(raw);
    assert(s =~= body);
    assert(is_first_of(s, '[', name.len() as int));
    assert(first_of(s, '[') == name.len()) by {
        let k = choose|k: int| is_first_of(s, '[', k);
        if k < name.len() {
            assert(s[k] == name[k]);
        } else if k > name.len() {
            assert(s[name.len() as int] == '[');
        }
    }
    assert(s.take(name.len() as int) =~= name);
    assert(s.skip(name.len() + 1int) =~= args);
    lemma_first_of_absent(args, '[');
    assert(args.take(args.len() as int) =~= args);
}

} // verus!
