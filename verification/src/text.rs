//! Character-level helpers for the text formats handled by the library.

use vstd::prelude::*;

verus! {

/// `String::push` appends one character to the end of the string, as its
/// documentation states.
pub assume_specification[ String::push ](string: &mut String, ch: char)
    ensures
        final(string)@ == old(string)@.push(ch),
;

/// The characters of `s`, in order.
pub fn chars_of(s: &str) -> (res: Vec<char>)
    ensures
        res@ == s@,
{
    broadcast use vstd::string::group_string_axioms;
    let mut res: Vec<char> = Vec::new();
    for c in it: s.chars()
        invariant
            res@ == it.seq().take(it.index() as int),
    {
        res.push(c);
    }
    res
}

/// `s[from..to]` spells `lit`.
pub fn chars_match(s: &Vec<char>, from: usize, to: usize, lit: &str) -> (res: bool)
    requires
        from <= to <= s@.len(),
    ensures
        res == (s@.subrange(from as int, to as int) == lit@),
{
    let l = chars_of(lit);
    if to - from != l.len() {
        return false;
    }
    let mut i: usize = 0;
    while i < l.len()
        invariant
            from <= to <= s@.len(),
            l@ == lit@,
            to - from == l@.len(),
            i <= l@.len(),
            forall|j: int| 0 <= j < i ==> s@[from + j] == l@[j],
        decreases l@.len() - i,
    {
        if s[from + i] != l[i] {
            assert(s@.subrange(from as int, to as int)[i as int] != lit@[i as int]);
            return false;
        }
        i = i + 1;
    }
    assert(s@.subrange(from as int, to as int) =~= lit@);
    true
}

/// A string made of the characters `cs[from..to]`.
pub fn string_of(cs: &Vec<char>, from: usize, to: usize) -> (res: String)
    requires
        from <= to <= cs@.len(),
    ensures
        res@ == cs@.subrange(from as int, to as int),
{
    let mut res = String::new();
    let mut i = from;
    while i < to
        invariant
            from <= i <= to <= cs@.len(),
            res@ == cs@.subrange(from as int, i as int),
        decreases to - i,
    {
        res.push(cs[i]);
        i = i + 1;
        assert(res@ =~= cs@.subrange(from as int, i as int));
    }
    res
}

/// The state of splitting `s` at `sep` from the left: the finished parts and
/// the part being read.
pub open spec fn split_state(s: Seq<char>, sep: char) -> (Seq<Seq<char>>, Seq<char>)
    decreases s.len(),
{
    if s.len() == 0 {
        (Seq::empty(), Seq::empty())
    } else {
        let st = split_state(s.drop_last(), sep);
        if s.last() == sep {
            (st.0.push(st.1), Seq::empty())
        } else {
            (st.0, st.1.push(s.last()))
        }
    }
}

/// The parts of `s` between the occurrences of `sep` (as `str::split` gives them).
pub open spec fn segments(s: Seq<char>, sep: char) -> Seq<Seq<char>> {
    let st = split_state(s, sep);
    st.0.push(st.1)
}

/// The character sequences of a list of character vectors.
pub open spec fn char_vec_views(v: Seq<Vec<char>>) -> Seq<Seq<char>> {
    v.map_values(|x: Vec<char>| x@)
}

/// Splits `s` at every `sep`.
pub fn split_chars(s: &Vec<char>, sep: char) -> (res: Vec<Vec<char>>)
    ensures
        char_vec_views(res@) == segments(s@, sep),
{
    let mut done: Vec<Vec<char>> = Vec::new();
    let mut cur: Vec<char> = Vec::new();
    let mut i: usize = 0;
    while i < s.len()
        invariant
            i <= s@.len(),
            char_vec_views(done@) == split_state(s@.take(i as int), sep).0,
            cur@ == split_state(s@.take(i as int), sep).1,
        decreases s@.len() - i,
    {
        let c = s[i];
        proof {
            assert(s@.take(i + 1).drop_last() =~= s@.take(i as int));
            assert(s@.take(i + 1).last() == c);
        }
        if c == sep {
            let part = cur;
            done.push(part);
            cur = Vec::new();
            assert(char_vec_views(done@) =~= split_state(s@.take(i + 1), sep).0);
        } else {
            cur.push(c);
        }
        i = i + 1;
    }
    assert(s@.take(s@.len() as int) =~= s@);
    done.push(cur);
    assert(char_vec_views(done@) =~= segments(s@, sep));
    done
}

} // verus!
