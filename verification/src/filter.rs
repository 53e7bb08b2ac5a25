//! Substring filtering of the process table: a row is kept iff the filter
//! text occurs in its name or in the decimal rendering of its pid. Matching
//! is case-sensitive, and empty text keeps everything.
use vstd::prelude::*;
use crate::records::MyProcess;
use crate::strings::chars_contain;
use crate::strings::dec_digits;
use crate::strings::is_substr;
use crate::strings::pid_chars;
use crate::strings::str_contains;

verus! {

/// A row passes the filter iff the text occurs in its name or in the
/// decimal rendering of its pid.
pub open spec fn row_matches(p: MyProcess, text: Seq<char>) -> bool {
    is_substr(text, p.name@) || is_substr(text, dec_digits(p.pid as nat))
}

/// The rows that pass the filter, in input order.
pub open spec fn filter_rows(s: Seq<MyProcess>, text: Seq<char>) -> Seq<MyProcess> {
    s.filter(|p: MyProcess| row_matches(p, text))
}

/// Decides the filter on one row.
pub fn row_match(p: &MyProcess, text: &str) -> (r: bool)
    ensures
        r == row_matches(*p, text@),
{
    if str_contains(p.name.as_str(), text) {
        true
    } else {
        let digits = pid_chars(p.pid);
        chars_contain(&digits, text)
    }
}

/// Retains the rows the filter text matches, in their input order.
pub fn filter_processes(procs: &Vec<MyProcess>, text: &str) -> (r: Vec<MyProcess>)
    ensures
        r@ == filter_rows(procs@, text@),
{
    let ghost pred = |p: MyProcess| row_matches(p, text@);
    let mut out: Vec<MyProcess> = Vec::new();
    let mut i: usize = 0;
    proof {
        reveal(Seq::filter);
        assert(procs@.subrange(0, 0) =~= Seq::<MyProcess>::empty());
        assert(filter_rows(procs@.subrange(0, 0), text@) =~= Seq::<MyProcess>::empty());
    }
    while i < procs.len()
        invariant
            i <= procs@.len(),
            pred == (|p: MyProcess| row_matches(p, text@)),
            out@ == filter_rows(procs@.subrange(0, i as int), text@),
        decreases procs@.len() - i,
    {
        if row_match(&procs[i], text) {
            out.push(MyProcess::new(&procs[i]));
        }
        proof {
            procs@.subrange(0, i as int).lemma_filter_push(procs@[i as int], pred);
            assert(procs@.subrange(0, i as int + 1) =~= procs@.subrange(0, i as int).push(
                procs@[i as int],
            ));
        }
        i = i + 1;
    }
    proof {
        assert(procs@.subrange(0, procs@.len() as int) =~= procs@);
    }
    out
}

/// A strictly increasing placement of the elements of `a` inside `b`.
pub open spec fn is_index_map<T>(m: Seq<int>, a: Seq<T>, b: Seq<T>) -> bool {
    &&& m.len() == a.len()
    &&& forall|k: int| 0 <= k < m.len() ==> 0 <= #[trigger] m[k] < b.len()
    &&& forall|k: int| 0 <= k < m.len() ==> a[k] == b[#[trigger] m[k]]
    &&& forall|k: int, l: int| 0 <= k < l < m.len() ==> #[trigger] m[k] < #[trigger] m[l]
}

/// `a` is a subsequence of `b`: its elements appear in `b`, in order.
pub open spec fn subsequence_of<T>(a: Seq<T>, b: Seq<T>) -> bool {
    exists|m: Seq<int>| #[trigger] is_index_map(m, a, b)
}

/// A filtered sequence is a subsequence of what it was filtered from.
pub proof fn lemma_filter_subsequence<T>(s: Seq<T>, pred: spec_fn(T) -> bool)
    ensures
        subsequence_of(s.filter(pred), s),
    decreases s.len(),
{
    if s.len() == 0 {
        reveal(Seq::filter);
        let m = Seq::<int>::empty();
        assert(is_index_map(m, s.filter(pred), s));
    } else {
        let s1 = s.drop_last();
        lemma_filter_subsequence(s1, pred);
        let m1 = choose|m: Seq<int>| #[trigger] is_index_map(m, s1.filter(pred), s1);
        s1.lemma_filter_push(s.last(), pred);
        assert(s =~= s1.push(s.last()));
        if pred(s.last()) {
            let m2 = m1.push(s1.len() as int);
            assert(is_index_map(m2, s.filter(pred), s));
        } else {
            assert(is_index_map(m1, s.filter(pred), s));
        }
    }
}

/// The filter law: the output is a subsequence of the input, every row it
/// keeps matches the text, and a row of the input appears in the output if
/// and only if it matches.
pub proof fn lemma_filter_law(s: Seq<MyProcess>, text: Seq<char>)
    ensures
        subsequence_of(filter_rows(s, text), s),
        forall|j: int|
            0 <= j < filter_rows(s, text).len() ==> row_matches(
                #[trigger] filter_rows(s, text)[j],
                text,
            ),
        forall|i: int|
            0 <= i < s.len() ==> (row_matches(#[trigger] s[i], text) <==> filter_rows(
                s,
                text,
            ).contains(s[i])),
{
    let pred = |p: MyProcess| row_matches(p, text);
    let out = filter_rows(s, text);
    lemma_filter_subsequence(s, pred);
    assert forall|j: int| 0 <= j < out.len() implies row_matches(#[trigger] out[j], text) by {
        s.lemma_filter_pred(pred, j);
    }
    assert forall|i: int| 0 <= i < s.len() implies (row_matches(#[trigger] s[i], text) <==> out.contains(
        s[i],
    )) by {
        if row_matches(s[i], text) {
            s.lemma_filter_contains(pred, i);
        }
        if out.contains(s[i]) {
            let j = choose|j: int| 0 <= j < out.len() && out[j] == s[i];
            s.lemma_filter_pred(pred, j);
        }
    }
}

} // verus!
