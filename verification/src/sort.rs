//! The sort specification: the closed set of sortable fields, the
//! click-to-sort state machine, the comparators, the executable stable sort
//! of process rows, and the ordering laws.
use vstd::prelude::*;
use vstd::relations::sorted_by;
use vstd::relations::strongly_connected;
use vstd::relations::transitive;
use crate::order::insert_ord;
use crate::order::lemma_insert_ord_position;
use crate::order::lemma_sort_of_multiset;
use crate::order::lemma_sort_of_reverse;
use crate::order::lemma_sort_of_sorted;
use crate::order::lemma_sort_of_stable;
use crate::order::sort_of;
use crate::records::MyProcess;
use crate::strings::lemma_lex_leq_total;
use crate::strings::lemma_lex_leq_trans;
use crate::strings::lex_le;
use crate::strings::lex_leq;

verus! {

/// The closed set of fields a process table can be sorted on.
#[derive(Clone, Copy, PartialEq, Eq, Structural, Debug)]
pub enum SortField {
    Name,
    Pid,
    CpuUsage,
    Memory,
}

/// The direction of an active sort. `Unset` performs no reordering.
#[derive(Clone, Copy, PartialEq, Eq, Structural, Debug)]
pub enum SortType {
    Asc,
    Desc,
    Unset,
}

/// The sort selection: the field the clicks act on, if any, and the
/// direction. Initially no field is active.
#[derive(Clone, Copy, Debug)]
pub struct Sort {
    pub field: Option<SortField>,
    pub sort_type: SortType,
}

/// The direction cycle a repeated click walks through.
pub open spec fn next_sort_type(t: SortType) -> SortType {
    match t {
        SortType::Desc => SortType::Asc,
        SortType::Asc => SortType::Unset,
        SortType::Unset => SortType::Desc,
    }
}

/// What one click on the header of field `f` does to the selection: a new
/// field starts descending; the active field cycles its direction.
pub open spec fn clicked_spec(s: Sort, f: SortField) -> Sort {
    if s.field != Some(f) {
        Sort { field: Some(f), sort_type: SortType::Desc }
    } else {
        Sort { field: Some(f), sort_type: next_sort_type(s.sort_type) }
    }
}

/// The glyph name shown beside the header of field `f`.
pub open spec fn indicator_spec(s: Sort, f: SortField) -> Seq<char> {
    if s.field != Some(f) {
        ""@
    } else {
        match s.sort_type {
            SortType::Asc => "arrow_upward"@,
            SortType::Desc => "arrow_downward"@,
            SortType::Unset => ""@,
        }
    }
}

impl Sort {
    /// The initial selection: no active field, no reordering.
    pub fn new() -> (r: Sort)
        ensures
            r.field is None,
            r.sort_type == SortType::Unset,
    {
        Sort { field: None, sort_type: SortType::Unset }
    }

    /// One click on the header of field `f`.
    pub fn clicked(&self, f: SortField) -> (r: Sort)
        ensures
            r == clicked_spec(*self, f),
    {
        let same = match self.field {
            Some(g) => g == f,
            None => false,
        };
        if !same {
            Sort { field: Some(f), sort_type: SortType::Desc }
        } else {
            let st = match self.sort_type {
                SortType::Desc => SortType::Asc,
                SortType::Asc => SortType::Unset,
                SortType::Unset => SortType::Desc,
            };
            Sort { field: Some(f), sort_type: st }
        }
    }

    /// The direction glyph to draw beside the header of field `f`.
    pub fn indicator(&self, f: SortField) -> (r: &'static str)
        ensures
            r@ == indicator_spec(*self, f),
    {
        let same = match self.field {
            Some(g) => g == f,
            None => false,
        };
        if !same {
            ""
        } else {
            match self.sort_type {
                SortType::Asc => "arrow_upward",
                SortType::Desc => "arrow_downward",
                SortType::Unset => "",
            }
        }
    }
}

/// Ascending order of two rows on one field: text lexicographic, numbers
/// numeric, CPU usage by its order-preserving key.
pub open spec fn field_leq(field: SortField, a: MyProcess, b: MyProcess) -> bool {
    match field {
        SortField::Name => lex_leq(a.name@, b.name@),
        SortField::Pid => a.pid <= b.pid,
        SortField::CpuUsage => a.cpu_usage <= b.cpu_usage,
        SortField::Memory => a.memory <= b.memory,
    }
}

/// The comparator the view sorts with: ascending on the field, or the same
/// order flipped.
pub open spec fn proc_leq(field: SortField, descending: bool) -> spec_fn(MyProcess, MyProcess) -> bool {
    if descending {
        |a: MyProcess, b: MyProcess| field_leq(field, b, a)
    } else {
        |a: MyProcess, b: MyProcess| field_leq(field, a, b)
    }
}

/// Two rows carrying the same key on a field.
pub open spec fn same_key(field: SortField, a: MyProcess, b: MyProcess) -> bool {
    field_leq(field, a, b) && field_leq(field, b, a)
}

/// Every view comparator is a total preorder.
pub proof fn lemma_proc_leq_props(field: SortField, descending: bool)
    ensures
        transitive(proc_leq(field, descending)),
        strongly_connected(proc_leq(field, descending)),
{
    let leq = proc_leq(field, descending);
    assert forall|a: MyProcess, b: MyProcess, c: MyProcess|
        #[trigger] leq(a, b) && #[trigger] leq(b, c) implies leq(a, c) by {
        match field {
            SortField::Name => {
                if descending {
                    lemma_lex_leq_trans(c.name@, b.name@, a.name@);
                } else {
                    lemma_lex_leq_trans(a.name@, b.name@, c.name@);
                }
            },
            _ => {},
        }
    }
    assert forall|a: MyProcess, b: MyProcess| #[trigger] leq(a, b) || #[trigger] leq(b, a) by {
        match field {
            SortField::Name => {
                lemma_lex_leq_total(a.name@, b.name@);
            },
            _ => {},
        }
    }
}

/// What comparing two rows on a field yields: equal keys compare equal,
/// otherwise the `field_leq` order decides.
pub open spec fn compare_spec(field: SortField, a: MyProcess, b: MyProcess) -> core::cmp::Ordering {
    if field_leq(field, a, b) && field_leq(field, b, a) {
        core::cmp::Ordering::Equal
    } else if field_leq(field, a, b) {
        core::cmp::Ordering::Less
    } else {
        core::cmp::Ordering::Greater
    }
}

impl MyProcess {
    /// Compares two rows on a field, the way the ascending sort orders
    /// them.
    pub fn compare(&self, other: &MyProcess, field: SortField) -> (r: core::cmp::Ordering)
        ensures
            r == compare_spec(field, *self, *other),
    {
        let le1 = proc_le(self, other, field, false);
        let le2 = proc_le(other, self, field, false);
        if le1 && le2 {
            core::cmp::Ordering::Equal
        } else if le1 {
            core::cmp::Ordering::Less
        } else {
            core::cmp::Ordering::Greater
        }
    }
}

/// Decides the view comparator on two rows.
pub fn proc_le(a: &MyProcess, b: &MyProcess, field: SortField, descending: bool) -> (r: bool)
    ensures
        r == proc_leq(field, descending)(*a, *b),
{
    let (x, y) = if descending {
        (b, a)
    } else {
        (a, b)
    };
    match field {
        SortField::Name => lex_le(x.name.as_str(), y.name.as_str()),
        SortField::Pid => x.pid <= y.pid,
        SortField::CpuUsage => x.cpu_usage <= y.cpu_usage,
        SortField::Memory => x.memory <= y.memory,
    }
}

/// Stable insertion sort of the rows by one field and direction.
pub fn sort_processes_by(procs: Vec<MyProcess>, field: SortField, descending: bool) -> (r: Vec<
    MyProcess,
>)
    ensures
        r@ == sort_of(procs@, proc_leq(field, descending)),
{
    let ghost leq = proc_leq(field, descending);
    let ghost orig = procs@;
    let mut input = procs;
    let mut out: Vec<MyProcess> = Vec::new();
    proof {
        assert(orig.subrange(0, 0) =~= Seq::<MyProcess>::empty());
        assert(input@ =~= orig.subrange(0, orig.len() as int));
    }
    while input.len() > 0
        invariant
            input@.len() <= orig.len(),
            out@ == sort_of(orig.subrange(0, orig.len() - input@.len()), leq),
            input@ =~= orig.subrange(orig.len() - input@.len(), orig.len() as int),
            leq == proc_leq(field, descending),
        decreases input@.len(),
    {
        let ghost k = orig.len() - input@.len();
        let x = input.remove(0);
        proof {
            assert(x == orig[k]);
            assert(input@ =~= orig.subrange(k + 1, orig.len() as int));
        }
        let mut j = out.len();
        while j > 0 && !proc_le(&out[j - 1], &x, field, descending)
            invariant
                j <= out@.len(),
                leq == proc_leq(field, descending),
                forall|t: int| j <= t < out@.len() ==> !leq(#[trigger] out@[t], x),
            decreases j,
        {
            j = j - 1;
        }
        let ghost old_out = out@;
        out.insert(j, x);
        proof {
            lemma_insert_ord_position(old_out, x, leq, j as int);
            let s1 = orig.subrange(0, k + 1);
            assert(s1.drop_last() =~= orig.subrange(0, k));
            assert(s1.last() == orig[k]);
            assert(out@ =~= insert_ord(old_out, x, leq));
        }
    }
    proof {
        assert(orig.subrange(0, orig.len() as int) =~= orig);
    }
    out
}

/// The rows as ordered by a sort selection: untouched while no field is
/// active or the direction is unset, otherwise stably sorted.
pub open spec fn view_order(s: Seq<MyProcess>, sort: Sort) -> Seq<MyProcess> {
    match sort.field {
        None => s,
        Some(f) => match sort.sort_type {
            SortType::Unset => s,
            SortType::Asc => sort_of(s, proc_leq(f, false)),
            SortType::Desc => sort_of(s, proc_leq(f, true)),
        },
    }
}

/// Applies the active sort selection to the rows.
pub fn sort_processes(procs: Vec<MyProcess>, sort: &Sort) -> (r: Vec<MyProcess>)
    ensures
        r@ == view_order(procs@, *sort),
{
    match sort.field {
        None => procs,
        Some(f) => match sort.sort_type {
            SortType::Unset => procs,
            SortType::Asc => sort_processes_by(procs, f, false),
            SortType::Desc => sort_processes_by(procs, f, true),
        },
    }
}

/// An active sort orders the rows by its comparator and permutes them:
/// the output is sorted and holds exactly the input rows.
pub proof fn lemma_sort_processes_sorted(s: Seq<MyProcess>, field: SortField, descending: bool)
    ensures
        sorted_by(sort_of(s, proc_leq(field, descending)), proc_leq(field, descending)),
        sort_of(s, proc_leq(field, descending)).to_multiset() == s.to_multiset(),
        sort_of(s, proc_leq(field, descending)).len() == s.len(),
{
    lemma_proc_leq_props(field, descending);
    lemma_sort_of_sorted(s, proc_leq(field, descending));
    lemma_sort_of_multiset(s, proc_leq(field, descending));
}

/// Stability: in either direction, the rows sharing a key with `r` keep
/// the relative order they had in the input.
pub proof fn lemma_sort_processes_stable(
    s: Seq<MyProcess>,
    field: SortField,
    descending: bool,
    r: MyProcess,
)
    ensures
        sort_of(s, proc_leq(field, descending)).filter(|p: MyProcess| same_key(field, p, r))
            == s.filter(|p: MyProcess| same_key(field, p, r)),
{
    let leq = proc_leq(field, descending);
    let pred = |p: MyProcess| same_key(field, p, r);
    assert forall|u: MyProcess, v: MyProcess|
        #[trigger] pred(u) && #[trigger] pred(v) implies leq(u, v) by {
        match field {
            SortField::Name => {
                if descending {
                    lemma_lex_leq_trans(v.name@, r.name@, u.name@);
                } else {
                    lemma_lex_leq_trans(u.name@, r.name@, v.name@);
                }
            },
            _ => {},
        }
    }
    lemma_sort_of_stable(s, leq, pred);
}

/// Reversal: when no two rows share a key on the field, the ascending sort
/// reversed is exactly the descending sort.
pub proof fn lemma_sort_processes_reverse(s: Seq<MyProcess>, field: SortField)
    requires
        forall|i: int, j: int| 0 <= i < j < s.len() ==> !#[trigger] same_key(field, s[i], s[j]),
    ensures
        sort_of(s, proc_leq(field, true)) == sort_of(s, proc_leq(field, false)).reverse(),
{
    let leq = proc_leq(field, false);
    let geq = proc_leq(field, true);
    lemma_proc_leq_props(field, false);
    assert forall|i: int, j: int| 0 <= i < j < s.len() implies !(leq(#[trigger] s[i], #[trigger] s[j])
        && leq(s[j], s[i])) by {
        assert(!same_key(field, s[i], s[j]));
    }
    lemma_sort_of_reverse(s, leq, geq);
    assert(sort_of(s, geq) =~= sort_of(s, leq).reverse());
}

} // verus!
