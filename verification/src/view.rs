//! The view state: the current sort selection and filter text, the latest
//! snapshot of each kind, and the rows the presentation shows — the latest
//! process snapshot filtered by the text, then stably sorted by the active
//! selection.
use vstd::prelude::*;
use vstd::relations::sorted_by;
use crate::filter::filter_processes;
use crate::filter::filter_rows;
use crate::filter::row_matches;
use crate::records::MyProcess;
use crate::records::Performance;
use crate::sort::clicked_spec;
use crate::sort::lemma_sort_processes_sorted;
use crate::sort::proc_leq;
use crate::sort::Sort;
use crate::sort::SortField;
use crate::sort::sort_processes;
use crate::sort::SortType;
use crate::sort::view_order;

verus! {

/// The rows shown for a snapshot under a filter text and sort selection:
/// filtering first, then ordering.
pub open spec fn view_rows(s: Seq<MyProcess>, text: Seq<char>, sort: Sort) -> Seq<MyProcess> {
    view_order(filter_rows(s, text), sort)
}

/// What holds of the rows a view shows: they are a permutation of the
/// filtered rows, every one of them matches the filter text, and an active
/// ascending or descending sort leaves them ordered by its comparator.
pub proof fn lemma_view_rows_law(s: Seq<MyProcess>, text: Seq<char>, sort: Sort)
    ensures
        view_rows(s, text, sort).to_multiset() == filter_rows(s, text).to_multiset(),
        forall|j: int|
            0 <= j < view_rows(s, text, sort).len() ==> row_matches(
                #[trigger] view_rows(s, text, sort)[j],
                text,
            ),
        sort.field is Some && sort.sort_type == SortType::Asc ==> sorted_by(
            view_rows(s, text, sort),
            proc_leq(sort.field->Some_0, false),
        ),
        sort.field is Some && sort.sort_type == SortType::Desc ==> sorted_by(
            view_rows(s, text, sort),
            proc_leq(sort.field->Some_0, true),
        ),
{
    broadcast use vstd::seq_lib::group_to_multiset_ensures;

    let kept = filter_rows(s, text);
    let out = view_rows(s, text, sort);
    match sort.field {
        None => {},
        Some(f) => match sort.sort_type {
            SortType::Unset => {},
            SortType::Asc => {
                lemma_sort_processes_sorted(kept, f, false);
            },
            SortType::Desc => {
                lemma_sort_processes_sorted(kept, f, true);
            },
        },
    }
    assert forall|j: int| 0 <= j < out.len() implies row_matches(out[j], text) by {
        assert(out.contains(out[j]));
        assert(out.to_multiset().count(out[j]) > 0);
        assert(kept.to_multiset().count(out[j]) > 0);
        assert(kept.contains(out[j]));
        let i = choose|i: int| 0 <= i < kept.len() && kept[i] == out[j];
        s.lemma_filter_pred(|p: MyProcess| row_matches(p, text), i);
    }
}

/// The sort and filter configuration, together with the latest snapshot of
/// each stream. A published snapshot wholly replaces its predecessor.
pub struct ViewState {
    pub sort: Sort,
    pub filter_text: String,
    pub processes: Vec<MyProcess>,
    pub performance: Performance,
}

impl ViewState {
    /// The initial state: no active sort, empty filter, empty snapshots.
    pub fn new() -> (r: ViewState)
        ensures
            r.sort.field is None,
            r.sort.sort_type == SortType::Unset,
            r.filter_text@.len() == 0,
            r.processes@.len() == 0,
            r.performance.cpus@.len() == 0,
            r.performance.networks@.len() == 0,
            r.performance.disks@.len() == 0,
    {
        ViewState {
            sort: Sort::new(),
            filter_text: String::new(),
            processes: Vec::new(),
            performance: Performance::default(),
        }
    }

    /// Replaces the filter text; nothing else moves.
    pub fn apply_filter(&mut self, text: String)
        ensures
            final(self).filter_text == text,
            final(self).sort == old(self).sort,
            final(self).processes == old(self).processes,
            final(self).performance == old(self).performance,
    {
        self.filter_text = text;
    }

    /// One click on the header of field `f`; nothing else moves.
    pub fn toggle_sort(&mut self, f: SortField)
        ensures
            final(self).sort == clicked_spec(old(self).sort, f),
            final(self).filter_text == old(self).filter_text,
            final(self).processes == old(self).processes,
            final(self).performance == old(self).performance,
    {
        self.sort = self.sort.clicked(f);
    }

    /// Publishes a process snapshot, replacing the previous one whole.
    pub fn publish_processes(&mut self, snapshot: Vec<MyProcess>)
        ensures
            final(self).processes == snapshot,
            final(self).sort == old(self).sort,
            final(self).filter_text == old(self).filter_text,
            final(self).performance == old(self).performance,
    {
        self.processes = snapshot;
    }

    /// Publishes a performance snapshot, replacing the previous one whole.
    pub fn publish_performance(&mut self, snapshot: Performance)
        ensures
            final(self).performance == snapshot,
            final(self).sort == old(self).sort,
            final(self).filter_text == old(self).filter_text,
            final(self).processes == old(self).processes,
    {
        self.performance = snapshot;
    }

    /// The latest process snapshot, as published.
    pub fn latest_process_snapshot(&self) -> (r: &Vec<MyProcess>)
        ensures
            r == self.processes,
    {
        &self.processes
    }

    /// The latest performance snapshot, as published.
    pub fn latest_performance_snapshot(&self) -> (r: &Performance)
        ensures
            r == self.performance,
    {
        &self.performance
    }

    /// The rows to show: the latest process snapshot filtered by the
    /// current text, then ordered by the active sort selection.
    pub fn current_view(&self) -> (r: Vec<MyProcess>)
        ensures
            r@ == view_rows(self.processes@, self.filter_text@, self.sort),
    {
        let kept = filter_processes(&self.processes, self.filter_text.as_str());
        sort_processes(kept, &self.sort)
    }
}

} // verus!
