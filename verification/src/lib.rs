//! Telemetry collection core for a system monitor.
//!
//! Two periodic collectors sample the operating system (through an external
//! provider at the application edge) and publish immutable snapshots: a
//! process table and a performance snapshot with CPU, memory, swap, disk and
//! network counters. A view layer applies substring filtering and stable
//! sorting to the latest process snapshot. Everything here is verified; the
//! provider queries and the user interface live outside the library and hand
//! in plain values.
pub mod filter;
pub mod mailbox;
pub mod order;
pub mod records;
pub mod snapshot;
pub mod sort;
pub mod strings;
pub mod view;

pub use filter::filter_processes;
pub use filter::filter_rows;
pub use filter::lemma_filter_law;
pub use filter::row_match;
pub use filter::row_matches;
pub use filter::subsequence_of;
pub use mailbox::Mailbox;
pub use order::sort_of;
pub use records::Mem;
pub use records::MyCpu;
pub use records::MyDisk;
pub use records::MyProcess;
pub use records::Network;
pub use records::Performance;
pub use records::Swap;
pub use snapshot::build_disks;
pub use snapshot::build_networks;
pub use snapshot::build_cpu_records;
pub use snapshot::build_performance_snapshot;
pub use snapshot::build_process_snapshot;
pub use snapshot::CpuSample;
pub use snapshot::DiskSample;
pub use snapshot::mem_stats;
pub use snapshot::ProcessSample;
pub use snapshot::swap_stats;
pub use sort::lemma_sort_processes_reverse;
pub use sort::lemma_sort_processes_sorted;
pub use sort::lemma_sort_processes_stable;
pub use sort::Sort;
pub use sort::SortField;
pub use sort::sort_processes;
pub use sort::sort_processes_by;
pub use sort::SortType;
pub use view::lemma_view_rows_law;
pub use view::ViewState;
pub use view::view_rows;
