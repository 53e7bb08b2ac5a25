//! The compute half of the two collectors. The application edge queries the
//! operating system and hands in plain samples; these functions turn them
//! into the published snapshots: truncating unit conversions, the per-record
//! skip of disks whose filesystem label did not decode, and the ascending
//! orders on mount path and interface name.
use vstd::prelude::*;
use vstd::relations::sorted_by;
use vstd::relations::strongly_connected;
use vstd::relations::transitive;
use crate::order::insert_ord;
use crate::order::lemma_insert_ord_position;
use crate::order::lemma_sort_of_multiset;
use crate::order::lemma_sort_of_sorted;
use crate::order::sort_of;
use crate::records::Mem;
use crate::records::MyCpu;
use crate::records::MyDisk;
use crate::records::MyProcess;
use crate::records::Network;
use crate::records::Performance;
use crate::records::Swap;
use crate::strings::lemma_lex_leq_total;
use crate::strings::lemma_lex_leq_trans;
use crate::strings::lex_le;
use crate::strings::lex_leq;

verus! {

/// One process as the provider reports it: memory still in bytes.
pub struct ProcessSample {
    pub pid: u32,
    pub name: String,
    pub memory_bytes: u64,
    pub cpu_usage: u32,
    pub read_bytes: u64,
    pub written_bytes: u64,
}

/// One CPU core as the provider reports it: the name and the usage key of
/// the percentage sampled this tick.
pub struct CpuSample {
    pub name: String,
    pub usage: u32,
}

/// One mounted disk as the provider reports it. `structure` is the decoded
/// filesystem label, or nothing when the label did not decode; such a disk
/// is skipped rather than failing the whole scan.
pub struct DiskSample {
    pub mount_point: String,
    pub kind: String,
    pub structure: Option<String>,
    pub total_space: u64,
    pub available_space: u64,
    pub removable: bool,
}

/// The published row for one process sample: memory becomes whole MiB,
/// truncated.
pub open spec fn record_of(s: ProcessSample) -> MyProcess {
    MyProcess {
        pid: s.pid,
        name: s.name,
        memory: s.memory_bytes / 1000000u64,
        cpu_usage: s.cpu_usage,
        read_bytes: s.read_bytes,
        written_bytes: s.written_bytes,
    }
}

/// Builds the process snapshot: one row per sample, in the provider's
/// order, memory truncated to whole MiB.
pub fn build_process_snapshot(samples: Vec<ProcessSample>) -> (r: Vec<MyProcess>)
    ensures
        r@.len() == samples@.len(),
        forall|i: int| 0 <= i < r@.len() ==> r@[i] == record_of(#[trigger] samples@[i]),
{
    let ghost orig = samples@;
    let mut input = samples;
    let mut out: Vec<MyProcess> = Vec::new();
    proof {
        assert(input@ =~= orig.subrange(0, orig.len() as int));
    }
    while input.len() > 0
        invariant
            input@.len() <= orig.len(),
            out@.len() == orig.len() - input@.len(),
            input@ =~= orig.subrange(orig.len() - input@.len(), orig.len() as int),
            forall|i: int| 0 <= i < out@.len() ==> out@[i] == record_of(#[trigger] orig[i]),
        decreases input@.len(),
    {
        let ghost k = orig.len() - input@.len();
        let s = input.remove(0);
        proof {
            assert(s == orig[k]);
            assert(input@ =~= orig.subrange(k + 1, orig.len() as int));
        }
        let row = MyProcess {
            pid: s.pid,
            name: s.name,
            memory: s.memory_bytes / 1000000,
            cpu_usage: s.cpu_usage,
            read_bytes: s.read_bytes,
            written_bytes: s.written_bytes,
        };
        out.push(row);
    }
    out
}

/// Memory totals in whole GiB, truncated; the free amount is what is left
/// of the total after use, converted the same way.
pub fn mem_stats(total_bytes: u64, used_bytes: u64) -> (r: Mem)
    requires
        used_bytes <= total_bytes,
    ensures
        r.total == total_bytes / 1000000000u64,
        r.used == used_bytes / 1000000000u64,
        r.free == (total_bytes - used_bytes) / 1000000000,
{
    Mem {
        total: total_bytes / 1000000000,
        used: used_bytes / 1000000000,
        free: (total_bytes - used_bytes) / 1000000000,
    }
}

/// Swap totals in whole GiB, truncated, as for memory.
pub fn swap_stats(total_bytes: u64, used_bytes: u64) -> (r: Swap)
    requires
        used_bytes <= total_bytes,
    ensures
        r.total == total_bytes / 1000000000u64,
        r.used == used_bytes / 1000000000u64,
        r.free == (total_bytes - used_bytes) / 1000000000,
{
    Swap {
        total: total_bytes / 1000000000,
        used: used_bytes / 1000000000,
        free: (total_bytes - used_bytes) / 1000000000,
    }
}

/// A snapshot row type the performance collector sorts by one text key.
pub trait TextKeyed: Sized {
    /// The key the rows are ordered by.
    spec fn key(self) -> Seq<char>;

    /// Decides the key order on two rows.
    fn key_le(&self, other: &Self) -> (r: bool)
        ensures
            r == lex_leq(self.key(), other.key()),
    ;
}

/// The ascending key order as a relation value.
pub open spec fn key_leq_fn<T: TextKeyed>() -> spec_fn(T, T) -> bool {
    |a: T, b: T| lex_leq(a.key(), b.key())
}

/// The key order is a total preorder.
pub proof fn lemma_key_leq_props<T: TextKeyed>()
    ensures
        transitive(key_leq_fn::<T>()),
        strongly_connected(key_leq_fn::<T>()),
{
    let leq = key_leq_fn::<T>();
    assert forall|a: T, b: T, c: T| #[trigger] leq(a, b) && #[trigger] leq(b, c) implies leq(
        a,
        c,
    ) by {
        lemma_lex_leq_trans(a.key(), b.key(), c.key());
    }
    assert forall|a: T, b: T| #[trigger] leq(a, b) || #[trigger] leq(b, a) by {
        lemma_lex_leq_total(a.key(), b.key());
    }
}

/// Stable insertion sort of snapshot rows, ascending on the text key.
pub fn sort_by_key<T: TextKeyed>(items: Vec<T>) -> (r: Vec<T>)
    ensures
        r@ == sort_of(items@, key_leq_fn::<T>()),
        sorted_by(r@, key_leq_fn::<T>()),
        r@.to_multiset() == items@.to_multiset(),
{
    let ghost leq = key_leq_fn::<T>();
    let ghost orig = items@;
    let mut input = items;
    let mut out: Vec<T> = Vec::new();
    proof {
        assert(orig.subrange(0, 0) =~= Seq::<T>::empty());
        assert(input@ =~= orig.subrange(0, orig.len() as int));
    }
    while input.len() > 0
        invariant
            input@.len() <= orig.len(),
            out@ == sort_of(orig.subrange(0, orig.len() - input@.len()), leq),
            input@ =~= orig.subrange(orig.len() - input@.len(), orig.len() as int),
            leq == key_leq_fn::<T>(),
        decreases input@.len(),
    {
        let ghost k = orig.len() - input@.len();
        let x = input.remove(0);
        proof {
            assert(x == orig[k]);
            assert(input@ =~= orig.subrange(k + 1, orig.len() as int));
        }
        let mut j = out.len();
        while j > 0 && !out[j - 1].key_le(&x)
            invariant
                j <= out@.len(),
                leq == key_leq_fn::<T>(),
                forall|t: int| j <= t < out@.len() ==> !leq(#[trigger] out@[t], x),
            decreases j,
        {
            j = j - 1;
        }
        let ghost old_out = out@;
        out.insert(j, x);
        proof {
            lemma_insert_ord_position(old_out, x, leq, j as int);
            let s1 = orig.subrange(0, k + 1);
            assert(s1.drop_last() =~= orig.subrange(0, k));
            assert(s1.last() == orig[k]);
            assert(out@ =~= insert_ord(old_out, x, leq));
        }
    }
    proof {
        assert(orig.subrange(0, orig.len() as int) =~= orig);
        lemma_key_leq_props::<T>();
        lemma_sort_of_sorted(orig, leq);
        lemma_sort_of_multiset(orig, leq);
    }
    out
}

impl TextKeyed for MyDisk {
    open spec fn key(self) -> Seq<char> {
        self.local@
    }

    fn key_le(&self, other: &Self) -> (r: bool)
        ensures
            r == lex_leq(self.key(), other.key()),
    {
        lex_le(self.local.as_str(), other.local.as_str())
    }
}

impl TextKeyed for Network {
    open spec fn key(self) -> Seq<char> {
        self.name@
    }

    fn key_le(&self, other: &Self) -> (r: bool)
        ensures
            r == lex_leq(self.key(), other.key()),
    {
        lex_le(self.name.as_str(), other.name.as_str())
    }
}

/// Whether a disk sample enters the snapshot: only one whose filesystem
/// label decoded.
pub open spec fn disk_kept(d: DiskSample) -> bool {
    d.structure is Some
}

/// The published row for one kept disk sample: capacity in whole GiB,
/// truncated; used space is what the capacity has beyond the available
/// space.
pub open spec fn disk_of(d: DiskSample) -> MyDisk
    recommends
        disk_kept(d),
        d.available_space <= d.total_space,
{
    MyDisk {
        local: d.mount_point,
        kind: d.kind,
        structure: d.structure->Some_0,
        space: d.total_space / 1000000000u64,
        removable: d.removable,
        used: (d.total_space - d.available_space) as u64,
        free: d.available_space,
    }
}

/// The disk rows of a snapshot: the kept samples' rows, sorted ascending
/// by mount path.
pub open spec fn disks_of(ds: Seq<DiskSample>) -> Seq<MyDisk> {
    sort_of(ds.filter(|d: DiskSample| disk_kept(d)).map_values(|d: DiskSample| disk_of(d)),
        key_leq_fn::<MyDisk>())
}

/// Builds the disk rows: skips samples whose filesystem label did not
/// decode, converts the rest, and sorts ascending by mount path.
pub fn build_disks(disks: Vec<DiskSample>) -> (r: Vec<MyDisk>)
    requires
        forall|i: int|
            0 <= i < disks@.len() ==> #[trigger] disks@[i].available_space
                <= disks@[i].total_space,
    ensures
        r@ == disks_of(disks@),
        sorted_by(r@, key_leq_fn::<MyDisk>()),
{
    let ghost orig = disks@;
    let ghost pred = |d: DiskSample| disk_kept(d);
    let ghost conv = |d: DiskSample| disk_of(d);
    let mut input = disks;
    let mut rows: Vec<MyDisk> = Vec::new();
    proof {
        reveal(Seq::filter);
        assert(orig.subrange(0, 0) =~= Seq::<DiskSample>::empty());
        assert(orig.subrange(0, 0).filter(pred).map_values(conv) =~= Seq::<MyDisk>::empty());
        assert(input@ =~= orig.subrange(0, orig.len() as int));
    }
    while input.len() > 0
        invariant
            input@.len() <= orig.len(),
            rows@ == orig.subrange(0, orig.len() - input@.len()).filter(pred).map_values(conv),
            input@ =~= orig.subrange(orig.len() - input@.len(), orig.len() as int),
            pred == (|d: DiskSample| disk_kept(d)),
            conv == (|d: DiskSample| disk_of(d)),
            forall|i: int|
                0 <= i < orig.len() ==> #[trigger] orig[i].available_space <= orig[i].total_space,
        decreases input@.len(),
    {
        let ghost k = orig.len() - input@.len();
        let d = input.remove(0);
        proof {
            assert(d == orig[k]);
            assert(input@ =~= orig.subrange(k + 1, orig.len() as int));
            orig.subrange(0, k).lemma_filter_push(orig[k], pred);
            assert(orig.subrange(0, k + 1) =~= orig.subrange(0, k).push(orig[k]));
        }
        match d.structure {
            Some(structure) => {
                let row = MyDisk {
                    local: d.mount_point,
                    kind: d.kind,
                    structure,
                    space: d.total_space / 1000000000,
                    removable: d.removable,
                    used: d.total_space - d.available_space,
                    free: d.available_space,
                };
                rows.push(row);
                proof {
                    let kept = orig.subrange(0, k).filter(pred);
                    assert(kept.push(orig[k]).map_values(conv) =~= kept.map_values(conv).push(
                        disk_of(orig[k]),
                    ));
                }
            },
            None => {},
        }
        proof {
            assert(rows@ =~= orig.subrange(0, k + 1).filter(pred).map_values(conv));
        }
    }
    proof {
        assert(orig.subrange(0, orig.len() as int) =~= orig);
    }
    sort_by_key(rows)
}

/// Builds the network rows: the provider's interfaces sorted ascending by
/// name.
pub fn build_networks(nets: Vec<Network>) -> (r: Vec<Network>)
    ensures
        r@ == sort_of(nets@, key_leq_fn::<Network>()),
        sorted_by(r@, key_leq_fn::<Network>()),
        r@.to_multiset() == nets@.to_multiset(),
{
    sort_by_key(nets)
}

/// Builds the CPU rows: one record per core, carrying exactly the one
/// usage key sampled this tick.
pub fn build_cpu_records(samples: Vec<CpuSample>) -> (r: Vec<MyCpu>)
    ensures
        r@.len() == samples@.len(),
        forall|i: int|
            0 <= i < r@.len() ==> #[trigger] r@[i].name == samples@[i].name && r@[i].uses@ =~= seq![
                samples@[i].usage,
            ],
{
    let ghost orig = samples@;
    let mut input = samples;
    let mut out: Vec<MyCpu> = Vec::new();
    proof {
        assert(input@ =~= orig.subrange(0, orig.len() as int));
    }
    while input.len() > 0
        invariant
            input@.len() <= orig.len(),
            out@.len() == orig.len() - input@.len(),
            input@ =~= orig.subrange(orig.len() - input@.len(), orig.len() as int),
            forall|i: int|
                0 <= i < out@.len() ==> #[trigger] out@[i].name == orig[i].name && out@[i].uses@
                    =~= seq![orig[i].usage],
        decreases input@.len(),
    {
        let ghost k = orig.len() - input@.len();
        let s = input.remove(0);
        proof {
            assert(s == orig[k]);
            assert(input@ =~= orig.subrange(k + 1, orig.len() as int));
        }
        let mut uses: Vec<u32> = Vec::new();
        uses.push(s.usage);
        let row = MyCpu { name: s.name, uses };
        out.push(row);
    }
    out
}

/// Assembles one performance snapshot from a tick's samples: CPU rows in
/// provider order, memory and swap in truncated GiB, networks ascending by
/// interface name, disks ascending by mount path with undecodable
/// filesystem labels skipped.
pub fn build_performance_snapshot(
    cpus: Vec<CpuSample>,
    mem_total: u64,
    mem_used: u64,
    swap_total: u64,
    swap_used: u64,
    networks: Vec<Network>,
    disks: Vec<DiskSample>,
) -> (r: Performance)
    requires
        mem_used <= mem_total,
        swap_used <= swap_total,
        forall|i: int|
            0 <= i < disks@.len() ==> #[trigger] disks@[i].available_space
                <= disks@[i].total_space,
    ensures
        r.cpus@.len() == cpus@.len(),
        forall|i: int|
            0 <= i < r.cpus@.len() ==> #[trigger] r.cpus@[i].name == cpus@[i].name
                && r.cpus@[i].uses@ =~= seq![cpus@[i].usage],
        r.mem.total == mem_total / 1000000000u64,
        r.mem.used == mem_used / 1000000000u64,
        r.mem.free == (mem_total - mem_used) / 1000000000,
        r.swap.total == swap_total / 1000000000u64,
        r.swap.used == swap_used / 1000000000u64,
        r.swap.free == (swap_total - swap_used) / 1000000000,
        r.networks@ == sort_of(networks@, key_leq_fn::<Network>()),
        r.networks@.to_multiset() == networks@.to_multiset(),
        sorted_by(r.networks@, key_leq_fn::<Network>()),
        r.disks@ == disks_of(disks@),
        sorted_by(r.disks@, key_leq_fn::<MyDisk>()),
{
    Performance {
        cpus: build_cpu_records(cpus),
        mem: mem_stats(mem_total, mem_used),
        swap: swap_stats(swap_total, swap_used),
        networks: build_networks(networks),
        disks: build_disks(disks),
    }
}

} // verus!
