//! The data carried by snapshots: process, CPU, memory, swap, network and
//! disk records, and the assembled performance snapshot.
//!
//! CPU usage percentages are held as order-preserving integer keys rather
//! than floating-point values: the core only ever compares them, and the
//! application edge encodes each sampled percentage into a key whose integer
//! order is the total order on the samples.
use vstd::prelude::*;

verus! {

/// One live process at sample time. `memory` is in whole MiB, truncated;
/// `cpu_usage` is an order-preserving key for the sampled usage percentage.
#[derive(Clone)]
pub struct MyProcess {
    pub pid: u32,
    pub name: String,
    pub memory: u64,
    pub cpu_usage: u32,
    pub read_bytes: u64,
    pub written_bytes: u64,
}

impl MyProcess {
    /// A field-for-field copy of another record.
    pub fn new(other: &MyProcess) -> (r: MyProcess)
        ensures
            r == *other,
    {
        MyProcess {
            pid: other.pid,
            name: other.name.clone(),
            memory: other.memory,
            cpu_usage: other.cpu_usage,
            read_bytes: other.read_bytes,
            written_bytes: other.written_bytes,
        }
    }
}

/// One CPU core: its name and the usage keys sampled so far this tick
/// (exactly one per tick in the current design).
#[derive(Clone)]
pub struct MyCpu {
    pub name: String,
    pub uses: Vec<u32>,
}

/// Memory totals in whole GiB, truncated.
pub struct Mem {
    pub total: u64,
    pub used: u64,
    pub free: u64,
}

impl Mem {
    pub fn default() -> (r: Mem)
        ensures
            r.total == 0,
            r.used == 0,
            r.free == 0,
    {
        Mem { total: 0, used: 0, free: 0 }
    }
}

/// Swap totals in whole GiB, truncated.
pub struct Swap {
    pub total: u64,
    pub used: u64,
    pub free: u64,
}

impl Swap {
    pub fn default() -> (r: Swap)
        ensures
            r.total == 0,
            r.used == 0,
            r.free == 0,
    {
        Swap { total: 0, used: 0, free: 0 }
    }
}

/// One network interface: bytes moved since the last tick and cumulative
/// totals, as the provider reports them.
#[derive(Clone)]
pub struct Network {
    pub name: String,
    pub transmitted: u64,
    pub received: u64,
    pub total_transmitted: u64,
    pub total_received: u64,
}

/// One mounted disk. `space` is the capacity in whole GiB, truncated;
/// `used` and `free` are in bytes.
#[derive(Clone)]
pub struct MyDisk {
    pub local: String,
    pub kind: String,
    pub structure: String,
    pub space: u64,
    pub removable: bool,
    pub used: u64,
    pub free: u64,
}

/// One published performance snapshot: disks sorted ascending by mount
/// path, networks sorted ascending by interface name.
pub struct Performance {
    pub cpus: Vec<MyCpu>,
    pub mem: Mem,
    pub swap: Swap,
    pub networks: Vec<Network>,
    pub disks: Vec<MyDisk>,
}

impl Performance {
    pub fn default() -> (r: Performance)
        ensures
            r.cpus@.len() == 0,
            r.mem.total == 0 && r.mem.used == 0 && r.mem.free == 0,
            r.swap.total == 0 && r.swap.used == 0 && r.swap.free == 0,
            r.networks@.len() == 0,
            r.disks@.len() == 0,
    {
        Performance {
            cpus: Vec::new(),
            mem: Mem::default(),
            swap: Swap::default(),
            networks: Vec::new(),
            disks: Vec::new(),
        }
    }
}

} // verus!
