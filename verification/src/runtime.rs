//! Runtime model: GPU snapshots and monitors, host capabilities, the
//! multi-GPU worker plan, the latency window and the decision steps of
//! the AIMD back-pressure loop, and the scheduler's configuration.

use vstd::prelude::*;
use crate::chars::{is_alphanumeric, unicode_alphanumeric};
use crate::strings::{dec, push_char, push_dec, push_str};
use crate::text::join;

verus! {

// ---------------------------------------------------------------------------
// GPU monitoring
// ---------------------------------------------------------------------------

/// Failure of a GPU monitoring backend.
#[derive(Clone, Debug, PartialEq, Eq)]
pub enum GpuMonitorError {
    NvmlInit(String),
    DeviceNotFound(u32),
    NotImplemented,
}

impl GpuMonitorError {
    /// Human-readable description.
    pub fn message(&self) -> (r: String)
        ensures
            r@ == match *self {
                GpuMonitorError::NvmlInit(m) => "NVML init failed: "@ + m@,
                GpuMonitorError::DeviceNotFound(i) => "device "@ + dec(i as nat) + " not found"@,
                GpuMonitorError::NotImplemented => "backend not implemented for this platform"@,
            },
    {
        let mut s = String::new();
        match self {
            GpuMonitorError::NvmlInit(m) => {
                push_str(&mut s, "NVML init failed: ");
                push_str(&mut s, m.as_str());
            },
            GpuMonitorError::DeviceNotFound(i) => {
                push_str(&mut s, "device ");
                push_dec(&mut s, *i as u64);
                push_str(&mut s, " not found");
            },
            GpuMonitorError::NotImplemented => {
                push_str(&mut s, "backend not implemented for this platform");
            },
        }
        s
    }
}

/// GPU monitoring backend.
#[derive(Copy, Clone, Debug, PartialEq, Eq, Hash, Structural)]
pub enum GpuBackend {
    Nvml,
    Rocm,
    Metal,
    /// No GPU detected, or monitoring disabled.
    Noop,
}

/// One device's memory and load.
#[derive(Clone, Debug, PartialEq)]
pub struct GpuDeviceSnapshot {
    pub index: u32,
    pub name: String,
    pub vram_total_mb: u64,
    pub vram_used_mb: u64,
    /// Utilization in percent, as a binary32 bit pattern.
    pub util_pct: u32,
}

pub open spec fn free_mb(d: GpuDeviceSnapshot) -> nat {
    if d.vram_total_mb >= d.vram_used_mb {
        (d.vram_total_mb - d.vram_used_mb) as nat
    } else {
        0
    }
}

impl GpuDeviceSnapshot {
    /// Free VRAM: total minus used, never below zero.
    pub fn vram_free_mb(&self) -> (r: u64)
        ensures
            r == free_mb(*self),
    {
        self.vram_total_mb.saturating_sub(self.vram_used_mb)
    }
}

/// All devices one backend sees.
#[derive(Clone, Debug, PartialEq)]
pub struct GpuSnapshot {
    pub backend: GpuBackend,
    pub devices: Vec<GpuDeviceSnapshot>,
}

/// Sum of the free VRAM of some devices.
pub open spec fn total_free(ds: Seq<GpuDeviceSnapshot>) -> nat
    decreases ds.len(),
{
    if ds.len() == 0 {
        0
    } else {
        total_free(ds.drop_last()) + free_mb(ds.last())
    }
}

/// Sum of the total VRAM of some devices.
pub open spec fn total_vram(ds: Seq<GpuDeviceSnapshot>) -> nat
    decreases ds.len(),
{
    if ds.len() == 0 {
        0
    } else {
        total_vram(ds.drop_last()) + ds.last().vram_total_mb as nat
    }
}

proof fn lemma_total_free_prefix(ds: Seq<GpuDeviceSnapshot>, i: int)
    requires
        0 <= i <= ds.len(),
    ensures
        total_free(ds.take(i)) <= total_free(ds),
    decreases ds.len() - i,
{
    if i < ds.len() {
        assert(ds.take(i + 1).drop_last() =~= ds.take(i));
        lemma_total_free_prefix(ds, i + 1);
    } else {
        assert(ds.take(i) =~= ds);
    }
}

proof fn lemma_total_vram_prefix(ds: Seq<GpuDeviceSnapshot>, i: int)
    requires
        0 <= i <= ds.len(),
    ensures
        total_vram(ds.take(i)) <= total_vram(ds),
    decreases ds.len() - i,
{
    if i < ds.len() {
        assert(ds.take(i + 1).drop_last() =~= ds.take(i));
        lemma_total_vram_prefix(ds, i + 1);
    } else {
        assert(ds.take(i) =~= ds);
    }
}

impl GpuSnapshot {
    /// A snapshot with no device.
    pub fn empty(backend: GpuBackend) -> (r: GpuSnapshot)
        ensures
            r.backend == backend,
            r.devices@.len() == 0,
    {
        GpuSnapshot { backend, devices: Vec::new() }
    }

    pub fn has_gpu(&self) -> (r: bool)
        ensures
            r == (self.devices@.len() > 0),
    {
        self.devices.len() > 0
    }

    /// Free VRAM summed over the devices.
    pub fn total_vram_free_mb(&self) -> (r: u64)
        requires
            total_free(self.devices@) <= u64::MAX,
        ensures
            r == total_free(self.devices@),
    {
        let mut sum: u64 = 0;
        for i in 0..self.devices.len()
            invariant
                sum == total_free(self.devices@.take(i as int)),
                total_free(self.devices@) <= u64::MAX,
        {
            proof {
                assert(self.devices@.take(i + 1).drop_last() =~= self.devices@.take(i as int));
                lemma_total_free_prefix(self.devices@, i + 1);
            }
            sum = sum + self.devices[i].vram_free_mb();
        }
        assert(self.devices@.take(self.devices@.len() as int) =~= self.devices@);
        sum
    }
}

/// A source of GPU snapshots.
pub trait GpuMonitor {
    fn backend(&self) -> GpuBackend;

    fn snapshot(&self) -> GpuSnapshot;
}

/// Always reports no GPU.
#[derive(Copy, Clone, Debug, Default)]
pub struct NoopMonitor;

impl GpuMonitor for NoopMonitor {
    fn backend(&self) -> (r: GpuBackend)
        ensures
            r == GpuBackend::Noop,
    {
        GpuBackend::Noop
    }

    fn snapshot(&self) -> (r: GpuSnapshot)
        ensures
            r.backend == GpuBackend::Noop,
            r.devices@.len() == 0,
    {
        GpuSnapshot::empty(GpuBackend::Noop)
    }
}

/// ROCm placeholder: no device, ROCm tag.
#[derive(Copy, Clone, Debug, Default)]
pub struct RocmMonitor;

impl GpuMonitor for RocmMonitor {
    fn backend(&self) -> (r: GpuBackend)
        ensures
            r == GpuBackend::Rocm,
    {
        GpuBackend::Rocm
    }

    fn snapshot(&self) -> (r: GpuSnapshot)
        ensures
            r.backend == GpuBackend::Rocm,
            r.devices@.len() == 0,
    {
        GpuSnapshot::empty(GpuBackend::Rocm)
    }
}

/// Metal placeholder: no device, Metal tag.
#[derive(Copy, Clone, Debug, Default)]
pub struct MetalMonitor;

impl GpuMonitor for MetalMonitor {
    fn backend(&self) -> (r: GpuBackend)
        ensures
            r == GpuBackend::Metal,
    {
        GpuBackend::Metal
    }

    fn snapshot(&self) -> (r: GpuSnapshot)
        ensures
            r.backend == GpuBackend::Metal,
            r.devices@.len() == 0,
    {
        GpuSnapshot::empty(GpuBackend::Metal)
    }
}

/// What the NVIDIA driver reported for one device slot.
#[derive(Clone, Debug)]
pub enum DeviceReading {
    /// The slot could not be opened.
    Unavailable,
    /// The slot's readings: its name when the driver gave one, its memory
    /// as `(total, used)` bytes when the driver gave it, and its load in
    /// percent as a binary32 bit pattern (0 when unknown).
    Present { name: Option<String>, memory: Option<(u64, u64)>, util_pct: u32 },
}

/// Bytes per MB as the monitor counts them.
pub const BYTES_PER_MB: u64 = 1024 * 1024;

/// A device as the contracts compare it: index, name, total and used MB,
/// utilization bits.
pub open spec fn device_tuple(d: GpuDeviceSnapshot) -> (u32, Seq<char>, u64, u64, u32) {
    (d.index, d.name@, d.vram_total_mb, d.vram_used_mb, d.util_pct)
}

pub open spec fn device_tuples(ds: Seq<GpuDeviceSnapshot>) -> Seq<(u32, Seq<char>, u64, u64, u32)> {
    ds.map_values(|d: GpuDeviceSnapshot| device_tuple(d))
}

/// The name a device is listed under: the driver's, else `gpu-<slot>`.
pub open spec fn device_name(name: Option<String>, slot: nat) -> Seq<char> {
    match name {
        Some(n) => n@,
        None => "gpu-"@ + dec(slot),
    }
}

/// The devices a monitor lists from per-slot readings: every slot that was
/// opened and reported its memory, in slot order, memory in MB.
pub open spec fn listed_devices(rs: Seq<DeviceReading>) -> Seq<(u32, Seq<char>, u64, u64, u32)>
    decreases rs.len(),
{
    if rs.len() == 0 {
        seq![]
    } else {
        let prev = listed_devices(rs.drop_last());
        let slot = (rs.len() - 1) as nat;
        match rs.last() {
            DeviceReading::Present { name, memory: Some((total, used)), util_pct } => prev.push(
                (
                    slot as u32,
                    device_name(name, slot),
                    (total / BYTES_PER_MB) as u64,
                    (used / BYTES_PER_MB) as u64,
                    util_pct,
                ),
            ),
            _ => prev,
        }
    }
}

/// The NVML snapshot built from what the driver reported for each slot
/// (`readings[i]` for device `i`; empty when the device count failed).
/// Slots that could not be opened or gave no memory are left out.
pub fn snapshot_from_readings(readings: &Vec<DeviceReading>) -> (r: GpuSnapshot)
    requires
        readings@.len() <= 0x1_0000_0000,
    ensures
        r.backend == GpuBackend::Nvml,
        device_tuples(r.devices@) == listed_devices(readings@),
{
    let mut devices: Vec<GpuDeviceSnapshot> = Vec::new();
    for i in 0..readings.len()
        invariant
            readings@.len() <= 0x1_0000_0000,
            device_tuples(devices@) == listed_devices(readings@.take(i as int)),
    {
        proof {
            assert(readings@.take(i + 1).drop_last() =~= readings@.take(i as int));
            assert(readings@.take(i + 1).last() == readings@[i as int]);
        }
        match &readings[i] {
            DeviceReading::Present { name, memory: Some((total, used)), util_pct } => {
                let dev_name = match name {
                    Some(n) => n.clone(),
                    None => {
                        let mut s = String::new();
                        push_str(&mut s, "gpu-");
                        push_dec(&mut s, i as u64);
                        s
                    },
                };
                let d = GpuDeviceSnapshot {
                    index: i as u32,
                    name: dev_name,
                    vram_total_mb: *total / BYTES_PER_MB,
                    vram_used_mb: *used / BYTES_PER_MB,
                    util_pct: *util_pct,
                };
                let ghost before = device_tuples(devices@);
                devices.push(d);
                assert(device_tuples(devices@) =~= before.push(device_tuple(d)));
            },
            _ => {},
        }
    }
    assert(readings@.take(readings@.len() as int) =~= readings@);
    GpuSnapshot { backend: GpuBackend::Nvml, devices }
}

// ---------------------------------------------------------------------------
// Host capabilities
// ---------------------------------------------------------------------------

/// OCR backend ordering suggested for the host.
#[derive(Copy, Clone, Debug, PartialEq, Eq, Structural)]
pub enum OcrPreference {
    /// GPU-accelerated Surya first.
    SuryaPrimary,
    /// Tesseract first (CPU-only host).
    TesseractPrimary,
}

/// Triage profile suggested when none is configured.
#[derive(Copy, Clone, Debug, PartialEq, Eq, Structural)]
pub enum SuggestedProfile {
    Balanced,
    Fast,
}

/// What the host offers.
#[derive(Copy, Clone, Debug, PartialEq, Eq, Structural)]
pub struct Capabilities {
    pub has_gpu: bool,
    /// Total VRAM over all devices, in MB.
    pub total_vram_mb: u64,
    pub cpu_cores: usize,
    pub ocr_preference: OcrPreference,
    pub suggested_profile: SuggestedProfile,
    pub gpu_backend: GpuBackend,
}

/// VRAM (MB) from which the balanced profile is suggested.
pub const BALANCED_MIN_VRAM_MB: u64 = 8_000;

impl Capabilities {
    /// Capabilities of a host with the given GPU snapshot and core count.
    pub fn from_snapshot(snapshot: &GpuSnapshot, cpu_cores: usize) -> (r: Capabilities)
        requires
            total_vram(snapshot.devices@) <= u64::MAX,
        ensures
            r.has_gpu == (snapshot.devices@.len() > 0),
            r.total_vram_mb == total_vram(snapshot.devices@),
            r.cpu_cores == if cpu_cores >= 1 { cpu_cores } else { 1 },
            r.ocr_preference == if r.has_gpu {
                OcrPreference::SuryaPrimary
            } else {
                OcrPreference::TesseractPrimary
            },
            r.suggested_profile == if r.has_gpu && r.total_vram_mb >= BALANCED_MIN_VRAM_MB {
                SuggestedProfile::Balanced
            } else {
                SuggestedProfile::Fast
            },
            r.gpu_backend == snapshot.backend,
    {
        let has_gpu = snapshot.has_gpu();
        let mut total: u64 = 0;
        for i in 0..snapshot.devices.len()
            invariant
                total == total_vram(snapshot.devices@.take(i as int)),
                total_vram(snapshot.devices@) <= u64::MAX,
        {
            proof {
                assert(snapshot.devices@.take(i + 1).drop_last() =~= snapshot.devices@.take(i as int));
                lemma_total_vram_prefix(snapshot.devices@, i + 1);
            }
            total = total + snapshot.devices[i].vram_total_mb;
        }
        assert(snapshot.devices@.take(snapshot.devices@.len() as int) =~= snapshot.devices@);
        let ocr_preference = if has_gpu {
            OcrPreference::SuryaPrimary
        } else {
            OcrPreference::TesseractPrimary
        };
        let suggested_profile = if has_gpu && total >= BALANCED_MIN_VRAM_MB {
            SuggestedProfile::Balanced
        } else {
            SuggestedProfile::Fast
        };
        Capabilities {
            has_gpu,
            total_vram_mb: total,
            cpu_cores: if cpu_cores >= 1 { cpu_cores } else { 1 },
            ocr_preference,
            suggested_profile,
            gpu_backend: snapshot.backend,
        }
    }

    /// Default number of pages processed at once: the core count (at
    /// least 2) with a GPU, half of it (at least 1) without.
    pub fn suggested_concurrency(&self) -> (r: usize)
        ensures
            r == if self.has_gpu {
                if self.cpu_cores >= 2 { self.cpu_cores } else { 2 }
            } else {
                if self.cpu_cores / 2 >= 1 { self.cpu_cores / 2 } else { 1 }
            },
            r >= 1,
    {
        if self.has_gpu {
            if self.cpu_cores >= 2 { self.cpu_cores } else { 2 }
        } else {
            let half = self.cpu_cores / 2;
            if half >= 1 { half } else { 1 }
        }
    }
}

// ---------------------------------------------------------------------------
// Multi-GPU worker plan
// ---------------------------------------------------------------------------

/// Environment and label of one worker pinned to one GPU.
#[derive(Clone, Debug, PartialEq)]
pub struct WorkerSpec {
    pub gpu_index: u32,
    /// Label for logs, such as `nvidia-rtx-4090-0-0-r0`.
    pub label: String,
    /// Variables the spawner must set; each name occurs once.
    pub env: Vec<(String, String)>,
}

/// Mathematical view of a [`WorkerSpec`].
pub struct WorkerSpecV {
    pub gpu_index: u32,
    pub label: Seq<char>,
    pub env: Seq<(Seq<char>, Seq<char>)>,
}

impl View for WorkerSpec {
    type V = WorkerSpecV;

    open spec fn view(&self) -> WorkerSpecV {
        WorkerSpecV {
            gpu_index: self.gpu_index,
            label: self.label@,
            env: self.env@.map_values(|e: (String, String)| (e.0@, e.1@)),
        }
    }
}

pub open spec fn spec_views(v: Seq<WorkerSpec>) -> Seq<WorkerSpecV> {
    v.map_values(|w: WorkerSpec| w@)
}

/// Value of the first entry named `key`, if any.
pub open spec fn lookup(env: Seq<(Seq<char>, Seq<char>)>, key: Seq<char>) -> Option<Seq<char>>
    decreases env.len(),
{
    if env.len() == 0 {
        None
    } else {
        match lookup(env.drop_last(), key) {
            Some(v) => Some(v),
            None => if env.last().0 == key {
                Some(env.last().1)
            } else {
                None
            },
        }
    }
}

impl WorkerSpec {
    /// The value of environment variable `key`.
    pub fn env_var(&self, key: &str) -> (r: Option<String>)
        ensures
            match r {
                Some(v) => lookup(self@.env, key@) == Some(v@),
                None => lookup(self@.env, key@) is None,
            },
    {
        let ghost envs = self@.env;
        let k = crate::strings::string_from(&crate::chars::chars_of(key));
        for i in 0..self.env.len()
            invariant
                envs == self@.env,
                k@ == key@,
                lookup(envs.take(i as int), key@) is None,
        {
            proof {
                assert(envs.take(i + 1).drop_last() =~= envs.take(i as int));
                assert(envs.take(i + 1).last() == envs[i as int]);
            }
            if self.env[i].0 == k {
                proof {
                    assert(lookup(envs.take(i + 1), key@) == Some(envs[i as int].1));
                    lemma_lookup_prefix(envs, i + 1, envs[i as int].1, key@);
                }
                return Some(self.env[i].1.clone());
            }
        }
        assert(envs.take(envs.len() as int) =~= envs);
        None
    }
}

proof fn lemma_lookup_prefix(env: Seq<(Seq<char>, Seq<char>)>, k: int, v: Seq<char>, key: Seq<char>)
    requires
        0 <= k <= env.len(),
        lookup(env.take(k), key) == Some(v),
    ensures
        lookup(env, key) == Some(v),
    decreases env.len() - k,
{
    if k < env.len() {
        assert(env.take(k + 1).drop_last() =~= env.take(k));
        lemma_lookup_prefix(env, k + 1, v, key);
    } else {
        assert(env.take(k) =~= env);
    }
}

/// How workers are laid out over the GPUs.
#[derive(Clone, Debug, PartialEq, Eq)]
pub struct PoolConfig {
    /// Workers per GPU (at least one is always planned).
    pub workers_per_gpu: usize,
    /// GPUs the pool may use; empty means all.
    pub gpu_allowlist: Vec<u32>,
}

impl PoolConfig {
    /// One worker per GPU, all GPUs.
    pub fn default() -> (r: PoolConfig)
        ensures
            r.workers_per_gpu == 1,
            r.gpu_allowlist@.len() == 0,
    {
        PoolConfig { workers_per_gpu: 1, gpu_allowlist: Vec::new() }
    }
}

/// `char::to_ascii_lowercase`.
pub open spec fn ascii_lower(c: char) -> char {
    if 'A' <= c <= 'Z' {
        ((c as u32) + 32) as char
    } else {
        c
    }
}

/// Name characters kept (lowercased) when alphanumeric, others become `-`.
pub open spec fn label_chars(s: Seq<char>) -> Seq<char>
    decreases s.len(),
{
    if s.len() == 0 {
        seq![]
    } else {
        label_chars(s.drop_last()).push(
            if unicode_alphanumeric(s.last()) { ascii_lower(s.last()) } else { '-' },
        )
    }
}

/// Strip leading and trailing `'-'`.
pub open spec fn trim_dashes(s: Seq<char>) -> Seq<char>
    decreases s.len(),
{
    if s.len() > 0 && s[0] == '-' {
        trim_dashes(s.drop_first())
    } else if s.len() > 0 && s.last() == '-' {
        trim_dashes(s.drop_last())
    } else {
        s
    }
}

/// A device name turned into a label fragment.
pub open spec fn sanitized(name: Seq<char>) -> Seq<char> {
    trim_dashes(label_chars(name))
}

fn lower_char(c: char) -> (r: char)
    ensures
        r == ascii_lower(c),
{
    if 'A' <= c && c <= 'Z' {
        let u = (c as u32) + 32;
        assert(0x61 <= u <= 0x7a);
        let b = u as u8;
        b as char
    } else {
        c
    }
}

proof fn lemma_trim_dashes_range(s: Seq<char>, a: int, b: int)
    requires
        0 <= a <= b <= s.len(),
        forall|k: int| 0 <= k < a ==> s[k] == '-',
        forall|k: int| b <= k < s.len() ==> s[k] == '-',
        a == b || (s[a] != '-' && s[b - 1] != '-'),
    ensures
        trim_dashes(s) == s.subrange(a, b),
    decreases s.len(),
{
    if s.len() > 0 && s[0] == '-' {
        if a == 0 {
            assert(a == b);
            assert forall|k: int| 0 <= k < s.len() implies s[k] == '-' by {}
            let t = s.drop_first();
            lemma_trim_dashes_range(t, 0, 0);
            assert(t.subrange(0, 0) =~= s.subrange(0, 0));
        } else {
            let t = s.drop_first();
            assert forall|k: int| 0 <= k < a - 1 implies t[k] == '-' by {
                assert(t[k] == s[k + 1]);
            }
            assert forall|k: int| b - 1 <= k < t.len() implies t[k] == '-' by {
                assert(t[k] == s[k + 1]);
            }
            lemma_trim_dashes_range(t, a - 1, b - 1);
            assert(t.subrange(a - 1, b - 1) =~= s.subrange(a, b));
        }
    } else if s.len() > 0 && s.last() == '-' {
        let t = s.drop_last();
        if b == s.len() {
            assert(a == b);
            lemma_trim_dashes_range(t, a - 0, a);
            assert(t.subrange(a, a) =~= s.subrange(a, b));
        } else {
            lemma_trim_dashes_range(t, a, b);
            assert(t.subrange(a, b) =~= s.subrange(a, b));
        }
    } else {
        if s.len() == 0 {
            assert(s.subrange(a, b) =~= s);
        } else {
            if a > 0 {
                assert(s[0] == '-');
            }
            if b < s.len() {
                assert(s[s.len() - 1] == '-');
            }
            assert(s.subrange(a, b) =~= s);
        }
    }
}

/// A device name as a label fragment: alphanumerics lowercased, other
/// characters replaced by `-`, leading and trailing `-` removed.
pub fn sanitize(name: &str) -> (r: String)
    ensures
        r@ == sanitized(name@),
{
    let v = crate::chars::chars_of(name);
    let mut m: Vec<char> = Vec::new();
    for i in 0..v.len()
        invariant
            m@ == label_chars(v@.take(i as int)),
    {
        proof {
            assert(v@.take(i + 1).drop_last() =~= v@.take(i as int));
        }
        let c = v[i];
        if is_alphanumeric(c) {
            m.push(lower_char(c));
        } else {
            m.push('-');
        }
    }
    assert(v@.take(v@.len() as int) =~= v@);
    let mut a: usize = 0;
    while a < m.len() && m[a] == '-'
        invariant
            a <= m@.len(),
            forall|k: int| 0 <= k < a ==> m@[k] == '-',
        decreases m@.len() - a,
    {
        a = a + 1;
    }
    let mut b: usize = m.len();
    while b > a && m[b - 1] == '-'
        invariant
            a <= b <= m@.len(),
            forall|k: int| b <= k < m@.len() ==> m@[k] == '-',
        decreases b,
    {
        b = b - 1;
    }
    proof {
        if a < b {
            assert(m@[a as int] != '-');
        }
        lemma_trim_dashes_range(m@, a as int, b as int);
    }
    let mut out = String::new();
    crate::strings::push_range(&mut out, &m, a, b);
    out
}

/// The environment of worker `replica` on GPU `index`.
pub open spec fn worker_env(index: u32, replica: nat) -> Seq<(Seq<char>, Seq<char>)> {
    seq![
        ("CUDA_VISIBLE_DEVICES"@, dec(index as nat)),
        ("HIP_VISIBLE_DEVICES"@, dec(index as nat)),
        ("STRATA_WORKER_GPU"@, dec(index as nat)),
        ("STRATA_WORKER_REPLICA"@, dec(replica)),
    ]
}

/// The spec of worker `replica` on device `d`.
pub open spec fn worker_of(d: GpuDeviceSnapshot, replica: nat) -> WorkerSpecV {
    WorkerSpecV {
        gpu_index: d.index,
        label: sanitized(d.name@) + seq!['-'] + dec(d.index as nat) + "-r"@ + dec(replica),
        env: worker_env(d.index, replica),
    }
}

/// Workers `0..n` of device `d`.
pub open spec fn replicas(d: GpuDeviceSnapshot, n: nat) -> Seq<WorkerSpecV>
    decreases n,
{
    if n == 0 {
        seq![]
    } else {
        replicas(d, (n - 1) as nat).push(worker_of(d, (n - 1) as nat))
    }
}

/// Whether the pool may use GPU `index`.
pub open spec fn allowed(allow: Seq<u32>, index: u32) -> bool {
    allow.len() == 0 || allow.contains(index)
}

/// The whole plan: for each allowed device in order, its workers.
pub open spec fn plan_spec(ds: Seq<GpuDeviceSnapshot>, allow: Seq<u32>, per_gpu: nat) -> Seq<WorkerSpecV>
    decreases ds.len(),
{
    if ds.len() == 0 {
        seq![]
    } else {
        plan_spec(ds.drop_last(), allow, per_gpu) + if allowed(allow, ds.last().index) {
            replicas(ds.last(), if per_gpu >= 1 { per_gpu } else { 1 })
        } else {
            seq![]
        }
    }
}

fn env_entry(name: &str, value: &String) -> (r: (String, String))
    ensures
        r.0@ == name@,
        r.1@ == value@,
{
    let mut k = String::new();
    push_str(&mut k, name);
    (k, value.clone())
}

/// One worker per replica per allowed GPU, with the GPU pinned through
/// `CUDA_VISIBLE_DEVICES` / `HIP_VISIBLE_DEVICES`; empty on CPU-only
/// hosts.
pub fn plan_workers(snap: &GpuSnapshot, config: &PoolConfig) -> (r: Vec<WorkerSpec>)
    ensures
        spec_views(r@) == plan_spec(snap.devices@, config.gpu_allowlist@, config.workers_per_gpu as nat),
{
    let mut specs: Vec<WorkerSpec> = Vec::new();
    let ghost ds = snap.devices@;
    let ghost allow = config.gpu_allowlist@;
    let ghost per = config.workers_per_gpu as nat;
    let n: usize = if config.workers_per_gpu >= 1 { config.workers_per_gpu } else { 1 };
    for i in 0..snap.devices.len()
        invariant
            ds == snap.devices@,
            allow == config.gpu_allowlist@,
            per == config.workers_per_gpu as nat,
            n == (if per >= 1 { per } else { 1 }),
            spec_views(specs@) == plan_spec(ds.take(i as int), allow, per),
    {
        let device = &snap.devices[i];
        proof {
            assert(ds.take(i + 1).drop_last() =~= ds.take(i as int));
            assert(ds.take(i + 1).last() == *device);
        }
        let mut ok = config.gpu_allowlist.len() == 0;
        if !ok {
            for j in 0..config.gpu_allowlist.len()
                invariant
                    allow == config.gpu_allowlist@,
                    ok == (exists|k: int| 0 <= k < j && allow[k] == device.index),
            {
                if config.gpu_allowlist[j] == device.index {
                    ok = true;
                }
            }
        }
        let ghost before = spec_views(specs@);
        if ok {
            let idx = crate::strings::dec_string(device.index as u64);
            let name = sanitize(device.name.as_str());
            let mut replica: usize = 0;
            while replica < n
                invariant
                    0 <= replica <= n,
                    idx@ == dec(device.index as nat),
                    name@ == sanitized(device.name@),
                    spec_views(specs@) == before + replicas(*device, replica as nat),
                decreases n - replica,
            {
                let rep = crate::strings::dec_string(replica as u64);
                let mut env: Vec<(String, String)> = Vec::new();
                env.push(env_entry("CUDA_VISIBLE_DEVICES", &idx));
                env.push(env_entry("HIP_VISIBLE_DEVICES", &idx));
                env.push(env_entry("STRATA_WORKER_GPU", &idx));
                env.push(env_entry("STRATA_WORKER_REPLICA", &rep));
                let mut label = name.clone();
                push_char(&mut label, '-');
                push_str(&mut label, idx.as_str());
                push_str(&mut label, "-r");
                push_str(&mut label, rep.as_str());
                let w = WorkerSpec { gpu_index: device.index, label, env };
                let ghost sv = spec_views(specs@);
                specs.push(w);
                proof {
                    assert(w@.label =~= sanitized(device.name@) + seq!['-'] + dec(device.index as nat)
                        + "-r"@ + dec(replica as nat));
                    assert(w@.env =~= worker_env(device.index, replica as nat));
                    assert(w@ == worker_of(*device, replica as nat));
                    assert(spec_views(specs@) =~= sv.push(w@));
                    assert(before + replicas(*device, replica as nat + 1) =~= (before + replicas(
                        *device,
                        replica as nat,
                    )).push(worker_of(*device, replica as nat)));
                }
                replica = replica + 1;
            }
        } else {
            assert(!allowed(allow, device.index));
            assert(before + Seq::<WorkerSpecV>::empty() =~= before);
        }
    }
    assert(ds.take(ds.len() as int) =~= ds);
    specs
}

/// Code-point lexicographic order (the order of `str`).
pub open spec fn lex_le(a: Seq<char>, b: Seq<char>) -> bool
    decreases a.len(),
{
    if a.len() == 0 {
        true
    } else if b.len() == 0 {
        false
    } else if a[0] != b[0] {
        a[0] < b[0]
    } else {
        lex_le(a.drop_first(), b.drop_first())
    }
}

/// Position where `x` goes in `s`: before the first element not below it.
pub open spec fn insert_pos(s: Seq<Seq<char>>, x: Seq<char>) -> nat
    decreases s.len(),
{
    if s.len() == 0 {
        0
    } else if lex_le(x, s[0]) {
        0
    } else {
        1 + insert_pos(s.drop_first(), x)
    }
}

/// Insertion sort of strings in code-point order.
pub open spec fn sort_lines(s: Seq<Seq<char>>) -> Seq<Seq<char>>
    decreases s.len(),
{
    if s.len() == 0 {
        seq![]
    } else {
        let t = sort_lines(s.drop_last());
        let p = insert_pos(t, s.last()) as int;
        t.take(p) + seq![s.last()] + t.skip(p)
    }
}

fn lex_le_exec(a: &Vec<char>, b: &Vec<char>) -> (r: bool)
    ensures
        r == lex_le(a@, b@),
{
    let mut i: usize = 0;
    assert(a@.skip(0) =~= a@);
    assert(b@.skip(0) =~= b@);
    while i < a.len() && i < b.len() && a[i] == b[i]
        invariant
            i <= a@.len(),
            i <= b@.len(),
            lex_le(a@, b@) == lex_le(a@.skip(i as int), b@.skip(i as int)),
        decreases a@.len() - i,
    {
        proof {
            let x = a@.skip(i as int);
            let y = b@.skip(i as int);
            assert(x.drop_first() =~= a@.skip(i + 1));
            assert(y.drop_first() =~= b@.skip(i + 1));
        }
        i = i + 1;
    }
    if i == a.len() {
        true
    } else if i == b.len() {
        false
    } else {
        a[i] < b[i]
    }
}

/// `"{label} -> gpu {index} ({n} env vars)"`.
pub open spec fn pool_line(w: WorkerSpecV) -> Seq<char> {
    w.label + " -> gpu "@ + dec(w.gpu_index as nat) + " ("@ + dec(w.env.len()) + " env vars)"@
}

/// The description lines of some workers, in their order.
pub open spec fn pool_lines(ws: Seq<WorkerSpecV>) -> Seq<Seq<char>> {
    ws.map_values(|w: WorkerSpecV| pool_line(w))
}

/// The pool description: one line per worker, sorted, newline-joined.
pub open spec fn describe_spec(ws: Seq<WorkerSpecV>) -> Seq<char> {
    join(sort_lines(pool_lines(ws)), seq!['\n'])
}

/// Code-point order as a relation.
pub open spec fn lex_order() -> spec_fn(Seq<char>, Seq<char>) -> bool {
    |a: Seq<char>, b: Seq<char>| lex_le(a, b)
}

proof fn lemma_lex_refl(a: Seq<char>)
    ensures
        lex_le(a, a),
    decreases a.len(),
{
    if a.len() > 0 {
        lemma_lex_refl(a.drop_first());
    }
}

proof fn lemma_lex_antisym(a: Seq<char>, b: Seq<char>)
    requires
        lex_le(a, b),
        lex_le(b, a),
    ensures
        a == b,
    decreases a.len(),
{
    if a.len() == 0 {
        assert(b.len() == 0);
        assert(a =~= b);
    } else {
        assert(b.len() > 0);
        assert(a[0] == b[0]);
        lemma_lex_antisym(a.drop_first(), b.drop_first());
        assert forall|i: int| 0 <= i < a.len() implies a[i] == b[i] by {
            if i > 0 {
                assert(a[i] == a.drop_first()[i - 1]);
                assert(b[i] == b.drop_first()[i - 1]);
            }
        }
        assert(a =~= b);
    }
}

proof fn lemma_lex_trans(a: Seq<char>, b: Seq<char>, c: Seq<char>)
    requires
        lex_le(a, b),
        lex_le(b, c),
    ensures
        lex_le(a, c),
    decreases a.len(),
{
    if a.len() > 0 {
        assert(b.len() > 0);
        assert(c.len() > 0);
        if a[0] == b[0] && b[0] == c[0] {
            lemma_lex_trans(a.drop_first(), b.drop_first(), c.drop_first());
        }
    }
}

proof fn lemma_lex_total(a: Seq<char>, b: Seq<char>)
    ensures
        lex_le(a, b) || lex_le(b, a),
    decreases a.len(),
{
    if a.len() > 0 && b.len() > 0 && a[0] == b[0] {
        lemma_lex_total(a.drop_first(), b.drop_first());
    }
}

proof fn lemma_lex_total_ordering()
    ensures
        vstd::relations::total_ordering(lex_order()),
{
    let r = lex_order();
    assert forall|x: Seq<char>| #[trigger] r(x, x) by {
        lemma_lex_refl(x);
    }
    assert forall|x: Seq<char>, y: Seq<char>| #[trigger] r(x, y) && #[trigger] r(y, x) implies x == y by {
        lemma_lex_antisym(x, y);
    }
    assert forall|x: Seq<char>, y: Seq<char>, z: Seq<char>| #[trigger] r(x, y) && #[trigger] r(y, z) implies r(x, z) by {
        lemma_lex_trans(x, y, z);
    }
    assert forall|x: Seq<char>, y: Seq<char>| #[trigger] r(x, y) || #[trigger] r(y, x) by {
        lemma_lex_total(x, y);
    }
}

proof fn lemma_insert_pos(t: Seq<Seq<char>>, x: Seq<char>)
    ensures
        insert_pos(t, x) <= t.len(),
        forall|i: int| 0 <= i < insert_pos(t, x) ==> !lex_le(x, #[trigger] t[i]),
        insert_pos(t, x) < t.len() ==> lex_le(x, t[insert_pos(t, x) as int]),
    decreases t.len(),
{
    if t.len() > 0 && !lex_le(x, t[0]) {
        let u = t.drop_first();
        lemma_insert_pos(u, x);
        assert forall|i: int| 0 <= i < insert_pos(t, x) implies !lex_le(x, #[trigger] t[i]) by {
            if i > 0 {
                assert(t[i] == u[i - 1]);
            }
        }
        if insert_pos(t, x) < t.len() {
            assert(t[insert_pos(t, x) as int] == u[insert_pos(u, x) as int]);
        }
    }
}

/// Insertion sort yields the same lines in code-point order.
proof fn lemma_sort_lines(s: Seq<Seq<char>>)
    ensures
        vstd::relations::sorted_by(sort_lines(s), lex_order()),
        sort_lines(s).to_multiset() == s.to_multiset(),
    decreases s.len(),
{
    broadcast use vstd::seq_lib::group_to_multiset_ensures;

    if s.len() == 0 {
        assert(sort_lines(s) =~= s);
    } else {
        let d = s.drop_last();
        let x = s.last();
        lemma_sort_lines(d);
        let t = sort_lines(d);
        lemma_insert_pos(t, x);
        let p = insert_pos(t, x) as int;
        let r = t.take(p) + seq![x] + t.skip(p);
        assert(r == sort_lines(s));
        let ord = lex_order();
        assert forall|i: int, j: int| 0 <= i < j < r.len() implies #[trigger] ord(r[i], r[j]) by {
            if j < p {
                assert(r[i] == t[i] && r[j] == t[j]);
                assert(ord(t[i], t[j]));
            } else if j == p {
                assert(r[i] == t[i] && r[j] == x);
                lemma_lex_total(x, t[i]);
            } else if i < p {
                assert(r[i] == t[i] && r[j] == t[j - 1]);
                assert(ord(t[i], t[j - 1]));
            } else if i == p {
                assert(r[i] == x && r[j] == t[j - 1]);
                if j - 1 > p {
                    assert(ord(t[p], t[j - 1]));
                    lemma_lex_trans(x, t[p], t[j - 1]);
                }
            } else {
                assert(r[i] == t[i - 1] && r[j] == t[j - 1]);
                assert(ord(t[i - 1], t[j - 1]));
            }
        }
        assert(r =~= t.insert(p, x));
        assert(s =~= d.push(x));
    }
}

proof fn lemma_pool_lines_multiset(s1: Seq<WorkerSpecV>, s2: Seq<WorkerSpecV>)
    requires
        s1.to_multiset() == s2.to_multiset(),
    ensures
        pool_lines(s1).to_multiset() == pool_lines(s2).to_multiset(),
    decreases s1.len(),
{
    broadcast use vstd::seq_lib::group_to_multiset_ensures;
    broadcast use vstd::multiset::group_multiset_axioms;

    if s1.len() == 0 {
        assert(s1.to_multiset().len() == s1.len());
        assert(s2.to_multiset().len() == s2.len());
        assert(s2.len() == 0);
        assert(pool_lines(s1) =~= pool_lines(s2));
    } else {
        let d = s1.drop_last();
        let x = s1.last();
        assert(s1 =~= d.push(x));
        assert(s2.to_multiset().count(x) > 0);
        assert(s2.contains(x));
        let k = choose|k: int| 0 <= k < s2.len() && s2[k] == x;
        let e = s2.remove(k);
        assert(s2 =~= e.insert(k, x));
        assert(d.to_multiset() =~= e.to_multiset()) by {
            assert(d.to_multiset().insert(x) == e.to_multiset().insert(x));
            assert forall|y: WorkerSpecV| d.to_multiset().count(y) == e.to_multiset().count(y) by {
                assert(d.to_multiset().insert(x).count(y) == e.to_multiset().insert(x).count(y));
            }
        }
        lemma_pool_lines_multiset(d, e);
        assert(pool_lines(s1) =~= pool_lines(d).push(pool_line(x)));
        assert(pool_lines(s2) =~= pool_lines(e).insert(k, pool_line(x)));
    }
}

/// The pool description does not depend on the order of the workers: two
/// plans that hold the same workers, in any order, are described by the
/// same text.
pub proof fn lemma_describe_pool_order_free(ws: Seq<WorkerSpecV>, vs: Seq<WorkerSpecV>)
    requires
        vs.to_multiset() == ws.to_multiset(),
    ensures
        describe_spec(vs) == describe_spec(ws),
{
    lemma_pool_lines_multiset(vs, ws);
    lemma_sort_lines(pool_lines(vs));
    lemma_sort_lines(pool_lines(ws));
    lemma_lex_total_ordering();
    vstd::seq_lib::lemma_sorted_unique(sort_lines(pool_lines(vs)), sort_lines(pool_lines(ws)), lex_order());
}

/// A stable, sorted description of a worker plan.
pub fn describe_pool(specs: &Vec<WorkerSpec>) -> (r: String)
    ensures
        r@ == describe_spec(spec_views(specs@)),
{
    let ghost ls = pool_lines(spec_views(specs@));
    let mut sorted: Vec<Vec<char>> = Vec::new();
    for i in 0..specs.len()
        invariant
            ls == pool_lines(spec_views(specs@)),
            crate::text::seq_views(sorted@) == sort_lines(ls.take(i as int)),
    {
        let s = &specs[i];
        let mut line = String::new();
        push_str(&mut line, s.label.as_str());
        push_str(&mut line, " -> gpu ");
        push_dec(&mut line, s.gpu_index as u64);
        push_str(&mut line, " (");
        push_dec(&mut line, s.env.len() as u64);
        push_str(&mut line, " env vars)");
        assert(s@.env.len() == s.env@.len());
        assert(line@ == ls[i as int]);
        let x = crate::chars::chars_of(line.as_str());
        let ghost t = crate::text::seq_views(sorted@);
        proof {
            assert(ls.take(i + 1).drop_last() =~= ls.take(i as int));
            assert(ls.take(i + 1).last() == x@);
        }
        let mut p: usize = 0;
        assert(t.skip(0) =~= t);
        while p < sorted.len() && !lex_le_exec(&x, &sorted[p])
            invariant
                p <= sorted@.len(),
                t == crate::text::seq_views(sorted@),
                insert_pos(t, x@) == p + insert_pos(t.skip(p as int), x@),
            decreases sorted@.len() - p,
        {
            proof {
                let u = t.skip(p as int);
                assert(u[0] == t[p as int]);
                assert(u.drop_first() =~= t.skip(p + 1));
            }
            p = p + 1;
        }
        proof {
            if p < t.len() {
                let u = t.skip(p as int);
                assert(u[0] == t[p as int]);
            }
        }
        sorted.insert(p, x);
        assert(crate::text::seq_views(sorted@) =~= t.take(p as int) + seq![x@] + t.skip(p as int));
    }
    assert(ls.take(specs@.len() as int) =~= ls);
    let mut out = String::new();
    crate::text::push_joined(&mut out, &sorted, '\n');
    out
}

// ---------------------------------------------------------------------------
// Back-pressure decisions and the latency window
// ---------------------------------------------------------------------------

/// Why a caller asks the controller to back off.
#[derive(Copy, Clone, Debug, PartialEq, Eq, Structural)]
pub enum BackoffReason {
    ResourceExhausted,
    Timeout,
    Unreachable,
    LatencyBudgetExceeded,
}

/// Additive increase: one more slot, never above `max`.
pub fn additive_increase(current: usize, max: usize) -> (r: usize)
    ensures
        r == if current >= max { current } else { (current + 1) as usize },
{
    if current >= max { current } else { current + 1 }
}

/// The starting window: `initial` clamped into `[min, max]`.
pub fn initial_window(initial: usize, min: usize, max: usize) -> (r: usize)
    requires
        min <= max,
    ensures
        min <= r <= max,
        r == if initial < min { min } else if initial > max { max } else { initial },
{
    if initial < min { min } else if initial > max { max } else { initial }
}

/// Ring buffer of the most recent latency observations (milliseconds).
#[derive(Clone, Debug)]
pub struct LatencyWindow {
    buf: Vec<u32>,
    cap: usize,
    next: usize,
    len: usize,
}

/// Insertion position of `x` in `s`: before the first element not below it.
pub open spec fn insert_pos_u32(s: Seq<u32>, x: u32) -> nat
    decreases s.len(),
{
    if s.len() == 0 {
        0
    } else if x <= s[0] {
        0
    } else {
        1 + insert_pos_u32(s.drop_first(), x)
    }
}

/// Insertion sort of integers.
pub open spec fn sorted_u32(s: Seq<u32>) -> Seq<u32>
    decreases s.len(),
{
    if s.len() == 0 {
        seq![]
    } else {
        let t = sorted_u32(s.drop_last());
        let p = insert_pos_u32(t, s.last()) as int;
        t.take(p) + seq![s.last()] + t.skip(p)
    }
}

impl LatencyWindow {
    /// Slots, next slot to write, and observations held.
    pub closed spec fn ring(&self) -> (Seq<u32>, nat, nat) {
        (self.buf@, self.next as nat, self.len as nat)
    }

    pub closed spec fn capacity_spec(&self) -> nat {
        self.cap as nat
    }

    /// The observations held: the first `len` slots.
    pub open spec fn sample(&self) -> Seq<u32> {
        self.ring().0.take(self.ring().2 as int)
    }

    pub closed spec fn wf(&self) -> bool {
        &&& self.buf@.len() == self.cap
        &&& self.len <= self.cap
        &&& (self.cap > 0 ==> self.next < self.cap)
        &&& (self.cap == 0 ==> self.next == 0)
        &&& (self.len < self.cap ==> self.next == self.len)
    }

    /// An empty window of `cap` slots.
    pub fn new(cap: usize) -> (r: LatencyWindow)
        ensures
            r.wf(),
            r.capacity_spec() == cap,
            r.ring() == (Seq::new(cap as nat, |i: int| 0u32), 0nat, 0nat),
    {
        let mut buf: Vec<u32> = Vec::new();
        for i in 0..cap
            invariant
                buf@ == Seq::new(i as nat, |k: int| 0u32),
        {
            buf.push(0);
            assert(buf@ =~= Seq::new((i + 1) as nat, |k: int| 0u32));
        }
        LatencyWindow { buf, cap, next: 0, len: 0 }
    }

    pub fn capacity(&self) -> (r: usize)
        ensures
            r == self.capacity_spec(),
    {
        self.cap
    }

    /// Number of observations held.
    pub fn len(&self) -> (r: usize)
        ensures
            r == self.ring().2,
    {
        self.len
    }

    /// Records one observation, overwriting the oldest once full.
    pub fn push(&mut self, value: u32)
        requires
            old(self).wf(),
            old(self).capacity_spec() > 0,
        ensures
            final(self).wf(),
            final(self).capacity_spec() == old(self).capacity_spec(),
            final(self).ring().0 == old(self).ring().0.update(old(self).ring().1 as int, value),
            final(self).ring().1 == (old(self).ring().1 + 1) % old(self).capacity_spec(),
            final(self).ring().2 == if old(self).ring().2 < old(self).capacity_spec() {
                old(self).ring().2 + 1
            } else {
                old(self).ring().2
            },
    {
        self.buf.set(self.next, value);
        proof {
            vstd::arithmetic::div_mod::lemma_mod_bound((self.next + 1) as int, self.cap as int);
            if self.next + 1 < self.cap {
                vstd::arithmetic::div_mod::lemma_small_mod((self.next + 1) as nat, self.cap as nat);
            }
        }
        self.next = (self.next + 1) % self.cap;
        if self.len < self.cap {
            self.len = self.len + 1;
        }
    }

    /// The `k`-th smallest held observation (0-based).
    pub fn value_at_rank(&self, k: usize) -> (r: u32)
        requires
            self.wf(),
            k < self.ring().2,
        ensures
            r == sorted_u32(self.sample())[k as int],
    {
        let mut sample: Vec<u32> = Vec::new();
        for i in 0..self.len
            invariant
                self.wf(),
                sample@ == self.buf@.take(i as int),
        {
            sample.push(self.buf[i]);
            assert(sample@ =~= self.buf@.take(i + 1));
        }
        let sorted = sort_u32(&sample);
        proof {
            lemma_sorted_len(sample@);
        }
        sorted[k]
    }
}

proof fn lemma_sorted_len(s: Seq<u32>)
    ensures
        sorted_u32(s).len() == s.len(),
    decreases s.len(),
{
    if s.len() > 0 {
        lemma_sorted_len(s.drop_last());
        lemma_insert_pos_bound(sorted_u32(s.drop_last()), s.last());
    }
}

proof fn lemma_insert_pos_bound(s: Seq<u32>, x: u32)
    ensures
        insert_pos_u32(s, x) <= s.len(),
    decreases s.len(),
{
    if s.len() > 0 && !(x <= s[0]) {
        lemma_insert_pos_bound(s.drop_first(), x);
    }
}

/// Sorts integers in ascending order (insertion sort).
pub fn sort_u32(v: &Vec<u32>) -> (r: Vec<u32>)
    ensures
        r@ == sorted_u32(v@),
{
    let mut sorted: Vec<u32> = Vec::new();
    for i in 0..v.len()
        invariant
            sorted@ == sorted_u32(v@.take(i as int)),
    {
        let x = v[i];
        let ghost t = sorted@;
        proof {
            assert(v@.take(i + 1).drop_last() =~= v@.take(i as int));
            assert(v@.take(i + 1).last() == x);
        }
        let mut p: usize = 0;
        assert(t.skip(0) =~= t);
        while p < sorted.len() && x > sorted[p]
            invariant
                p <= sorted@.len(),
                t == sorted@,
                insert_pos_u32(t, x) == p + insert_pos_u32(t.skip(p as int), x),
            decreases sorted@.len() - p,
        {
            proof {
                let u = t.skip(p as int);
                assert(u[0] == t[p as int]);
                assert(u.drop_first() =~= t.skip(p + 1));
            }
            p = p + 1;
        }
        proof {
            if p < t.len() {
                assert(t.skip(p as int)[0] == t[p as int]);
            }
        }
        sorted.insert(p, x);
        assert(sorted@ =~= t.take(p as int) + seq![x] + t.skip(p as int));
    }
    assert(v@.take(v@.len() as int) =~= v@);
    sorted
}

/// While the window is filling up, it holds exactly the observations in
/// arrival order.
pub proof fn lemma_window_fills_in_order(w0: LatencyWindow, w1: LatencyWindow, v: u32)
    requires
        w0.wf(),
        w0.capacity_spec() > 0,
        w0.ring().2 < w0.capacity_spec(),
        w1.ring().0 == w0.ring().0.update(w0.ring().1 as int, v),
        w1.ring().2 == w0.ring().2 + 1,
    ensures
        w1.sample() == w0.sample().push(v),
{
    assert(w1.sample() =~= w0.sample().push(v));
}

// ---------------------------------------------------------------------------
// Scheduler configuration
// ---------------------------------------------------------------------------

/// Limits of the page scheduler.
#[derive(Copy, Clone, Debug, PartialEq, Eq, Structural)]
pub struct SchedulerConfig {
    /// Maximum number of tasks in flight.
    pub max_concurrent_pages: usize,
    /// Stop spawning after the first failed task.
    pub abort_on_first_error: bool,
}

impl SchedulerConfig {
    /// Number of permits the scheduler hands out: the limit, at least 1.
    pub fn permits(&self) -> (r: usize)
        ensures
            r == if self.max_concurrent_pages >= 1 { self.max_concurrent_pages } else { 1 },
    {
        if self.max_concurrent_pages >= 1 { self.max_concurrent_pages } else { 1 }
    }
}

} // verus!
