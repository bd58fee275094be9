use strata::runtime::{
    additive_increase, describe_pool, initial_window, plan_workers, sanitize, sort_u32, Capabilities,
    GpuBackend, GpuDeviceSnapshot, GpuMonitor, GpuMonitorError, GpuSnapshot, LatencyWindow, MetalMonitor,
    NoopMonitor, OcrPreference, PoolConfig, RocmMonitor, SchedulerConfig, SuggestedProfile,
    snapshot_from_readings, DeviceReading,
};

fn gpu_snap_with(total_mb: u64) -> GpuSnapshot {
    GpuSnapshot {
        backend: GpuBackend::Nvml,
        devices: vec![GpuDeviceSnapshot {
            index: 0,
            name: "RTX 4090".to_string(),
            vram_total_mb: total_mb,
            vram_used_mb: 0,
            util_pct: 0.0f32.to_bits(),
        }],
    }
}

fn cpu_only() -> GpuSnapshot {
    GpuSnapshot::empty(GpuBackend::Noop)
}

fn snap(devs: Vec<u32>) -> GpuSnapshot {
    GpuSnapshot {
        backend: GpuBackend::Nvml,
        devices: devs
            .into_iter()
            .map(|i| GpuDeviceSnapshot {
                index: i,
                name: format!("NVIDIA RTX 4090 #{i}"),
                vram_total_mb: 24_000,
                vram_used_mb: 0,
                util_pct: 0.0f32.to_bits(),
            })
            .collect(),
    }
}

#[test]
fn cpu_only_host_prefers_tesseract_and_fast() {
    let caps = Capabilities::from_snapshot(&cpu_only(), 8);
    assert!(!caps.has_gpu);
    assert_eq!(caps.total_vram_mb, 0);
    assert_eq!(caps.ocr_preference, OcrPreference::TesseractPrimary);
    assert_eq!(caps.suggested_profile, SuggestedProfile::Fast);
    assert_eq!(caps.gpu_backend, GpuBackend::Noop);
}

#[test]
fn big_gpu_host_prefers_surya_and_balanced() {
    let caps = Capabilities::from_snapshot(&gpu_snap_with(24_000), 16);
    assert!(caps.has_gpu);
    assert_eq!(caps.total_vram_mb, 24_000);
    assert_eq!(caps.ocr_preference, OcrPreference::SuryaPrimary);
    assert_eq!(caps.suggested_profile, SuggestedProfile::Balanced);
    assert_eq!(caps.gpu_backend, GpuBackend::Nvml);
}

#[test]
fn small_gpu_falls_back_to_fast_profile() {
    let caps = Capabilities::from_snapshot(&gpu_snap_with(4_000), 8);
    assert!(caps.has_gpu);
    assert_eq!(caps.ocr_preference, OcrPreference::SuryaPrimary);
    assert_eq!(caps.suggested_profile, SuggestedProfile::Fast);
}

#[test]
fn suggested_concurrency_halves_on_cpu_only() {
    let caps = Capabilities::from_snapshot(&cpu_only(), 8);
    assert_eq!(caps.suggested_concurrency(), 4);
}

#[test]
fn suggested_concurrency_at_least_one() {
    let caps = Capabilities::from_snapshot(&cpu_only(), 1);
    assert!(caps.suggested_concurrency() >= 1);
    let caps = Capabilities::from_snapshot(&gpu_snap_with(100), 0);
    assert_eq!(caps.cpu_cores, 1);
    assert_eq!(caps.suggested_concurrency(), 2);
}

#[test]
fn noop_reports_no_devices() {
    let m = NoopMonitor;
    assert_eq!(m.backend(), GpuBackend::Noop);
    let s = m.snapshot();
    assert_eq!(s.backend, GpuBackend::Noop);
    assert!(!s.has_gpu());
    assert_eq!(s.total_vram_free_mb(), 0);
}

#[test]
fn rocm_and_metal_are_noop_with_correct_tag() {
    assert_eq!(RocmMonitor.snapshot().backend, GpuBackend::Rocm);
    assert_eq!(MetalMonitor.snapshot().backend, GpuBackend::Metal);
}

#[test]
fn device_free_subtracts_used_from_total() {
    let dev = GpuDeviceSnapshot {
        index: 0,
        name: "Test".to_string(),
        vram_total_mb: 24_000,
        vram_used_mb: 18_500,
        util_pct: 87.0f32.to_bits(),
    };
    assert_eq!(dev.vram_free_mb(), 5_500);
    let over = GpuDeviceSnapshot { vram_used_mb: 30_000, ..dev };
    assert_eq!(over.vram_free_mb(), 0);
}

#[test]
fn total_free_sums_devices() {
    let mut s = snap(vec![0, 1]);
    s.devices[1].vram_used_mb = 4_000;
    assert_eq!(s.total_vram_free_mb(), 44_000);
}

#[test]
fn monitor_errors_describe_themselves() {
    assert_eq!(GpuMonitorError::DeviceNotFound(3).message(), "device 3 not found");
    assert_eq!(GpuMonitorError::NvmlInit("no driver".to_string()).message(), "NVML init failed: no driver");
}

#[test]
fn cpu_only_host_yields_empty_pool() {
    let s = GpuSnapshot::empty(GpuBackend::Noop);
    assert!(plan_workers(&s, &PoolConfig::default()).is_empty());
}

#[test]
fn one_worker_per_gpu_by_default() {
    let s = snap(vec![0, 1, 2]);
    let workers = plan_workers(&s, &PoolConfig::default());
    assert_eq!(workers.len(), 3);
    for (i, w) in workers.iter().enumerate() {
        assert_eq!(w.gpu_index, i as u32);
        assert_eq!(w.env_var("CUDA_VISIBLE_DEVICES"), Some(i.to_string()));
        assert_eq!(w.env_var("HIP_VISIBLE_DEVICES"), Some(i.to_string()));
    }
}

#[test]
fn multiple_replicas_per_gpu() {
    let s = snap(vec![0]);
    let workers = plan_workers(&s, &PoolConfig { workers_per_gpu: 4, gpu_allowlist: Vec::new() });
    assert_eq!(workers.len(), 4);
    for (replica, w) in workers.iter().enumerate() {
        assert_eq!(w.gpu_index, 0);
        assert_eq!(w.env_var("STRATA_WORKER_REPLICA"), Some(replica.to_string()));
        assert!(w.label.ends_with(&format!("r{replica}")));
    }
}

#[test]
fn allowlist_filters_gpus() {
    let s = snap(vec![0, 1, 2, 3]);
    let workers = plan_workers(&s, &PoolConfig { workers_per_gpu: 1, gpu_allowlist: vec![1, 3] });
    assert_eq!(workers.len(), 2);
    let used: Vec<u32> = workers.iter().map(|w| w.gpu_index).collect();
    assert_eq!(used, vec![1, 3]);
}

#[test]
fn labels_are_sanitized() {
    let s = snap(vec![0]);
    let workers = plan_workers(&s, &PoolConfig::default());
    assert!(workers[0].label.contains("nvidia-rtx-4090"));
    assert!(!workers[0].label.contains('#'));
    assert!(!workers[0].label.contains(' '));
    assert_eq!(workers[0].label, "nvidia-rtx-4090--0-0-r0");
    assert_eq!(sanitize("--A b--"), "a-b");
    assert_eq!(sanitize("###"), "");
}

#[test]
fn describe_pool_is_deterministic() {
    let s = snap(vec![0, 1]);
    let workers = plan_workers(&s, &PoolConfig::default());
    let a = describe_pool(&workers);
    let c = describe_pool(&workers);
    assert_eq!(a, c);
    assert!(a.contains("gpu 0"));
    assert!(a.contains("gpu 1"));
}

#[test]
fn describe_pool_sorts_lines() {
    let mut workers = plan_workers(&snap(vec![0, 1]), &PoolConfig::default());
    workers.reverse();
    assert_eq!(
        describe_pool(&workers),
        "nvidia-rtx-4090--0-0-r0 -> gpu 0 (4 env vars)\nnvidia-rtx-4090--1-1-r0 -> gpu 1 (4 env vars)"
    );
}

#[test]
fn latency_window_ranks() {
    let mut w = LatencyWindow::new(5);
    for v in [10u32, 20, 30, 40, 50] {
        w.push(v);
    }
    assert_eq!(w.len(), 5);
    assert_eq!(w.value_at_rank(0), 10);
    assert_eq!(w.value_at_rank(2), 30);
    assert_eq!(w.value_at_rank(4), 50);
}

#[test]
fn latency_window_overwrites_oldest() {
    let mut w = LatencyWindow::new(3);
    w.push(1);
    w.push(2);
    w.push(3);
    w.push(4);
    assert_eq!(w.len(), 3);
    assert_eq!(w.value_at_rank(1), 3);
    assert_eq!(w.value_at_rank(2), 4);
    assert_eq!(w.value_at_rank(0), 2);
}

#[test]
fn aimd_steps() {
    assert_eq!(additive_increase(3, 4), 4);
    assert_eq!(additive_increase(4, 4), 4);
    assert_eq!(initial_window(100, 1, 4), 4);
    assert_eq!(initial_window(5, 2, 10), 5);
    assert_eq!(initial_window(0, 2, 10), 2);
}

#[test]
fn sorting_and_permits() {
    assert_eq!(sort_u32(&vec![3, 1, 2, 1]), vec![1, 1, 2, 3]);
    assert_eq!(SchedulerConfig { max_concurrent_pages: 0, abort_on_first_error: false }.permits(), 1);
    assert_eq!(SchedulerConfig { max_concurrent_pages: 8, abort_on_first_error: true }.permits(), 8);
}

#[test]
fn readings_keep_opened_devices_with_memory() {
    let mib: u64 = 1024 * 1024;
    let readings = vec![
        DeviceReading::Unavailable,
        DeviceReading::Present { name: None, memory: Some((8192 * mib, 1024 * mib + 5)), util_pct: 50.0f32.to_bits() },
        DeviceReading::Present { name: Some("A100".to_string()), memory: None, util_pct: 0 },
        DeviceReading::Present { name: Some("H100".to_string()), memory: Some((80 * 1024 * mib, 0)), util_pct: 0 },
    ];
    let snap = snapshot_from_readings(&readings);
    assert_eq!(snap.backend, GpuBackend::Nvml);
    assert_eq!(snap.devices.len(), 2);
    assert_eq!(snap.devices[0].index, 1);
    assert_eq!(snap.devices[0].name, "gpu-1");
    assert_eq!(snap.devices[0].vram_total_mb, 8192);
    assert_eq!(snap.devices[0].vram_used_mb, 1024);
    assert_eq!(f32::from_bits(snap.devices[0].util_pct), 50.0);
    assert_eq!(snap.devices[1].index, 3);
    assert_eq!(snap.devices[1].name, "H100");
    assert_eq!(snap.devices[1].vram_total_mb, 81920);
}

#[test]
fn no_readings_gives_empty_nvml_snapshot() {
    let snap = snapshot_from_readings(&Vec::new());
    assert_eq!(snap.backend, GpuBackend::Nvml);
    assert!(!snap.has_gpu());
}

#[test]
fn describe_pool_ignores_worker_order() {
    let workers = plan_workers(&snap(vec![0, 1, 2]), &PoolConfig::default());
    let mut rotated = workers.clone();
    rotated.rotate_left(1);
    let mut reversed = workers.clone();
    reversed.reverse();
    assert_eq!(describe_pool(&rotated), describe_pool(&workers));
    assert_eq!(describe_pool(&reversed), describe_pool(&workers));
}
