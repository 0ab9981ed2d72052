use fire_sim_core::profiler::{GpuProfiler, GpuStats, QualityPreset, TextureQuality};
use std::time::{Duration, Instant};

fn busy_wait(d: Duration) {
    let start = Instant::now();
    while start.elapsed() < d {}
}

#[test]
fn test_profiler_basic() {
    let mut profiler = GpuProfiler::new();

    profiler.begin_frame();

    let timer = profiler.begin_dispatch("test_shader");
    busy_wait(Duration::from_micros(100));
    profiler.end_dispatch(timer, (64, 64, 1), (1024, 1024));

    let stats = profiler.end_frame();

    assert_eq!(stats.dispatches.len(), 1);
    assert!(stats.total_gpu_time_us >= 100);
    assert_eq!(stats.target_budget_us, 8000);
}

#[test]
fn test_quality_preset_resolution() {
    assert_eq!(QualityPreset::Ultra.grid_resolution(), 2048);
    assert_eq!(QualityPreset::High.grid_resolution(), 2048);
    assert_eq!(QualityPreset::Medium.grid_resolution(), 1024);
    assert_eq!(QualityPreset::Low.grid_resolution(), 512);
}

#[test]
fn test_auto_quality_adjustment() {
    let mut profiler = GpuProfiler::with_budget(1000);
    profiler.set_quality_preset(QualityPreset::High);

    profiler.begin_frame();
    let timer = profiler.begin_dispatch("expensive");
    busy_wait(Duration::from_micros(2000));
    profiler.end_dispatch(timer, (128, 128, 1), (2048, 2048));

    let _stats = profiler.end_frame();

    // Should have adjusted down due to being over budget
    assert_eq!(profiler.quality_preset(), QualityPreset::Medium);
}

#[test]
fn test_budget_utilization() {
    let stats = GpuStats {
        total_gpu_time_us: 4000,
        target_budget_us: 8000,
        dispatches: vec![],
        quality_preset: QualityPreset::High,
        over_budget: false,
    };
    assert!(stats.is_acceptable());
}

#[test]
fn texture_quality_by_preset() {
    assert_eq!(QualityPreset::Ultra.texture_quality(), TextureQuality::Uncompressed);
    assert_eq!(QualityPreset::High.texture_quality(), TextureQuality::BC4);
    assert_eq!(QualityPreset::Medium.texture_quality(), TextureQuality::BC4);
    assert_eq!(QualityPreset::Low.texture_quality(), TextureQuality::BC4);
}

#[test]
fn recorded_dispatches_sum_to_frame_time() {
    let mut profiler = GpuProfiler::with_budget(100);
    profiler.begin_frame();
    profiler.record_dispatch("a".to_string(), 30, (1, 1, 1), (16, 16));
    profiler.record_dispatch("b".to_string(), 50, (2, 2, 1), (32, 32));
    profiler.record_dispatch("a".to_string(), 10, (1, 1, 1), (16, 16));
    assert_eq!(profiler.sample_totals("a"), Some((40, 2)));
    assert_eq!(profiler.sample_totals("b"), Some((50, 1)));
    assert_eq!(profiler.sample_totals("c"), None);
    let stats = profiler.end_frame();
    assert_eq!(stats.total_gpu_time_us, 90);
    assert_eq!(stats.dispatches.len(), 3);
    assert_eq!(stats.dispatches[1].name, "b");
    assert_eq!(stats.dispatches[1].grid_size, (32, 32));
    assert!(!stats.over_budget);
    // 90 us of a 100 us budget: neither over budget nor under half of it.
    assert_eq!(profiler.quality_preset(), QualityPreset::High);
}

#[test]
fn quality_steps_up_under_half_budget_and_saturates() {
    let mut profiler = GpuProfiler::with_budget(1000);
    profiler.set_quality_preset(QualityPreset::Low);
    for expected in [QualityPreset::Medium, QualityPreset::High, QualityPreset::Ultra, QualityPreset::Ultra] {
        profiler.begin_frame();
        profiler.record_dispatch("cheap".to_string(), 100, (1, 1, 1), (8, 8));
        let stats = profiler.end_frame();
        assert!(stats.is_acceptable());
        assert_eq!(profiler.quality_preset(), expected);
    }
}

#[test]
fn quality_steps_down_over_budget_and_saturates() {
    let mut profiler = GpuProfiler::with_budget(1000);
    profiler.set_quality_preset(QualityPreset::Ultra);
    for expected in [QualityPreset::High, QualityPreset::Medium, QualityPreset::Low, QualityPreset::Low] {
        profiler.begin_frame();
        profiler.record_dispatch("slow".to_string(), 1001, (1, 1, 1), (8, 8));
        let stats = profiler.end_frame();
        assert!(stats.over_budget);
        assert!(!stats.is_acceptable());
        assert_eq!(profiler.quality_preset(), expected);
    }
}

#[test]
fn exactly_half_budget_keeps_quality() {
    let mut profiler = GpuProfiler::with_budget(1000);
    profiler.begin_frame();
    profiler.record_dispatch("x".to_string(), 500, (1, 1, 1), (8, 8));
    profiler.end_frame();
    assert_eq!(profiler.quality_preset(), QualityPreset::High);
    profiler.begin_frame();
    profiler.record_dispatch("x".to_string(), 1000, (1, 1, 1), (8, 8));
    let stats = profiler.end_frame();
    assert!(!stats.over_budget);
    assert_eq!(profiler.quality_preset(), QualityPreset::High);
}

#[test]
fn begin_frame_clears_dispatches_but_keeps_totals() {
    let mut profiler = GpuProfiler::default();
    profiler.record_dispatch("x".to_string(), 7, (1, 1, 1), (8, 8));
    profiler.begin_frame();
    let stats = profiler.end_frame();
    assert_eq!(stats.total_gpu_time_us, 0);
    assert!(stats.dispatches.is_empty());
    assert_eq!(profiler.sample_totals("x"), Some((7, 1)));
}

#[test]
fn can_record_refuses_overflow() {
    let mut profiler = GpuProfiler::new();
    profiler.record_dispatch("x".to_string(), u64::MAX - 5, (1, 1, 1), (8, 8));
    assert!(profiler.can_record(&"y".to_string(), 5));
    assert!(!profiler.can_record(&"y".to_string(), 6));
}

#[test]
fn record_sample_refuses_counter_overflow() {
    let mut profiler = GpuProfiler::new();
    assert!(profiler.record_sample("a".to_string(), 100, (1, 1, 1), (16, 16)));
    assert!(profiler.record_sample("a".to_string(), u64::MAX - 100, (1, 1, 1), (16, 16)));
    assert_eq!(profiler.sample_totals("a"), Some((u64::MAX, 2)));
    assert!(!profiler.record_sample("b".to_string(), 1, (1, 1, 1), (16, 16)));
    assert_eq!(profiler.sample_totals("b"), None);
    let stats = profiler.end_frame();
    assert_eq!(stats.total_gpu_time_us, u64::MAX);
    assert_eq!(stats.dispatches.len(), 2);
}
