//! Frame-time profiling and adaptive quality selection for the fire-front solver.
//!
//! The profiler accumulates the measured duration of every compute dispatch of a
//! frame, keeps per-operation running totals, and at the end of each frame
//! steps the quality preset down when the frame went over its time budget and
//! up when it used less than half of it.
use std::time::Duration;
use std::time::Instant;
use vstd::prelude::*;

verus! {

broadcast use vstd::string::to_string_from_display_ensures_for_str;

/// `std::time::Instant`, held opaquely: a point on the monotonic clock.
#[verifier::external_type_specification]
#[verifier::external_body]
pub struct ExInstant(Instant);

/// Calls `std::time::Instant::now`. Nothing is stated of the value: it is
/// whatever the monotonic clock reads at the moment of the call.
#[verifier::external_body]
fn clock_now() -> Instant {
    Instant::now()
}

/// Calls `std::time::Instant::elapsed`. Nothing is stated of the value: it
/// depends on the clock at the moment of the call.
#[verifier::external_body]
fn time_since(start: &Instant) -> Duration {
    start.elapsed()
}

/// Calls `std::time::Duration::as_micros`. The value is the whole number of
/// microseconds in the duration; since durations come from the clock, no
/// clause is given for it.
#[verifier::external_body]
fn whole_micros(d: &Duration) -> u128 {
    d.as_micros()
}

/// Quality presets for adaptive resolution scaling.
#[derive(Debug, Clone, Copy, PartialEq, Eq, Structural)]
pub enum QualityPreset {
    /// 2048×2048 grid, uncompressed textures.
    Ultra,
    /// 2048×2048 grid.
    High,
    /// 1024×1024 grid.
    Medium,
    /// 512×512 grid.
    Low,
}

/// Texture compression quality.
#[derive(Debug, Clone, Copy, PartialEq, Eq, Structural)]
pub enum TextureQuality {
    /// No compression (4 bytes per pixel).
    Uncompressed,
    /// BC4 compression (1 byte per pixel, single channel).
    BC4,
}

/// Grid resolution (cells per side) that a preset asks for.
pub open spec fn preset_resolution(p: QualityPreset) -> u32 {
    match p {
        QualityPreset::Ultra => 2048,
        QualityPreset::High => 2048,
        QualityPreset::Medium => 1024,
        QualityPreset::Low => 512,
    }
}

/// Texture quality that a preset asks for: only `Ultra` is uncompressed.
pub open spec fn preset_texture(p: QualityPreset) -> TextureQuality {
    match p {
        QualityPreset::Ultra => TextureQuality::Uncompressed,
        _ => TextureQuality::BC4,
    }
}

/// Position of a preset on the quality ladder: `Low` is 0, `Ultra` is 3.
pub open spec fn preset_rank(p: QualityPreset) -> int {
    match p {
        QualityPreset::Low => 0,
        QualityPreset::Medium => 1,
        QualityPreset::High => 2,
        QualityPreset::Ultra => 3,
    }
}

/// One step down the ladder; `Low` stays `Low`.
pub open spec fn lower_preset(p: QualityPreset) -> QualityPreset {
    match p {
        QualityPreset::Ultra => QualityPreset::High,
        QualityPreset::High => QualityPreset::Medium,
        QualityPreset::Medium => QualityPreset::Low,
        QualityPreset::Low => QualityPreset::Low,
    }
}

/// One step up the ladder; `Ultra` stays `Ultra`.
pub open spec fn raise_preset(p: QualityPreset) -> QualityPreset {
    match p {
        QualityPreset::Low => QualityPreset::Medium,
        QualityPreset::Medium => QualityPreset::High,
        QualityPreset::High => QualityPreset::Ultra,
        QualityPreset::Ultra => QualityPreset::Ultra,
    }
}

impl QualityPreset {
    /// Get grid resolution for this preset.
    pub fn grid_resolution(&self) -> (r: u32)
        ensures
            r == preset_resolution(*self),
    {
        match self {
            QualityPreset::Ultra => 2048,
            QualityPreset::High => 2048,
            QualityPreset::Medium => 1024,
            QualityPreset::Low => 512,
        }
    }

    /// Get texture quality for this preset.
    pub fn texture_quality(&self) -> (t: TextureQuality)
        ensures
            t == preset_texture(*self),
    {
        match self {
            QualityPreset::Ultra => TextureQuality::Uncompressed,
            QualityPreset::High => TextureQuality::BC4,
            QualityPreset::Medium => TextureQuality::BC4,
            QualityPreset::Low => TextureQuality::BC4,
        }
    }
}

/// GPU performance statistics for a single shader dispatch.
#[derive(Debug)]
pub struct DispatchStats {
    /// Name of the shader/operation.
    pub name: String,
    /// Time taken for the dispatch in microseconds.
    pub time_us: u64,
    /// Number of workgroups dispatched.
    pub workgroup_count: (u32, u32, u32),
    /// Grid dimensions being processed.
    pub grid_size: (u32, u32),
}

impl Clone for DispatchStats {
    fn clone(&self) -> (r: Self)
        ensures
            r == *self,
    {
        DispatchStats {
            name: self.name.clone(),
            time_us: self.time_us,
            workgroup_count: self.workgroup_count,
            grid_size: self.grid_size,
        }
    }
}

/// Sum of the dispatch times of a sequence of dispatches.
pub open spec fn total_dispatch_time(s: Seq<DispatchStats>) -> int
    decreases s.len(),
{
    if s.len() == 0 {
        0
    } else {
        total_dispatch_time(s.drop_last()) + s.last().time_us
    }
}

/// GPU performance statistics for a frame.
#[derive(Debug)]
pub struct GpuStats {
    /// Total GPU time for the frame in microseconds.
    pub total_gpu_time_us: u64,
    /// Target budget in microseconds.
    pub target_budget_us: u64,
    /// Individual dispatch stats.
    pub dispatches: Vec<DispatchStats>,
    /// Current quality preset.
    pub quality_preset: QualityPreset,
    /// Whether the frame was over budget.
    pub over_budget: bool,
}

impl Clone for GpuStats {
    fn clone(&self) -> (r: Self)
        ensures
            r.total_gpu_time_us == self.total_gpu_time_us,
            r.target_budget_us == self.target_budget_us,
            r.dispatches@ == self.dispatches@,
            r.quality_preset == self.quality_preset,
            r.over_budget == self.over_budget,
    {
        GpuStats {
            total_gpu_time_us: self.total_gpu_time_us,
            target_budget_us: self.target_budget_us,
            dispatches: copy_dispatches(&self.dispatches),
            quality_preset: self.quality_preset,
            over_budget: self.over_budget,
        }
    }
}

impl GpuStats {
    /// Check if performance is acceptable (the frame stayed within budget).
    pub fn is_acceptable(&self) -> (r: bool)
        ensures
            r == !self.over_budget,
    {
        !self.over_budget
    }
}

/// Timer for a single dispatch operation.
pub struct DispatchTimer {
    name: String,
    start: Instant,
}

impl DispatchTimer {
    /// Name of the operation being timed.
    pub closed spec fn timer_name(&self) -> Seq<char> {
        self.name@
    }
}

/// Running totals kept for one operation name.
struct OperationTotals {
    name: String,
    total_us: u64,
    count: u64,
}

/// Abstract state of a profiler.
pub struct ProfilerView {
    /// Dispatches recorded in the current frame, in order.
    pub frame: Seq<DispatchStats>,
    /// Per-operation (name, total microseconds, sample count), one entry per
    /// name, in order of first appearance.
    pub totals: Seq<(Seq<char>, u64, u64)>,
    /// Sum of the dispatch times of the current frame.
    pub frame_time: u64,
    /// Target frame budget in microseconds.
    pub budget: u64,
    /// Current quality preset.
    pub preset: QualityPreset,
}

/// The operation names of a totals table are pairwise distinct.
pub open spec fn names_distinct(t: Seq<(Seq<char>, u64, u64)>) -> bool {
    forall|i: int, j: int| 0 <= i < t.len() && 0 <= j < t.len() && i != j ==> t[i].0 != t[j].0
}

/// Whether the totals table has an entry for `name`.
pub open spec fn has_totals(t: Seq<(Seq<char>, u64, u64)>, name: Seq<char>) -> bool {
    exists|i: int| 0 <= i < t.len() && t[i].0 == name
}

/// Position of the entry for `name` (meaningful when `has_totals` holds).
pub open spec fn totals_position(t: Seq<(Seq<char>, u64, u64)>, name: Seq<char>) -> int {
    choose|i: int| 0 <= i < t.len() && t[i].0 == name
}

/// Totals table after one more sample of `t_us` microseconds for `name`.
pub open spec fn totals_after_sample(
    t: Seq<(Seq<char>, u64, u64)>,
    name: Seq<char>,
    t_us: u64,
) -> Seq<(Seq<char>, u64, u64)> {
    if has_totals(t, name) {
        let i = totals_position(t, name);
        t.update(i, (name, (t[i].1 + t_us) as u64, (t[i].2 + 1) as u64))
    } else {
        t.push((name, t_us, 1u64))
    }
}

/// Whether one more sample of `t_us` microseconds for `name` fits the
/// counters of the state.
pub open spec fn sample_fits(v: ProfilerView, name: Seq<char>, t_us: u64) -> bool {
    &&& v.frame_time + t_us <= u64::MAX
    &&& has_totals(v.totals, name) ==> {
        let i = totals_position(v.totals, name);
        &&& v.totals[i].1 + t_us <= u64::MAX
        &&& v.totals[i].2 + 1 <= u64::MAX
    }
}

/// State after recording a dispatch.
pub open spec fn view_after_dispatch(v: ProfilerView, stats: DispatchStats) -> ProfilerView {
    ProfilerView {
        frame: v.frame.push(stats),
        totals: totals_after_sample(v.totals, stats.name@, stats.time_us),
        frame_time: (v.frame_time + stats.time_us) as u64,
        budget: v.budget,
        preset: v.preset,
    }
}

/// Preset chosen at the end of a frame that took `frame_time` against `budget`.
pub open spec fn preset_after_frame(p: QualityPreset, frame_time: u64, budget: u64) -> QualityPreset {
    if frame_time > budget {
        lower_preset(p)
    } else if frame_time < budget / 2 {
        raise_preset(p)
    } else {
        p
    }
}

/// GPU profiler for tracking performance of compute shader dispatches.
pub struct GpuProfiler {
    frame_stats: Vec<DispatchStats>,
    totals: Vec<OperationTotals>,
    frame_gpu_time_us: u64,
    target_budget_us: u64,
    quality_preset: QualityPreset,
}

impl View for GpuProfiler {
    type V = ProfilerView;

    closed spec fn view(&self) -> ProfilerView {
        ProfilerView {
            frame: self.frame_stats@,
            totals: Seq::new(
                self.totals@.len(),
                |i: int| (self.totals@[i].name@, self.totals@[i].total_us, self.totals@[i].count),
            ),
            frame_time: self.frame_gpu_time_us,
            budget: self.target_budget_us,
            preset: self.quality_preset,
        }
    }
}

/// Well-formedness of a profiler state: the frame time is the sum of the
/// recorded dispatch times, each operation name has one totals entry, and
/// every entry counts at least one sample.
pub open spec fn profiler_wf(v: ProfilerView) -> bool {
    &&& v.frame_time == total_dispatch_time(v.frame)
    &&& names_distinct(v.totals)
    &&& forall|i: int| 0 <= i < v.totals.len() ==> #[trigger] v.totals[i].2 >= 1
}

/// Copies a list of dispatch records field by field.
fn copy_dispatches(v: &Vec<DispatchStats>) -> (r: Vec<DispatchStats>)
    ensures
        r@ == v@,
{
    let mut r: Vec<DispatchStats> = Vec::new();
    let mut i: usize = 0;
    while i < v.len()
        invariant
            i <= v.len(),
            r@ == v@.subrange(0, i as int),
        decreases v.len() - i,
    {
        let d = &v[i];
        r.push(d.clone());
        i = i + 1;
    }
    assert(v@.subrange(0, v.len() as int) =~= v@);
    r
}

impl GpuProfiler {
    /// Create a new GPU profiler with the default 8 ms (8000 µs) budget.
    pub fn new() -> (p: Self)
        ensures
            profiler_wf(p@),
            p@.frame.len() == 0,
            p@.totals.len() == 0,
            p@.frame_time == 0,
            p@.budget == 8000,
            p@.preset == QualityPreset::High,
    {
        Self::with_budget(8000)
    }

    /// Create a GPU profiler with a custom budget in microseconds.
    pub fn with_budget(budget_us: u64) -> (p: Self)
        ensures
            profiler_wf(p@),
            p@.frame.len() == 0,
            p@.totals.len() == 0,
            p@.frame_time == 0,
            p@.budget == budget_us,
            p@.preset == QualityPreset::High,
    {
        let p = GpuProfiler {
            frame_stats: Vec::new(),
            totals: Vec::new(),
            frame_gpu_time_us: 0,
            target_budget_us: budget_us,
            quality_preset: QualityPreset::High,
        };
        assert(p@.frame =~= Seq::<DispatchStats>::empty());
        p
    }

    /// Begin profiling a new frame: forget the dispatches of the previous frame.
    pub fn begin_frame(&mut self)
        requires
            profiler_wf(old(self)@),
        ensures
            profiler_wf(final(self)@),
            final(self)@.frame.len() == 0,
            final(self)@.frame_time == 0,
            final(self)@.totals == old(self)@.totals,
            final(self)@.budget == old(self)@.budget,
            final(self)@.preset == old(self)@.preset,
    {
        self.frame_stats.clear();
        self.frame_gpu_time_us = 0;
        assert(self@.frame =~= Seq::<DispatchStats>::empty());
        assert(self@.totals =~= old(self)@.totals);
    }

    /// Start timing a dispatch of the operation `name`.
    pub fn begin_dispatch(&self, name: &str) -> (t: DispatchTimer)
        ensures
            t.timer_name() == name@,
    {
        DispatchTimer { name: name.to_string(), start: clock_now() }
    }

    /// Position of the totals entry for `name`, if there is one.
    fn find_totals(&self, name: &String) -> (r: Option<usize>)
        requires
            profiler_wf(self@),
        ensures
            match r {
                Some(i) => i < self@.totals.len() && self@.totals[i as int].0 == name@
                    && i == totals_position(self@.totals, name@),
                None => !has_totals(self@.totals, name@),
            },
    {
        let mut i: usize = 0;
        while i < self.totals.len()
            invariant
                i <= self.totals@.len(),
                profiler_wf(self@),
                self@.totals.len() == self.totals@.len(),
                forall|j: int| 0 <= j < i ==> self@.totals[j].0 != name@,
            decreases self.totals.len() - i,
        {
            if self.totals[i].name == *name {
                assert(self@.totals[i as int].0 == name@);
                let ghost k = totals_position(self@.totals, name@);
                assert(names_distinct(self@.totals));
                assert(k == i);
                return Some(i);
            }
            i = i + 1;
        }
        None
    }

    /// Whether one more sample of `time_us` for `name` fits the counters.
    pub fn can_record(&self, name: &String, time_us: u64) -> (r: bool)
        requires
            profiler_wf(self@),
        ensures
            r == sample_fits(self@, name@, time_us),
    {
        if time_us > u64::MAX - self.frame_gpu_time_us {
            return false;
        }
        match self.find_totals(name) {
            Some(i) => {
                let rec = &self.totals[i];
                time_us <= u64::MAX - rec.total_us && rec.count < u64::MAX
            },
            None => true,
        }
    }

    /// Record a dispatch that took `time_us` microseconds: it joins the
    /// frame's dispatch list, adds to the frame time and to the running
    /// totals of its operation.
    pub fn record_dispatch(
        &mut self,
        name: String,
        time_us: u64,
        workgroup_count: (u32, u32, u32),
        grid_size: (u32, u32),
    )
        requires
            profiler_wf(old(self)@),
            sample_fits(old(self)@, name@, time_us),
        ensures
            profiler_wf(final(self)@),
            final(self)@ == view_after_dispatch(
                old(self)@,
                DispatchStats { name, time_us, workgroup_count, grid_size },
            ),
    {
        let ghost old_view = self@;
        let found = self.find_totals(&name);
        let stats = DispatchStats { name: name.clone(), time_us, workgroup_count, grid_size };
        self.frame_gpu_time_us = self.frame_gpu_time_us + time_us;
        self.frame_stats.push(stats);
        match found {
            Some(i) => {
                let total = self.totals[i].total_us + time_us;
                let count = self.totals[i].count + 1;
                self.totals.set(i, OperationTotals { name, total_us: total, count });
            },
            None => {
                self.totals.push(OperationTotals { name, total_us: time_us, count: 1 });
            },
        }
        let ghost expected = view_after_dispatch(
            old_view,
            DispatchStats { name: name, time_us, workgroup_count, grid_size },
        );
        assert(self@.frame.drop_last() =~= old_view.frame);
        assert(self@.totals =~= expected.totals);
        assert(self@.frame =~= expected.frame);
        assert(names_distinct(self@.totals)) by {
            assert forall|a: int, b: int|
                0 <= a < self@.totals.len() && 0 <= b < self@.totals.len() && a != b
                implies self@.totals[a].0 != self@.totals[b].0 by {
                if found is None {
                    if a == old_view.totals.len() {
                        assert(self@.totals[b] == old_view.totals[b]);
                    } else if b == old_view.totals.len() {
                        assert(self@.totals[a] == old_view.totals[a]);
                    }
                }
            }
        }
    }

    /// Record a dispatch of `time_us` microseconds when the sample fits the
    /// frame and per-operation counters, and report whether it did; when it
    /// does not fit, nothing changes.
    pub fn record_sample(
        &mut self,
        name: String,
        time_us: u64,
        workgroup_count: (u32, u32, u32),
        grid_size: (u32, u32),
    ) -> (recorded: bool)
        requires
            profiler_wf(old(self)@),
        ensures
            profiler_wf(final(self)@),
            recorded == sample_fits(old(self)@, name@, time_us),
            recorded ==> final(self)@ == view_after_dispatch(
                old(self)@,
                DispatchStats { name, time_us, workgroup_count, grid_size },
            ),
            !recorded ==> final(self)@ == old(self)@,
    {
        if self.can_record(&name, time_us) {
            self.record_dispatch(name, time_us, workgroup_count, grid_size);
            true
        } else {
            false
        }
    }

    /// Record a dispatch that took `elapsed_micros` whole microseconds, as
    /// read from the clock: the sample's time is that count cut to `u64`
    /// (`as u64`), and it is recorded when it fits the counters.
    pub fn record_elapsed(
        &mut self,
        name: String,
        elapsed_micros: u128,
        workgroup_count: (u32, u32, u32),
        grid_size: (u32, u32),
    ) -> (recorded: bool)
        requires
            profiler_wf(old(self)@),
        ensures
            profiler_wf(final(self)@),
            recorded == sample_fits(old(self)@, name@, elapsed_micros as u64),
            recorded ==> final(self)@ == view_after_dispatch(
                old(self)@,
                DispatchStats { name, time_us: elapsed_micros as u64, workgroup_count, grid_size },
            ),
            !recorded ==> final(self)@ == old(self)@,
    {
        self.record_sample(name, elapsed_micros as u64, workgroup_count, grid_size)
    }

    /// End a dispatch operation and record its measured duration. The
    /// dispatch is recorded exactly when the measured sample fits the frame
    /// and per-operation counters; otherwise the result is `false` and
    /// nothing changes. In particular it is always recorded when every
    /// possible duration fits.
    pub fn end_dispatch(
        &mut self,
        timer: DispatchTimer,
        workgroup_count: (u32, u32, u32),
        grid_size: (u32, u32),
    ) -> (recorded: bool)
        requires
            profiler_wf(old(self)@),
        ensures
            profiler_wf(final(self)@),
            exists|s: DispatchStats|
                #![trigger view_after_dispatch(old(self)@, s)]
                {
                    &&& s.name@ == timer.timer_name()
                    &&& s.workgroup_count == workgroup_count
                    &&& s.grid_size == grid_size
                    &&& recorded == sample_fits(old(self)@, s.name@, s.time_us)
                    &&& recorded ==> final(self)@ == view_after_dispatch(old(self)@, s)
                },
            (forall|t: u64| sample_fits(old(self)@, timer.timer_name(), t)) ==> recorded,
            !recorded ==> final(self)@ == old(self)@,
    {
        let elapsed = time_since(&timer.start);
        let micros = whole_micros(&elapsed);
        let ghost s = DispatchStats {
            name: timer.name,
            time_us: micros as u64,
            workgroup_count,
            grid_size,
        };
        let recorded = self.record_elapsed(timer.name, micros, workgroup_count, grid_size);
        proof {
            assert(timer.timer_name() == s.name@);
            assert(recorded == sample_fits(old(self)@, s.name@, s.time_us));
            assert(recorded ==> self@ == view_after_dispatch(old(self)@, s));
        }
        recorded
    }

    /// Total time and sample count recorded so far for the operation `name`.
    pub fn sample_totals(&self, name: &str) -> (r: Option<(u64, u64)>)
        requires
            profiler_wf(self@),
        ensures
            match r {
                Some((total, count)) => has_totals(self@.totals, name@) && {
                    let i = totals_position(self@.totals, name@);
                    total == self@.totals[i].1 && count == self@.totals[i].2
                },
                None => !has_totals(self@.totals, name@),
            },
    {
        let key = name.to_owned();
        match self.find_totals(&key) {
            Some(i) => Some((self.totals[i].total_us, self.totals[i].count)),
            None => None,
        }
    }

    /// End the frame: report its statistics, then step the quality preset
    /// down if the frame was over budget, or up if it used less than half
    /// of the budget.
    pub fn end_frame(&mut self) -> (stats: GpuStats)
        requires
            profiler_wf(old(self)@),
        ensures
            profiler_wf(final(self)@),
            stats.total_gpu_time_us == old(self)@.frame_time,
            stats.total_gpu_time_us == total_dispatch_time(stats.dispatches@),
            stats.target_budget_us == old(self)@.budget,
            stats.dispatches@ == old(self)@.frame,
            stats.quality_preset == old(self)@.preset,
            stats.over_budget == (old(self)@.frame_time > old(self)@.budget),
            final(self)@.preset == preset_after_frame(
                old(self)@.preset,
                old(self)@.frame_time,
                old(self)@.budget,
            ),
            final(self)@.frame == old(self)@.frame,
            final(self)@.totals == old(self)@.totals,
            final(self)@.frame_time == old(self)@.frame_time,
            final(self)@.budget == old(self)@.budget,
    {
        let over_budget = self.frame_gpu_time_us > self.target_budget_us;
        let stats = GpuStats {
            total_gpu_time_us: self.frame_gpu_time_us,
            target_budget_us: self.target_budget_us,
            dispatches: copy_dispatches(&self.frame_stats),
            quality_preset: self.quality_preset,
            over_budget,
        };
        if stats.over_budget {
            self.adjust_quality_down();
        } else if self.frame_gpu_time_us < self.target_budget_us / 2 {
            self.adjust_quality_up();
        }
        assert(self@.totals =~= old(self)@.totals);
        stats
    }

    /// Get current quality preset.
    pub fn quality_preset(&self) -> (p: QualityPreset)
        ensures
            p == self@.preset,
    {
        self.quality_preset
    }

    /// Set quality preset manually.
    pub fn set_quality_preset(&mut self, preset: QualityPreset)
        requires
            profiler_wf(old(self)@),
        ensures
            profiler_wf(final(self)@),
            final(self)@ == (ProfilerView { preset, ..old(self)@ }),
    {
        self.quality_preset = preset;
        assert(self@.totals =~= old(self)@.totals);
    }

    /// Step the preset one level down.
    fn adjust_quality_down(&mut self)
        ensures
            final(self).quality_preset == lower_preset(old(self).quality_preset),
            final(self).frame_stats == old(self).frame_stats,
            final(self).totals == old(self).totals,
            final(self).frame_gpu_time_us == old(self).frame_gpu_time_us,
            final(self).target_budget_us == old(self).target_budget_us,
    {
        self.quality_preset = match self.quality_preset {
            QualityPreset::Ultra => QualityPreset::High,
            QualityPreset::High => QualityPreset::Medium,
            QualityPreset::Medium => QualityPreset::Low,
            QualityPreset::Low => QualityPreset::Low,
        };
    }

    /// Step the preset one level up.
    fn adjust_quality_up(&mut self)
        ensures
            final(self).quality_preset == raise_preset(old(self).quality_preset),
            final(self).frame_stats == old(self).frame_stats,
            final(self).totals == old(self).totals,
            final(self).frame_gpu_time_us == old(self).frame_gpu_time_us,
            final(self).target_budget_us == old(self).target_budget_us,
    {
        self.quality_preset = match self.quality_preset {
            QualityPreset::Low => QualityPreset::Medium,
            QualityPreset::Medium => QualityPreset::High,
            QualityPreset::High => QualityPreset::Ultra,
            QualityPreset::Ultra => QualityPreset::Ultra,
        };
    }
}

impl Default for GpuProfiler {
    fn default() -> (p: Self)
        ensures
            profiler_wf(p@),
            p@.frame.len() == 0,
            p@.totals.len() == 0,
            p@.frame_time == 0,
            p@.budget == 8000,
            p@.preset == QualityPreset::High,
    {
        Self::new()
    }
}

/// Stepping the preset down undoes stepping it up, and the other way
/// round, everywhere except at the ends of the ladder.
pub proof fn lemma_preset_steps_invert(p: QualityPreset)
    ensures
        p != QualityPreset::Ultra ==> lower_preset(raise_preset(p)) == p,
        p != QualityPreset::Low ==> raise_preset(lower_preset(p)) == p,
{
}

/// At the end of a frame the preset moves by at most one step: down (or
/// stays at `Low`) when over budget, up (or stays at `Ultra`) when under
/// half of the budget, and not at all otherwise.
pub proof fn lemma_frame_adjustment_one_step(p: QualityPreset, frame_time: u64, budget: u64)
    ensures
        ({
            let q = preset_after_frame(p, frame_time, budget);
            &&& -1 <= preset_rank(q) - preset_rank(p) <= 1
            &&& frame_time > budget ==> preset_rank(q) == if p == QualityPreset::Low {
                0
            } else {
                preset_rank(p) - 1
            }
            &&& frame_time <= budget && frame_time < budget / 2 ==> preset_rank(q) == if p
                == QualityPreset::Ultra {
                3
            } else {
                preset_rank(p) + 1
            }
            &&& budget / 2 <= frame_time <= budget ==> q == p
        }),
{
}

/// Three frames in a row over budget bring any preset down to `Low`.
pub proof fn lemma_three_overbudget_frames_reach_low(p: QualityPreset)
    ensures
        lower_preset(lower_preset(lower_preset(p))) == QualityPreset::Low,
{
}

/// A higher preset never asks for a smaller grid.
pub proof fn lemma_resolution_monotone(p: QualityPreset, q: QualityPreset)
    requires
        preset_rank(p) <= preset_rank(q),
    ensures
        preset_resolution(p) <= preset_resolution(q),
{
}

} // verus!
