//! Decisions of the overlay worker: update period, when to look for the
//! target window, which window is the target, when to attach / detach, and
//! where the overlay goes. The worker loop that performs the Win32 calls
//! feeds these functions what it observed and carries out what they return.
use vstd::prelude::*;
use crate::config::{Profile, Settings};
use crate::text::{contains_run, lowercase_of, str_contains, str_eq, to_lowercase, trim, trimmed_of};

verus! {

/// The update rate the worker runs at: the profile's rate on this monitor,
/// clamped to 30..=240 Hz.
pub open spec fn worker_rate(profile: Profile, screen_rate: u32) -> int {
    let r = profile.rate_on(screen_rate);
    if r < 30 {
        30
    } else if r > 240 {
        240
    } else {
        r as int
    }
}

/// Milliseconds to sleep between two worker iterations.
pub fn update_period_ms(profile: &Profile, screen_rate: u32) -> (ms: u64)
    ensures
        ms == 1000int / worker_rate(*profile, screen_rate),
        4 <= ms <= 33,
{
    let r = profile.effective_rate(screen_rate);
    let rate: u64 = if r < 30 {
        30
    } else if r > 240 {
        240
    } else {
        r as u64
    };
    assert(4 <= 1000int / (rate as int) <= 33) by (nonlinear_arith)
        requires
            30 <= rate <= 240,
    ;
    1000 / rate
}

/// Whether to look for the target window now: when a target is known, only
/// once its window is gone; otherwise every 500 ms.
pub fn needs_search(target_known: bool, target_alive: bool, ms_since_last_search: u64) -> (r: bool)
    ensures
        r == (if target_known {
            !target_alive
        } else {
            ms_since_last_search >= 500
        }),
{
    if target_known {
        !target_alive
    } else {
        ms_since_last_search >= 500
    }
}

/// What to do about input attachment this iteration.
#[derive(Debug, Clone, Copy, PartialEq, Eq, Structural)]
pub enum GateAction {
    /// attach to the target's input queue and hide the original cursor
    Attach,
    /// restore the cursor and detach
    Detach,
    /// nothing changes
    Stay,
}

/// The replacement should be active: enabled, and the target window is in
/// the foreground.
pub open spec fn should_be_attached(target_present: bool, target_foreground: bool, enabled: bool) -> bool {
    target_present && target_foreground && enabled
}

/// The attachment decision.
pub open spec fn gate_of(attached: bool, target_present: bool, target_foreground: bool, enabled: bool) -> GateAction {
    if should_be_attached(target_present, target_foreground, enabled) && !attached {
        GateAction::Attach
    } else if !should_be_attached(target_present, target_foreground, enabled) && attached {
        GateAction::Detach
    } else {
        GateAction::Stay
    }
}

/// Attach when the replacement should be active and is not; detach when it
/// is active and should not be (disabled, target in the background, or
/// target gone).
pub fn gate(attached: bool, target_present: bool, target_foreground: bool, enabled: bool) -> (a: GateAction)
    ensures
        a == gate_of(attached, target_present, target_foreground, enabled),
{
    let fg = target_present && target_foreground && enabled;
    if fg && !attached {
        GateAction::Attach
    } else if (!fg || !enabled) && attached {
        GateAction::Detach
    } else if attached && !target_present {
        GateAction::Detach
    } else {
        GateAction::Stay
    }
}

/// What to do with the overlay window this iteration.
#[derive(Debug, Clone, Copy, PartialEq, Eq, Structural)]
pub enum OverlayAction {
    /// move the window's top-left corner here and show it
    Place { x: i32, y: i32 },
    /// leave it where it is
    Keep,
    /// hide it
    Hide,
}

/// The overlay's top-left corner for a mouse position and hotspot (wrapping
/// 32-bit differences).
pub open spec fn overlay_origin(mouse: (i32, i32), hotspot: (i32, i32)) -> OverlayAction {
    OverlayAction::Place {
        x: vstd::wrapping::i32_specs::wrapping_sub(mouse.0, hotspot.0),
        y: vstd::wrapping::i32_specs::wrapping_sub(mouse.1, hotspot.1),
    }
}

/// What happens to the overlay in one iteration.
pub open spec fn placement_of(
    attached: bool,
    overlay_visible: bool,
    mouse: (i32, i32),
    last_mouse: (i32, i32),
    hotspot: (i32, i32),
) -> OverlayAction {
    if !attached {
        OverlayAction::Hide
    } else if overlay_visible && mouse == last_mouse {
        OverlayAction::Keep
    } else {
        overlay_origin(mouse, hotspot)
    }
}

/// While detached the overlay is hidden; on the iteration that attaches (the
/// overlay not visible yet) it is placed with the hotspot on the mouse, moved
/// or not: the custom cursor is drawn as soon as the original one is hidden.
/// An attach is decided only when the replacement should be active.
pub proof fn law_overlay_shown_on_attach(
    target_present: bool,
    target_foreground: bool,
    enabled: bool,
    visible: bool,
    mouse: (i32, i32),
    last_mouse: (i32, i32),
    hotspot: (i32, i32),
)
    ensures
        placement_of(false, visible, mouse, last_mouse, hotspot) == OverlayAction::Hide,
        placement_of(true, false, mouse, last_mouse, hotspot) == overlay_origin(mouse, hotspot),
        gate_of(false, target_present, target_foreground, enabled) == GateAction::Attach
            ==> should_be_attached(target_present, target_foreground, enabled),
{
}

/// While attached the overlay shows the custom cursor with its hotspot on
/// the mouse position: it is placed when it is not visible yet (so it appears
/// on the iteration that attaches) and whenever the mouse moved; otherwise it
/// stays. While not attached it is hidden. The top-left corner is the mouse
/// position minus the hotspot, in wrapping 32-bit arithmetic as the release
/// build computes it.
pub fn placement(
    attached: bool,
    overlay_visible: bool,
    mouse: (i32, i32),
    last_mouse: (i32, i32),
    hotspot: (i32, i32),
) -> (a: OverlayAction)
    ensures
        a == placement_of(attached, overlay_visible, mouse, last_mouse, hotspot),
        attached && !overlay_visible ==> a is Place,
{
    if !attached {
        OverlayAction::Hide
    } else if overlay_visible && mouse.0 == last_mouse.0 && mouse.1 == last_mouse.1 {
        OverlayAction::Keep
    } else {
        OverlayAction::Place {
            x: mouse.0.wrapping_sub(hotspot.0),
            y: mouse.1.wrapping_sub(hotspot.1),
        }
    }
}

/// A top-level window is considered (for the target and the picker) unless
/// it is a tool window (extended style bit 0x80), belongs to no process, or
/// belongs to this process.
pub fn window_considered(ex_style: u32, pid: u32, own_pid: u32) -> (r: bool)
    ensures
        r == ((ex_style & 0x80u32) == 0 && pid != 0 && pid != own_pid),
{
    (ex_style & 0x80) == 0 && pid != 0 && pid != own_pid
}

/// What follows an attempt to attach to the target's input queue.
#[derive(Debug, Clone, Copy, PartialEq, Eq, Structural)]
pub struct AttachOutcome {
    /// the worker is attached now
    pub attached: bool,
    /// how long to pause before the next iteration, in ms
    pub backoff_ms: u64,
    /// the attempt was refused for lack of rights (error 5, access denied)
    pub access_denied: bool,
}

/// After an attach attempt: attached when it succeeded; otherwise not
/// attached, a pause of one second before retrying, and whether the refusal
/// was for lack of rights (Win32 error 5).
pub fn attach_outcome(succeeded: bool, last_error: u32) -> (o: AttachOutcome)
    ensures
        o.attached == succeeded,
        o.backoff_ms == (if succeeded { 0u64 } else { 1000u64 }),
        o.access_denied == (!succeeded && last_error == 5),
{
    if succeeded {
        AttachOutcome { attached: true, backoff_ms: 0, access_denied: false }
    } else {
        AttachOutcome { attached: false, backoff_ms: 1000, access_denied: last_error == 5 }
    }
}

/// The cursor file is (re)loaded whenever the settings changed since the last
/// load (the version counter moved).
pub fn sprite_reload_needed(loaded_version: u64, settings_version: u64) -> (r: bool)
    ensures
        r == (loaded_version != settings_version),
{
    loaded_version != settings_version
}

/// What the worker carries from one iteration to the next.
pub struct WorkerState {
    pub attached: bool,
    pub overlay_visible: bool,
    /// top-left corner of the overlay when it was last placed
    pub overlay_at: (i32, i32),
    /// mouse position seen in the last iteration
    pub last_mouse: (i32, i32),
    /// sprite hotspot used in the last iteration
    pub hotspot: (i32, i32),
}

/// What one iteration observes: the target, the setting, the mouse, the
/// sprite's hotspot, and whether an attach attempt (if one is made) succeeds.
pub struct Observation {
    pub target_present: bool,
    pub target_foreground: bool,
    pub enabled: bool,
    pub mouse: (i32, i32),
    pub hotspot: (i32, i32),
    pub attach_succeeds: bool,
}

/// The overlay's top-left corner `at` puts the hotspot on the mouse.
pub open spec fn hotspot_on_mouse(at: (i32, i32), mouse: (i32, i32), hotspot: (i32, i32)) -> bool {
    overlay_origin(mouse, hotspot) == (OverlayAction::Place { x: at.0, y: at.1 })
}

/// The state after one iteration: `gate` decides on attachment (an attach
/// takes effect when the attempt succeeds, see `attach_outcome`), then
/// `placement` moves, keeps or hides the overlay.
pub open spec fn worker_step(s: WorkerState, o: Observation) -> WorkerState {
    let attached = match gate_of(s.attached, o.target_present, o.target_foreground, o.enabled) {
        GateAction::Attach => o.attach_succeeds,
        GateAction::Detach => false,
        GateAction::Stay => s.attached,
    };
    let action = placement_of(attached, s.overlay_visible, o.mouse, s.last_mouse, o.hotspot);
    WorkerState {
        attached,
        overlay_visible: match action {
            OverlayAction::Place { .. } => true,
            OverlayAction::Hide => false,
            OverlayAction::Keep => s.overlay_visible,
        },
        overlay_at: match action {
            OverlayAction::Place { x, y } => (x, y),
            _ => s.overlay_at,
        },
        last_mouse: o.mouse,
        hotspot: o.hotspot,
    }
}

/// The worker's state is consistent: attached exactly with the overlay shown,
/// its hotspot on the last mouse position; detached with the overlay hidden.
pub open spec fn worker_consistent(s: WorkerState) -> bool {
    &&& s.attached ==> s.overlay_visible && hotspot_on_mouse(s.overlay_at, s.last_mouse, s.hotspot)
    &&& !s.attached ==> !s.overlay_visible
}

/// Across iterations of the worker: from a consistent state (the start, with
/// nothing attached and the overlay hidden, is one), each iteration ends
/// consistent, attached only while the target is present, enabled and in the
/// foreground, attached whenever it is and the attach succeeds, and, while
/// attached, with the overlay shown at the mouse position minus the hotspot;
/// detached, with the overlay hidden. The one exception is left out: a
/// sprite whose hotspot changed while the mouse stood still keeps its old
/// position until the mouse moves.
pub proof fn law_worker_iteration(s: WorkerState, o: Observation)
    requires
        worker_consistent(s),
        s.attached && s.overlay_visible && o.mouse == s.last_mouse ==> o.hotspot == s.hotspot,
    ensures
        worker_consistent(worker_step(s, o)),
        worker_step(s, o).attached ==> should_be_attached(o.target_present, o.target_foreground, o.enabled),
        should_be_attached(o.target_present, o.target_foreground, o.enabled) && (s.attached || o.attach_succeeds)
            ==> worker_step(s, o).attached,
        worker_step(s, o).attached ==> worker_step(s, o).overlay_visible
            && hotspot_on_mouse(worker_step(s, o).overlay_at, o.mouse, o.hotspot),
        !worker_step(s, o).attached ==> !worker_step(s, o).overlay_visible,
{
}

/// The worker starts detached with no overlay shown, which is consistent.
pub proof fn law_worker_start(s: WorkerState)
    requires
        !s.attached,
        !s.overlay_visible,
    ensures
        worker_consistent(s),
{
}

/// A visible top-level window of another process, as the worker saw it.
#[derive(Debug)]
pub struct WindowCandidate {
    pub hwnd: isize,
    pub pid: u32,
    pub tid: u32,
    pub title: String,
    /// image base name of the owning process (empty when unknown)
    pub exe: String,
    /// DWM extended frame bounds (left, top, right, bottom), when available
    pub frame: Option<(i32, i32, i32, i32)>,
}

/// The window the cursor replacement is for.
#[derive(Debug)]
pub struct TargetInfo {
    pub hwnd: isize,
    pub pid: u32,
    pub tid: u32,
    pub exe: String,
}

/// Area of a frame: width times height, each a wrapping 32-bit difference
/// (as the release build computes it), the product in 64 bits.
pub open spec fn frame_area(f: (i32, i32, i32, i32)) -> int {
    vstd::wrapping::i32_specs::wrapping_sub(f.2, f.0) as int * vstd::wrapping::i32_specs::wrapping_sub(
        f.3,
        f.1,
    ) as int
}

/// The process-name filter: trimmed and lowercased.
pub open spec fn process_filter(s: Settings) -> Seq<char> {
    lowercase_of(trimmed_of(s.process@))
}

/// The title filter: trimmed and lowercased.
pub open spec fn title_filter(s: Settings) -> Seq<char> {
    lowercase_of(trimmed_of(s.window_title@))
}

pub open spec fn matches_process(pf: Seq<char>, c: WindowCandidate) -> bool {
    pf.len() > 0 && lowercase_of(c.exe@) == pf
}

pub open spec fn matches_title(tf: Seq<char>, c: WindowCandidate) -> bool {
    tf.len() > 0 && contains_run(lowercase_of(c.title@), tf)
}

/// A window can be the target: its process name equals the filter or its
/// title contains the title filter (case-insensitively); a window with an
/// empty title only by process name (elevated titles may be hidden); and its
/// frame bounds are known.
pub open spec fn eligible(pf: Seq<char>, tf: Seq<char>, c: WindowCandidate) -> bool {
    &&& matches_process(pf, c) || matches_title(tf, c)
    &&& !(c.title@.len() == 0 && !matches_process(pf, c))
    &&& c.frame is Some
}

/// Title matching ignores case: a window with a non-empty title that, once
/// lowercased, contains the trimmed and lowercased title setting can be the
/// target whenever its frame is known (whatever the process filter says),
/// e.g. "MuMu Player 12 - Arknights" for the setting "Arknights".
pub proof fn law_title_match_ignores_case(settings: Settings, c: WindowCandidate)
    requires
        c.title@.len() > 0,
        lowercase_of(trimmed_of(settings.window_title@)).len() > 0,
        contains_run(lowercase_of(c.title@), lowercase_of(trimmed_of(settings.window_title@))),
        c.frame is Some,
    ensures
        eligible(process_filter(settings), title_filter(settings), c),
{
}

/// Process matching ignores case as well: a window whose lowercased image
/// name equals the trimmed and lowercased process setting can be the target
/// whenever its frame is known, with or without a title.
pub proof fn law_process_match_ignores_case(settings: Settings, c: WindowCandidate)
    requires
        lowercase_of(trimmed_of(settings.process@)).len() > 0,
        lowercase_of(c.exe@) == lowercase_of(trimmed_of(settings.process@)),
        c.frame is Some,
    ensures
        eligible(process_filter(settings), title_filter(settings), c),
{
}

/// Candidate `k` is the chosen target: eligible with a non-negative area,
/// no eligible window larger, none before it as large.
pub open spec fn is_best_window(pf: Seq<char>, tf: Seq<char>, cs: Seq<WindowCandidate>, k: int) -> bool {
    &&& 0 <= k < cs.len()
    &&& eligible(pf, tf, cs[k])
    &&& frame_area(cs[k].frame->0) >= 0
    &&& forall|j: int|
        0 <= j < cs.len() && eligible(pf, tf, #[trigger] cs[j]) ==> frame_area(cs[j].frame->0)
            <= frame_area(cs[k].frame->0)
    &&& forall|j: int|
        0 <= j < k && eligible(pf, tf, #[trigger] cs[j]) ==> frame_area(cs[j].frame->0) < frame_area(
            cs[k].frame->0,
        )
}

/// The target window: among the windows that match the filters, the first
/// one of largest frame area. None when both filters are empty.
pub fn find_target(settings: &Settings, candidates: &Vec<WindowCandidate>) -> (res: Option<TargetInfo>)
    ensures
        ({
            let pf = process_filter(*settings);
            let tf = title_filter(*settings);
            let cs = candidates@;
            &&& (pf.len() == 0 && tf.len() == 0) ==> res is None
            &&& (pf.len() > 0 || tf.len() > 0) ==> (res is Some <==> exists|j: int|
                0 <= j < cs.len() && eligible(pf, tf, #[trigger] cs[j]) && frame_area(
                    cs[j].frame->0,
                ) >= 0)
            &&& res matches Some(t) ==> exists|k: int|
                is_best_window(pf, tf, cs, k) && t.hwnd == cs[k].hwnd && t.pid == cs[k].pid && t.tid
                    == cs[k].tid && t.exe@ == cs[k].exe@
        }),
        // case-insensitive title match: a titled window whose lowercased title
        // contains the trimmed, lowercased title setting is a target
        forall|j: int|
            0 <= j < candidates@.len() && candidates@[j].title@.len() > 0 && lowercase_of(
                trimmed_of(settings.window_title@),
            ).len() > 0 && contains_run(
                lowercase_of(#[trigger] candidates@[j].title@),
                lowercase_of(trimmed_of(settings.window_title@)),
            ) && candidates@[j].frame is Some && frame_area(candidates@[j].frame->0) >= 0
                ==> res is Some,
        // the window chosen matches the process name or the title, both
        // compared in lowercase
        res matches Some(t) ==> exists|k: int|
            0 <= k < candidates@.len() && #[trigger] candidates@[k].hwnd == t.hwnd && (lowercase_of(
                candidates@[k].exe@,
            ) == lowercase_of(trimmed_of(settings.process@)) || contains_run(
                lowercase_of(candidates@[k].title@),
                lowercase_of(trimmed_of(settings.window_title@)),
            )),
{
    let pf = to_lowercase(trim(settings.process.as_str()));
    let tf = to_lowercase(trim(settings.window_title.as_str()));
    let ghost pfv = pf@;
    let ghost tfv = tf@;
    let ghost cs = candidates@;
    if pf.as_str().is_empty() && tf.as_str().is_empty() {
        return None;
    }
    proof {
        assert forall|j: int|
            0 <= j < cs.len() && cs[j].title@.len() > 0 && tfv.len() > 0 && contains_run(
                lowercase_of(#[trigger] cs[j].title@),
                tfv,
            ) && cs[j].frame is Some implies eligible(pfv, tfv, cs[j]) by {
            assert(matches_title(tfv, cs[j]));
        }
    }
    let mut best: Option<usize> = None;
    let mut best_area: i64 = -1;
    let mut i: usize = 0;
    while i < candidates.len()
        invariant
            cs == candidates@,
            pfv == pf@,
            tfv == tf@,
            pfv == process_filter(*settings),
            tfv == title_filter(*settings),
            i <= cs.len(),
            best is None ==> best_area == -1,
            best is None ==> forall|j: int|
                0 <= j < i && eligible(pfv, tfv, #[trigger] cs[j]) ==> frame_area(cs[j].frame->0) < 0,
            best matches Some(k) ==> {
                &&& k < i
                &&& eligible(pfv, tfv, cs[k as int])
                &&& best_area == frame_area(cs[k as int].frame->0)
                &&& best_area >= 0
                &&& forall|j: int|
                    0 <= j < i && eligible(pfv, tfv, #[trigger] cs[j]) ==> frame_area(cs[j].frame->0)
                        <= best_area
                &&& forall|j: int|
                    0 <= j < k && eligible(pfv, tfv, #[trigger] cs[j]) ==> frame_area(
                        cs[j].frame->0,
                    ) < best_area
            },
        decreases cs.len() - i,
    {
        let c = &candidates[i];
        let match_proc = !pf.as_str().is_empty() && str_eq(to_lowercase(c.exe.as_str()).as_str(), pf.as_str());
        let match_title = !tf.as_str().is_empty() && str_contains(
            to_lowercase(c.title.as_str()).as_str(),
            tf.as_str(),
        );
        assert(match_proc == matches_process(pfv, cs[i as int]));
        assert(match_title == matches_title(tfv, cs[i as int]));
        if (match_proc || match_title) && !(c.title.as_str().is_empty() && !match_proc) {
            if let Some((left, top, right, bottom)) = c.frame {
                let w = right.wrapping_sub(left) as i64;
                let h = bottom.wrapping_sub(top) as i64;
                assert(-0x4000_0000_0000_0000 <= w * h <= 0x4000_0000_0000_0000) by (nonlinear_arith)
                    requires
                        -0x8000_0000 <= w <= 0x7fff_ffff,
                        -0x8000_0000 <= h <= 0x7fff_ffff,
                ;
                let area = w * h;
                if area > best_area {
                    best = Some(i);
                    best_area = area;
                }
            }
        }
        i = i + 1;
    }
    match best {
        None => None,
        Some(k) => {
            assert(is_best_window(pfv, tfv, cs, k as int));
            assert(eligible(pfv, tfv, cs[k as int]));
            assert(cs[k as int].hwnd == candidates@[k as int].hwnd);
            let c = &candidates[k];
            Some(TargetInfo { hwnd: c.hwnd, pid: c.pid, tid: c.tid, exe: c.exe.clone() })
        },
    }
}

} // verus!
