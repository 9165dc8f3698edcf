use vstd::prelude::*;

use crate::utils::graphics::Style;

verus! {

/// What a character shows: a symbol in a style.
#[derive(Debug, Clone, Copy, PartialEq, Eq, Structural)]
pub struct CharacterVisual {
    pub symbol: char,
    pub style: Style,
}

impl CharacterVisual {
    pub fn new(symbol: char, style: Style) -> (visual: Self)
        ensures
            visual == (CharacterVisual { symbol, style }),
    {
        Self { symbol, style }
    }
}

/// A visual held for `duration` steps of a scene.
#[derive(Debug, Clone, Copy, PartialEq, Eq, Structural)]
pub struct Frame {
    pub visual: CharacterVisual,
    pub duration: u32,
}

/// The number of steps a frame lasts: its duration, and at least one.
pub open spec fn frame_length(frame: Frame) -> nat {
    if frame.duration >= 1 {
        frame.duration as nat
    } else {
        1
    }
}

impl Frame {
    /// A frame that lasts `duration` steps; a duration of zero is raised to one.
    pub fn new(visual: CharacterVisual, duration: u32) -> (frame: Self)
        ensures
            frame == (Frame { visual, duration: if duration >= 1 { duration } else { 1 } }),
    {
        Self { visual, duration: if duration >= 1 { duration } else { 1 } }
    }
}

/// The state of a scene as plain values.
pub struct SceneView {
    pub frames: Seq<Frame>,
    pub frame_index: nat,
    pub frame_tick: nat,
    pub looping: bool,
    pub active: bool,
    pub finished: bool,
}

/// The state a scene is in right after `activate` succeeded.
pub open spec fn activated(scene: SceneView) -> SceneView {
    SceneView { frame_index: 0, frame_tick: 0, active: true, finished: false, ..scene }
}

/// The state after one step of a scene, and the visual that step shows. A looping scene
/// keeps running and reports itself finished after every step it takes.
pub open spec fn step_scene(scene: SceneView) -> (SceneView, Option<CharacterVisual>) {
    if !scene.active || scene.frames.len() == 0 {
        (scene, None)
    } else {
        let frame = scene.frames[scene.frame_index as int];
        let tick = scene.frame_tick + 1;
        let next = if tick >= frame.duration {
            let index = scene.frame_index + 1;
            if index >= scene.frames.len() {
                if scene.looping {
                    SceneView { frame_index: 0, frame_tick: 0, ..scene }
                } else {
                    SceneView {
                        frame_index: (scene.frames.len() - 1) as nat,
                        frame_tick: 0,
                        active: false,
                        finished: true,
                        ..scene
                    }
                }
            } else {
                SceneView { frame_index: index, frame_tick: 0, ..scene }
            }
        } else {
            SceneView { frame_tick: tick, ..scene }
        };
        if scene.looping {
            (SceneView { finished: true, ..next }, Some(frame.visual))
        } else {
            (next, Some(frame.visual))
        }
    }
}

/// The invariant every scene keeps: the frame index points into the frames (or is zero
/// when there are none), an active scene has frames, one that does not loop is not finished
/// while it runs, and the tick has not yet reached the current frame's length.
pub open spec fn scene_wf(scene: SceneView) -> bool {
    &&& scene.active && !scene.looping ==> !scene.finished
    &&& scene.frames.len() == 0 ==> scene.frame_index == 0 && scene.frame_tick == 0 && !scene.active
    &&& scene.frames.len() > 0 ==> {
        &&& scene.frame_index < scene.frames.len()
        &&& scene.frame_tick < frame_length(scene.frames[scene.frame_index as int])
    }
}

/// A sequence of frames played one after another, once or in a loop.
#[derive(Debug, Clone)]
pub struct Scene {
    frames: Vec<Frame>,
    frame_index: usize,
    frame_tick: u32,
    looping: bool,
    active: bool,
    finished: bool,
}

impl View for Scene {
    type V = SceneView;

    closed spec fn view(&self) -> SceneView {
        SceneView {
            frames: self.frames@,
            frame_index: self.frame_index as nat,
            frame_tick: self.frame_tick as nat,
            looping: self.looping,
            active: self.active,
            finished: self.finished,
        }
    }
}

impl Scene {
    /// The scene invariant; every constructor establishes it and every method keeps it.
    pub open spec fn wf(&self) -> bool {
        scene_wf(self@)
    }

    pub fn new(looping: bool) -> (scene: Self)
        ensures
            scene.wf(),
            scene@ == (SceneView {
                frames: Seq::empty(),
                frame_index: 0,
                frame_tick: 0,
                looping,
                active: false,
                finished: false,
            }),
    {
        Self {
            frames: Vec::new(),
            frame_index: 0,
            frame_tick: 0,
            looping,
            active: false,
            finished: false,
        }
    }

    pub fn with_frames(frames: Vec<Frame>, looping: bool) -> (scene: Self)
        ensures
            scene.wf(),
            scene@ == (SceneView {
                frames: frames@,
                frame_index: 0,
                frame_tick: 0,
                looping,
                active: false,
                finished: false,
            }),
    {
        Self { frames, frame_index: 0, frame_tick: 0, looping, active: false, finished: false }
    }

    pub fn add_frame(&mut self, frame: Frame)
        requires
            old(self).wf(),
        ensures
            final(self).wf(),
            final(self)@ == (SceneView { frames: old(self)@.frames.push(frame), ..old(self)@ }),
    {
        self.frames.push(frame);
    }

    pub fn frames(&self) -> (frames: &[Frame])
        ensures
            frames@ == self@.frames,
    {
        self.frames.as_slice()
    }

    /// Starts the scene from its first frame; a scene without frames cannot start.
    pub fn activate(&mut self) -> (started: bool)
        requires
            old(self).wf(),
        ensures
            final(self).wf(),
            started == (old(self)@.frames.len() > 0),
            started ==> final(self)@ == activated(old(self)@),
            !started ==> final(self)@ == old(self)@,
    {
        if self.frames.len() == 0 {
            return false;
        }
        self.frame_tick = 0;
        self.frame_index = 0;
        self.active = true;
        self.finished = false;
        true
    }

    pub fn deactivate(&mut self)
        requires
            old(self).wf(),
        ensures
            final(self).wf(),
            final(self)@ == (SceneView { active: false, ..old(self)@ }),
    {
        self.active = false;
    }

    pub fn is_active(&self) -> (active: bool)
        ensures
            active == self@.active,
    {
        self.active
    }

    pub fn is_finished(&self) -> (finished: bool)
        ensures
            finished == self@.finished,
    {
        self.finished
    }

    /// The visual of the frame the scene is on, if it has frames.
    pub fn current_visual(&self) -> (visual: Option<&CharacterVisual>)
        requires
            self.wf(),
        ensures
            visual == if self@.frames.len() > 0 {
                Some(&self@.frames[self@.frame_index as int].visual)
            } else {
                None
            },
    {
        if self.frame_index < self.frames.len() {
            Some(&self.frames[self.frame_index].visual)
        } else {
            None
        }
    }

    /// Advances the scene by one step and returns the visual shown during that step;
    /// an inactive scene stays as it is and shows nothing.
    pub fn step(&mut self) -> (visual: Option<CharacterVisual>)
        requires
            old(self).wf(),
        ensures
            final(self).wf(),
            (final(self)@, visual) == step_scene(old(self)@),
    {
        if !self.active || self.frames.len() == 0 {
            return None;
        }
        let frame = self.frames[self.frame_index];
        let tick = self.frame_tick + 1;
        if tick >= frame.duration {
            let index = self.frame_index + 1;
            if index >= self.frames.len() {
                if self.looping {
                    self.frame_tick = 0;
                    self.frame_index = 0;
                } else {
                    self.frame_tick = 0;
                    self.frame_index = self.frames.len() - 1;
                    self.active = false;
                    self.finished = true;
                }
            } else {
                self.frame_tick = 0;
                self.frame_index = index;
            }
        } else {
            self.frame_tick = tick;
        }
        if self.looping {
            self.finished = true;
        }
        Some(frame.visual)
    }
}


/// The state after `count` steps of a scene.
pub open spec fn run_scene(scene: SceneView, count: nat) -> SceneView
    decreases count,
{
    if count == 0 {
        scene
    } else {
        run_scene(step_scene(scene).0, (count - 1) as nat)
    }
}

/// The total length of the frames from index `start` on.
pub open spec fn frames_length_from(frames: Seq<Frame>, start: int) -> nat
    decreases frames.len() - start,
{
    if start < 0 || start >= frames.len() {
        0
    } else {
        frame_length(frames[start]) + frames_length_from(frames, start + 1)
    }
}

/// The steps a running scene that does not loop has left: the rest of the current frame
/// and the whole of each later frame.
pub open spec fn remaining_steps(scene: SceneView) -> nat {
    ((frame_length(scene.frames[scene.frame_index as int]) - scene.frame_tick) as nat)
        + frames_length_from(scene.frames, scene.frame_index + 1int)
}

/// Stepping a scene keeps the scene invariant.
pub proof fn lemma_step_keeps_wf(scene: SceneView)
    requires
        scene_wf(scene),
    ensures
        scene_wf(step_scene(scene).0),
{
}

/// A scene that is not running stays exactly as it is and shows nothing, however often it
/// is stepped.
pub proof fn lemma_idle_scene_holds_still(scene: SceneView, count: nat)
    requires
        !scene.active,
    ensures
        run_scene(scene, count) == scene,
        step_scene(scene).1 is None,
    decreases count,
{
    if count > 0 {
        lemma_idle_scene_holds_still(scene, (count - 1) as nat);
    }
}

/// A running looping scene keeps running however often it is stepped, and after every
/// step it reports itself finished; each step shows the visual of the frame it was on.
pub proof fn lemma_looping_scene_reports_finished(scene: SceneView, count: nat)
    requires
        scene_wf(scene),
        scene.active,
        scene.looping,
    ensures
        run_scene(scene, count).active,
        count >= 1 ==> run_scene(scene, count).finished,
        scene_wf(run_scene(scene, count)),
        step_scene(scene).1 == Some(scene.frames[scene.frame_index as int].visual),
    decreases count,
{
    if count > 0 {
        lemma_looping_scene_reports_finished(step_scene(scene).0, (count - 1) as nat);
    }
}

proof fn lemma_frames_length_positive(frames: Seq<Frame>, start: int)
    requires
        0 <= start < frames.len(),
    ensures
        frames_length_from(frames, start) >= 1,
{
}

proof fn lemma_frames_length_empty(frames: Seq<Frame>, start: int)
    requires
        start >= frames.len(),
    ensures
        frames_length_from(frames, start) == 0,
{
}

/// One step of a running scene that does not loop uses up exactly one of its remaining
/// steps, and it finishes on the step that uses up the last one.
pub proof fn lemma_step_counts_down(scene: SceneView)
    requires
        scene_wf(scene),
        scene.active,
        !scene.looping,
    ensures
        remaining_steps(scene) >= 1,
        remaining_steps(scene) == 1 ==> {
            &&& step_scene(scene).0.finished
            &&& !step_scene(scene).0.active
        },
        remaining_steps(scene) > 1 ==> {
            &&& step_scene(scene).0.active
            &&& remaining_steps(step_scene(scene).0) == remaining_steps(scene) - 1
        },
{
    let index = scene.frame_index as int;
    let next = step_scene(scene).0;
    if index + 1 < scene.frames.len() {
        lemma_frames_length_positive(scene.frames, index + 1);
    } else {
        lemma_frames_length_empty(scene.frames, index + 1);
    }
    if next.frame_index == scene.frame_index && next.active {
        assert(remaining_steps(next) == remaining_steps(scene) - 1);
    }
}

/// A running scene that does not loop runs for exactly `remaining_steps` steps: it is
/// still running after fewer, and finished and stopped after that many or more.
pub proof fn lemma_scene_finishes_on_time(scene: SceneView, count: nat)
    requires
        scene_wf(scene),
        scene.active,
        !scene.looping,
    ensures
        count < remaining_steps(scene) ==> run_scene(scene, count).active,
        count >= remaining_steps(scene) ==> {
            &&& run_scene(scene, count).finished
            &&& !run_scene(scene, count).active
        },
    decreases count,
{
    lemma_step_counts_down(scene);
    if count > 0 {
        let next = step_scene(scene).0;
        if remaining_steps(scene) == 1 {
            lemma_idle_scene_holds_still(next, (count - 1) as nat);
        } else {
            lemma_scene_finishes_on_time(next, (count - 1) as nat);
        }
    }
}

/// Running one step more is one more step after the run.
pub proof fn lemma_run_scene_one_more(scene: SceneView, count: nat)
    ensures
        run_scene(scene, count + 1) == step_scene(run_scene(scene, count)).0,
    decreases count,
{
    reveal_with_fuel(run_scene, 2);
    if count > 0 {
        lemma_run_scene_one_more(step_scene(scene).0, (count - 1) as nat);
        assert(run_scene(scene, count) == run_scene(step_scene(scene).0, (count - 1) as nat));
    }
}

/// Whether every frame lasts `duration` steps.
pub open spec fn uniform_frames(frames: Seq<Frame>, duration: u32) -> bool {
    forall|i: int| 0 <= i < frames.len() ==> (#[trigger] frames[i]).duration == duration
}

/// A scene started on its first frame that does not loop and whose frames each last
/// `duration` steps is, after `count` steps, on frame `count / duration` at tick
/// `count % duration`, until it finishes after `duration` steps per frame.
pub proof fn lemma_uniform_scene_position(scene: SceneView, duration: u32, count: nat)
    requires
        scene_wf(scene),
        scene.active,
        !scene.looping,
        scene.frame_index == 0,
        scene.frame_tick == 0,
        duration >= 1,
        uniform_frames(scene.frames, duration),
        count <= duration * scene.frames.len(),
    ensures
        count < duration * scene.frames.len() ==> run_scene(scene, count) == (SceneView {
            frame_index: (count / (duration as nat)) as nat,
            frame_tick: (count % (duration as nat)) as nat,
            ..scene
        }),
        count == duration * scene.frames.len() ==> run_scene(scene, count) == (SceneView {
            frame_index: (scene.frames.len() - 1) as nat,
            frame_tick: 0,
            active: false,
            finished: true,
            ..scene
        }),
    decreases count,
{
    let d = duration as int;
    let total = d * scene.frames.len();
    assert(scene.frames.len() >= 1);
    assert(total >= d) by (nonlinear_arith)
        requires
            total == d * scene.frames.len(),
            scene.frames.len() >= 1,
            d >= 1,
    ;
    if count > 0 {
        let k = (count - 1) as nat;
        lemma_uniform_scene_position(scene, duration, k);
        lemma_run_scene_one_more(scene, k);
        vstd::arithmetic::div_mod::lemma_fundamental_div_mod(k as int, d);
        vstd::arithmetic::div_mod::lemma_mod_bound(k as int, d);
        let q = k as int / d;
        let r = k as int % d;
        assert(count == q * d + r + 1) by (nonlinear_arith)
            requires
                k == d * q + r,
                count == k + 1,
        ;
        assert(q < scene.frames.len()) by (nonlinear_arith)
            requires
                k == d * q + r,
                0 <= r,
                k < d * scene.frames.len(),
                d >= 1,
        ;
        assert(scene.frames[q].duration == duration);
        if r + 1 < d {
            vstd::arithmetic::div_mod::lemma_fundamental_div_mod_converse(count as int, d, q, r + 1);
            assert(q * d + d <= total) by (nonlinear_arith)
                requires
                    q + 1 <= scene.frames.len(),
                    d >= 1,
                    total == d * scene.frames.len(),
            ;
        } else {
            assert(count == (q + 1) * d + 0) by (nonlinear_arith)
                requires
                    count == q * d + r + 1,
                    r + 1 == d,
            ;
            vstd::arithmetic::div_mod::lemma_fundamental_div_mod_converse(count as int, d, q + 1, 0);
            if q + 1 < scene.frames.len() {
                assert(count < total) by (nonlinear_arith)
                    requires
                        count == (q + 1) * d,
                        q + 1 < scene.frames.len(),
                        total == d * scene.frames.len(),
                        d >= 1,
                ;
            } else {
                assert(count == total) by (nonlinear_arith)
                    requires
                        count == (q + 1) * d,
                        q + 1 == scene.frames.len(),
                        total == d * scene.frames.len(),
                ;
            }
        }
    } else {
        vstd::arithmetic::div_mod::lemma_fundamental_div_mod_converse(0, d, 0, 0);
    }
}

/// The state of an animation as plain values.
pub struct AnimationView {
    pub current: CharacterVisual,
    pub active_scene: Option<SceneView>,
}

/// What a character currently looks like, and the scene that is changing it, if any.
#[derive(Debug, Clone)]
pub struct Animation {
    current: CharacterVisual,
    active_scene: Option<Scene>,
}

impl View for Animation {
    type V = AnimationView;

    closed spec fn view(&self) -> AnimationView {
        AnimationView {
            current: self.current,
            active_scene: match self.active_scene {
                Some(scene) => Some(scene@),
                None => None,
            },
        }
    }
}

impl Animation {
    /// The animation invariant: its running scene, if any, keeps the scene invariant.
    pub open spec fn wf(&self) -> bool {
        match self@.active_scene {
            Some(scene) => scene_wf(scene),
            None => true,
        }
    }

    pub fn new(symbol: char, style: Style) -> (animation: Self)
        ensures
            animation.wf(),
            animation@ == (AnimationView {
                current: CharacterVisual { symbol, style },
                active_scene: None,
            }),
    {
        Self { current: CharacterVisual::new(symbol, style), active_scene: None }
    }

    pub fn current_visual(&self) -> (visual: &CharacterVisual)
        ensures
            *visual == self@.current,
    {
        &self.current
    }

    /// Shows `symbol` in `style` from now on; a running scene is left running.
    pub fn set_appearance(&mut self, symbol: char, style: Style)
        requires
            old(self).wf(),
        ensures
            final(self).wf(),
            final(self)@ == (AnimationView {
                current: CharacterVisual { symbol, style },
                ..old(self)@
            }),
    {
        self.current = CharacterVisual::new(symbol, style);
    }

    /// Starts `scene` and makes it the running scene, showing its first frame at once; a
    /// scene without frames is refused and nothing changes.
    pub fn activate_scene(&mut self, scene: Scene) -> (started: bool)
        requires
            old(self).wf(),
            scene.wf(),
        ensures
            final(self).wf(),
            started == (scene@.frames.len() > 0),
            started ==> final(self)@ == (AnimationView {
                current: scene@.frames[0].visual,
                active_scene: Some(activated(scene@)),
            }),
            !started ==> final(self)@ == old(self)@,
    {
        let mut scene = scene;
        if !scene.activate() {
            return false;
        }
        if let Some(visual) = scene.current_visual() {
            self.current = *visual;
        }
        self.active_scene = Some(scene);
        true
    }

    pub fn active_scene(&self) -> (scene: Option<&Scene>)
        requires
            self.wf(),
        ensures
            scene matches Some(scene) ==> scene.wf(),
            match scene {
                Some(scene) => self@.active_scene == Some(scene@),
                None => self@.active_scene is None,
            },
    {
        self.active_scene.as_ref()
    }

    pub fn active_scene_mut(&mut self) -> (scene: Option<&mut Scene>)
        requires
            old(self).wf(),
        ensures
            scene is Some ==> scene.unwrap().wf(),
            match old(self)@.active_scene {
                None => scene is None && final(self)@ == old(self)@,
                Some(running) => {
                    &&& scene is Some
                    &&& scene.unwrap()@ == running
                    &&& final(self)@ == (AnimationView {
                        active_scene: Some(final(scene.unwrap())@),
                        ..old(self)@
                    })
                },
            },
    {
        self.active_scene.as_mut()
    }

    /// Stops and drops the running scene; the current visual stays.
    pub fn deactivate(&mut self)
        requires
            old(self).wf(),
        ensures
            final(self).wf(),
            final(self)@ == (AnimationView { active_scene: None, ..old(self)@ }),
    {
        if let Some(scene) = &mut self.active_scene {
            scene.deactivate();
        }
        self.active_scene = None;
    }

    /// Steps the running scene; the visual it shows becomes the current one.
    pub fn step(&mut self) -> (visual: Option<CharacterVisual>)
        requires
            old(self).wf(),
        ensures
            final(self).wf(),
            match old(self)@.active_scene {
                None => visual is None && final(self)@ == old(self)@,
                Some(running) => {
                    let (next, shown) = step_scene(running);
                    &&& visual == shown
                    &&& final(self)@ == (AnimationView {
                        current: match shown {
                            Some(v) => v,
                            None => old(self)@.current,
                        },
                        active_scene: Some(next),
                    })
                },
            },
    {
        match &mut self.active_scene {
            Some(scene) => {
                let visual = scene.step();
                match visual {
                    Some(v) => {
                        self.current = v;
                        Some(v)
                    },
                    None => None,
                }
            },
            None => None,
        }
    }
}

/// A call made on a scene that does not add frames.
pub enum SceneCall {
    Activate,
    Step,
    Deactivate,
}

/// The scene after `call`, as the method's contract gives it.
pub open spec fn call_scene(scene: SceneView, call: SceneCall) -> SceneView {
    match call {
        SceneCall::Activate => if scene.frames.len() > 0 {
            activated(scene)
        } else {
            scene
        },
        SceneCall::Step => step_scene(scene).0,
        SceneCall::Deactivate => SceneView { active: false, ..scene },
    }
}

/// The scene after `calls`, in order.
pub open spec fn call_scene_all(scene: SceneView, calls: Seq<SceneCall>) -> SceneView
    decreases calls.len(),
{
    if calls.len() == 0 {
        scene
    } else {
        call_scene(call_scene_all(scene, calls.drop_last()), calls.last())
    }
}

/// Only `add_frame` changes a scene's frames: activating, stepping, finishing and
/// deactivating, in any order, never alter, drop or reorder them, nor whether it loops.
pub proof fn lemma_calls_keep_frames(scene: SceneView, calls: Seq<SceneCall>)
    ensures
        call_scene_all(scene, calls).frames == scene.frames,
        call_scene_all(scene, calls).looping == scene.looping,
    decreases calls.len(),
{
    if calls.len() > 0 {
        lemma_calls_keep_frames(scene, calls.drop_last());
    }
}

/// A call made on an animation.
pub enum AnimationCall {
    SetAppearance(CharacterVisual),
    ActivateScene(SceneView),
    Step,
    Deactivate,
}

/// The visual that `call` makes current, if any: the appearance set, the first frame of a
/// scene that starts, or the visual a step shows.
pub open spec fn visual_set_by(animation: AnimationView, call: AnimationCall) -> Option<CharacterVisual> {
    match call {
        AnimationCall::SetAppearance(visual) => Some(visual),
        AnimationCall::ActivateScene(scene) => if scene.frames.len() > 0 {
            Some(scene.frames[0].visual)
        } else {
            None
        },
        AnimationCall::Step => match animation.active_scene {
            Some(running) => step_scene(running).1,
            None => None,
        },
        AnimationCall::Deactivate => None,
    }
}

/// The animation after `call`, as the method's contract gives it.
pub open spec fn call_animation(animation: AnimationView, call: AnimationCall) -> AnimationView {
    match call {
        AnimationCall::SetAppearance(visual) => AnimationView { current: visual, ..animation },
        AnimationCall::ActivateScene(scene) => if scene.frames.len() > 0 {
            AnimationView { current: scene.frames[0].visual, active_scene: Some(activated(scene)) }
        } else {
            animation
        },
        AnimationCall::Step => match animation.active_scene {
            Some(running) => AnimationView {
                current: match step_scene(running).1 {
                    Some(v) => v,
                    None => animation.current,
                },
                active_scene: Some(step_scene(running).0),
            },
            None => animation,
        },
        AnimationCall::Deactivate => AnimationView { active_scene: None, ..animation },
    }
}

/// The animation after `calls`, in order.
pub open spec fn call_animation_all(animation: AnimationView, calls: Seq<AnimationCall>) -> AnimationView
    decreases calls.len(),
{
    if calls.len() == 0 {
        animation
    } else {
        call_animation(call_animation_all(animation, calls.drop_last()), calls.last())
    }
}

/// The visual set by the latest of `calls` that sets one, or `initial` if none does.
pub open spec fn latest_visual(animation: AnimationView, calls: Seq<AnimationCall>) -> CharacterVisual
    decreases calls.len(),
{
    if calls.len() == 0 {
        animation.current
    } else {
        match visual_set_by(call_animation_all(animation, calls.drop_last()), calls.last()) {
            Some(v) => v,
            None => latest_visual(animation, calls.drop_last()),
        }
    }
}

/// An animation's current visual is the one set by the latest call that sets one: a new
/// appearance, a scene that starts, or a step that shows a visual; deactivating, a refused
/// scene and a step that shows nothing leave it as it was.
pub proof fn lemma_current_visual_is_latest(animation: AnimationView, calls: Seq<AnimationCall>)
    ensures
        call_animation_all(animation, calls).current == latest_visual(animation, calls),
    decreases calls.len(),
{
    if calls.len() > 0 {
        lemma_current_visual_is_latest(animation, calls.drop_last());
    }
}

/// The frame that step `k` shows, counting steps from the start of frame `index`: the
/// frame whose span of steps holds it (the last frame once past the end).
pub open spec fn frame_at(frames: Seq<Frame>, index: int, k: int) -> int
    decreases frames.len() - index,
{
    if index < 0 || index >= frames.len() - 1 || k < frame_length(frames[index]) {
        index
    } else {
        frame_at(frames, index + 1, k - frame_length(frames[index]))
    }
}

/// A running scene that does not loop shows, at each of its remaining steps, the frame
/// whose span holds that step: step `k` from frame `frame_index` at tick `frame_tick`
/// shows frame `frame_at(frames, frame_index, frame_tick + k)`.
pub proof fn lemma_step_shows_frame(scene: SceneView, k: nat)
    requires
        scene_wf(scene),
        scene.active,
        !scene.looping,
        k < remaining_steps(scene),
    ensures
        step_scene(run_scene(scene, k)).1 == Some(
            scene.frames[frame_at(scene.frames, scene.frame_index as int, (scene.frame_tick + k) as int)].visual,
        ),
    decreases k,
{
    lemma_step_counts_down(scene);
    if k > 0 {
        let next = step_scene(scene).0;
        lemma_step_shows_frame(next, (k - 1) as nat);
        assert(run_scene(scene, k) == run_scene(next, (k - 1) as nat));
        let i = scene.frame_index as int;
        if next.frame_index == scene.frame_index {
            assert(next.frame_tick == scene.frame_tick + 1);
        } else {
            assert(next.frame_index == i + 1 && next.frame_tick == 0);
            assert(scene.frame_tick + 1 == frame_length(scene.frames[i]));
            assert(frame_at(scene.frames, i, (scene.frame_tick + k) as int) == frame_at(scene.frames, i + 1, k - 1));
        }
    }
}

/// The last step of the frames from `i` on falls in the last frame.
pub proof fn lemma_frame_at_last(frames: Seq<Frame>, i: int)
    requires
        0 <= i < frames.len(),
    ensures
        frame_at(frames, i, frames_length_from(frames, i) - 1) == frames.len() - 1,
    decreases frames.len() - i,
{
    if i < frames.len() - 1 {
        lemma_frames_length_positive(frames, i + 1);
        lemma_frame_at_last(frames, i + 1);
    }
}

/// A running scene that does not loop shows its last frame on its last remaining step, and
/// nothing on any later step.
pub proof fn lemma_scene_ends_on_last_frame(scene: SceneView, k: nat)
    requires
        scene_wf(scene),
        scene.active,
        !scene.looping,
    ensures
        k + 1 == remaining_steps(scene) ==> step_scene(run_scene(scene, k)).1 == Some(scene.frames.last().visual),
        k >= remaining_steps(scene) ==> step_scene(run_scene(scene, k)).1 is None,
{
    lemma_step_counts_down(scene);
    lemma_scene_finishes_on_time(scene, k);
    if k + 1 == remaining_steps(scene) {
        lemma_step_shows_frame(scene, k);
        let i = scene.frame_index as int;
        assert(scene.frame_tick + k == frames_length_from(scene.frames, i) - 1);
        lemma_frame_at_last(scene.frames, i);
    }
}

} // verus!
