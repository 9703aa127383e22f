//! Tween animations: how a tween's clock advances, loops and finishes, and
//! the engine that steps every active tween at once. Durations are counted
//! in nanoseconds.
use slotmap::{DefaultKey, Key, KeyData, SlotMap};
use vstd::prelude::*;

verus! {

/// Easing curves for tweens.
#[derive(Clone, Copy, Debug, PartialEq, Eq, Structural)]
pub enum Easing {
    Linear,
    EaseIn,
    EaseOut,
    EaseInOut,
    Bounce,
}

/// Handle of an animation in an engine: the 64-bit form of the slot-map
/// key under which the engine stores it.
#[derive(Clone, Copy, Debug, PartialEq, Eq, Hash, Structural)]
pub struct AnimationKey(u64);

/// The 64-bit form of a key that a slot map hands out: its version half is
/// odd.
pub open spec fn key_ok(x: u64) -> bool {
    (x / 0x1_0000_0000) % 2 == 1
}

impl View for AnimationKey {
    type V = u64;

    closed spec fn view(&self) -> u64 {
        self.0
    }
}

impl AnimationKey {
    /// Two handles with the same 64-bit form are the same handle.
    pub broadcast proof fn lemma_view_injective(a: AnimationKey, b: AnimationKey)
        ensures
            #[trigger] a@ == #[trigger] b@ ==> a == b,
    {
    }

    /// Every handle is the 64-bit form of a key that a slot map handed out.
    #[verifier::type_invariant]
    spec fn inv(self) -> bool {
        key_ok(self.0)
    }
}

/// A change in the state of an animation.
#[derive(Clone, Copy, Debug, PartialEq, Eq, Structural)]
pub enum AnimationUpdate {
    Started(AnimationKey),
    Looped(AnimationKey),
    Finished(AnimationKey),
}

/// The timing state of a tween.
#[derive(Clone, Copy, Debug, PartialEq, Eq, Structural)]
pub struct TweenClock {
    /// Length of one pass, in nanoseconds.
    pub duration_ns: u128,
    /// Time spent in the current pass, in nanoseconds.
    pub elapsed_ns: u128,
    /// Delay still to wait before the first pass, in nanoseconds.
    pub delay_ns: u128,
    /// The tween has ended.
    pub finished: bool,
    /// Number of passes to run; 0 runs forever.
    pub loop_count: u32,
    /// Number of passes completed and restarted.
    pub current_loop: u32,
    /// Each new pass runs in the other direction.
    pub yoyo: bool,
    /// The current pass runs backwards.
    pub reverse: bool,
}

/// What one clock step reports.
#[derive(Clone, Copy, Debug, PartialEq, Eq, Structural)]
pub struct ClockTick {
    /// The tween left its start this step.
    pub started: bool,
    /// A pass ended and another one began.
    pub looped: bool,
    /// The last pass ended.
    pub finished: bool,
    /// The new pass runs the other way: the caller swaps the tween's ends.
    pub swap_ends: bool,
}

/// The clock waits out its delay this step: it has not started and the
/// remaining delay exceeds the step.
pub open spec fn waits(c: TweenClock, dt: u128) -> bool {
    c.elapsed_ns == 0 && c.delay_ns > dt
}

/// A step of `dt` ends the current pass.
pub open spec fn ends_pass(c: TweenClock, dt: u128) -> bool {
    !c.finished && !waits(c, dt) && c.elapsed_ns + dt >= c.duration_ns
}

/// Another pass follows the one that ends.
pub open spec fn loops_again(c: TweenClock) -> bool {
    c.loop_count == 0 || c.current_loop + 1 < c.loop_count
}

/// The clock after a step of `dt` and what the step reports: a finished
/// clock stays as it is; a clock still waiting out its delay has the delay
/// shortened; otherwise time runs, a clock at zero reports its start, and a
/// pass that reaches its duration either restarts (counting the loop and,
/// for yoyo tweens, turning around) or ends the tween.
pub open spec fn step(c: TweenClock, dt: u128) -> (TweenClock, ClockTick) {
    let none = ClockTick { started: false, looped: false, finished: false, swap_ends: false };
    if c.finished {
        (c, none)
    } else if waits(c, dt) {
        (TweenClock { delay_ns: (c.delay_ns - dt) as u128, ..c }, none)
    } else {
        let started = c.elapsed_ns == 0;
        let elapsed = (c.elapsed_ns + dt) as u128;
        if elapsed >= c.duration_ns {
            if loops_again(c) {
                (
                    TweenClock {
                        elapsed_ns: 0,
                        current_loop: (c.current_loop + 1) as u32,
                        reverse: if c.yoyo { !c.reverse } else { c.reverse },
                        ..c
                    },
                    ClockTick { started, looped: true, finished: false, swap_ends: c.yoyo },
                )
            } else {
                (
                    TweenClock { elapsed_ns: elapsed, finished: true, ..c },
                    ClockTick { started, looped: false, finished: true, swap_ends: false },
                )
            }
        } else {
            (TweenClock { elapsed_ns: elapsed, ..c }, ClockTick { started, looped: false, finished: false, swap_ends: false })
        }
    }
}

impl TweenClock {
    /// A clock for one pass of `duration_ms` milliseconds, not started,
    /// without delay.
    pub fn new(duration_ms: u64) -> (r: Self)
        ensures
            r == (TweenClock {
                duration_ns: (duration_ms as u128 * 1_000_000) as u128,
                elapsed_ns: 0,
                delay_ns: 0,
                finished: false,
                loop_count: 1,
                current_loop: 0,
                yoyo: false,
                reverse: false,
            }),
    {
        let ms = duration_ms as u128;
        assert(ms * 1_000_000 <= u128::MAX) by (nonlinear_arith)
            requires
                ms <= u64::MAX,
        ;
        TweenClock {
            duration_ns: ms * 1_000_000,
            elapsed_ns: 0,
            delay_ns: 0,
            finished: false,
            loop_count: 1,
            current_loop: 0,
            yoyo: false,
            reverse: false,
        }
    }

    /// Advances the clock by `dt` nanoseconds.
    pub fn advance(&mut self, dt: u128) -> (r: ClockTick)
        requires
            !old(self).finished && !waits(*old(self), dt) ==> old(self).elapsed_ns + dt <= u128::MAX,
            ends_pass(*old(self), dt) ==> old(self).current_loop < u32::MAX,
        ensures
            (*final(self), r) == step(*old(self), dt),
    {
        let none = ClockTick { started: false, looped: false, finished: false, swap_ends: false };
        if self.finished {
            return none;
        }
        if self.elapsed_ns == 0 && self.delay_ns > dt {
            self.delay_ns = self.delay_ns - dt;
            return none;
        }
        let was_zero = self.elapsed_ns == 0;
        self.elapsed_ns = self.elapsed_ns + dt;
        if self.elapsed_ns >= self.duration_ns {
            if self.loop_count == 0 || self.current_loop + 1 < self.loop_count {
                self.current_loop = self.current_loop + 1;
                self.elapsed_ns = 0;
                let swap = self.yoyo;
                if self.yoyo {
                    self.reverse = !self.reverse;
                }
                ClockTick { started: was_zero, looped: true, finished: false, swap_ends: swap }
            } else {
                self.finished = true;
                ClockTick { started: was_zero, looped: false, finished: true, swap_ends: false }
            }
        } else {
            ClockTick { started: was_zero, looped: false, finished: false, swap_ends: false }
        }
    }
}

/// Once finished, a clock stays finished and reports nothing, whatever the
/// steps that follow.
pub proof fn lemma_finished_is_final(c: TweenClock, dt: u128)
    requires
        c.finished,
    ensures
        step(c, dt).0 == c,
        step(c, dt).1 == (ClockTick { started: false, looped: false, finished: false, swap_ends: false }),
{
}

/// A clock that runs forever never finishes.
pub proof fn lemma_infinite_never_finishes(c: TweenClock, dt: u128)
    requires
        c.loop_count == 0,
        !c.finished,
    ensures
        !step(c, dt).0.finished,
        !step(c, dt).1.finished,
{
}

/// A tween between two `f32` values, each held as its bit pattern
/// (`f32::to_bits`), with its easing curve and its clock.
#[derive(Clone, Copy, Debug, PartialEq, Eq, Structural)]
pub struct Tween {
    pub from_bits: u32,
    pub to_bits: u32,
    pub easing: Easing,
    pub clock: TweenClock,
}

/// A fresh clock for one pass of `duration_ms` milliseconds.
pub open spec fn fresh_clock(duration_ms: u64) -> TweenClock {
    TweenClock {
        duration_ns: (duration_ms as u128 * 1_000_000) as u128,
        elapsed_ns: 0,
        delay_ns: 0,
        finished: false,
        loop_count: 1,
        current_loop: 0,
        yoyo: false,
        reverse: false,
    }
}

impl Tween {
    /// A linear tween from `from_bits` to `to_bits` over one pass of
    /// `duration_ms` milliseconds.
    pub fn new(from_bits: u32, to_bits: u32, duration_ms: u64) -> (r: Self)
        ensures
            r == (Tween { from_bits, to_bits, easing: Easing::Linear, clock: fresh_clock(duration_ms) }),
    {
        Tween { from_bits, to_bits, easing: Easing::Linear, clock: TweenClock::new(duration_ms) }
    }

    /// The same tween with another easing curve.
    pub fn with_easing(self, easing: Easing) -> (r: Self)
        ensures
            r == (Tween { easing, ..self }),
    {
        Tween { easing, ..self }
    }

    /// The same tween, waiting `ms` milliseconds before it starts.
    pub fn with_delay(self, ms: u64) -> (r: Self)
        ensures
            r == (Tween { clock: TweenClock { delay_ns: (ms as u128 * 1_000_000) as u128, ..self.clock }, ..self }),
    {
        let m = ms as u128;
        assert(m * 1_000_000 <= u128::MAX) by (nonlinear_arith)
            requires
                m <= u64::MAX,
        ;
        Tween { clock: TweenClock { delay_ns: m * 1_000_000, ..self.clock }, ..self }
    }

    /// The same tween, running `count` passes (0: forever).
    pub fn with_loop(self, count: u32) -> (r: Self)
        ensures
            r == (Tween { clock: TweenClock { loop_count: count, ..self.clock }, ..self }),
    {
        Tween { clock: TweenClock { loop_count: count, ..self.clock }, ..self }
    }

    /// The same tween, turning around at the end of each pass.
    pub fn with_yoyo(self) -> (r: Self)
        ensures
            r == (Tween { clock: TweenClock { yoyo: true, ..self.clock }, ..self }),
    {
        Tween { clock: TweenClock { yoyo: true, ..self.clock }, ..self }
    }
}

/// A step of `dt` stays within the clock's counters.
pub open spec fn can_step(c: TweenClock, dt: u128) -> bool {
    &&& !c.finished && !waits(c, dt) ==> c.elapsed_ns + dt <= u128::MAX
    &&& ends_pass(c, dt) ==> c.current_loop < u32::MAX
}

/// The tween after a step of `dt`: its clock steps, and its ends swap when
/// a yoyo pass turns around.
pub open spec fn step_tween(t: Tween, dt: u128) -> Tween {
    let s = step(t.clock, dt);
    if s.1.swap_ends {
        Tween { from_bits: t.to_bits, to_bits: t.from_bits, clock: s.0, ..t }
    } else {
        Tween { clock: s.0, ..t }
    }
}

/// What a step reports for the animation `k`: its start first, then the
/// end of a pass as a loop or as the finish.
pub open spec fn tick_events(k: AnimationKey, tick: ClockTick) -> Seq<AnimationUpdate> {
    let s = if tick.started {
        seq![AnimationUpdate::Started(k)]
    } else {
        Seq::empty()
    };
    if tick.looped {
        s.push(AnimationUpdate::Looped(k))
    } else if tick.finished {
        s.push(AnimationUpdate::Finished(k))
    } else {
        s
    }
}

/// The reports of one step of `dt` of the animations `m`, visited in the
/// order `ks`.
pub open spec fn events_for(ks: Seq<AnimationKey>, m: Map<u64, Tween>, dt: u128) -> Seq<AnimationUpdate>
    decreases ks.len(),
{
    if ks.len() == 0 {
        Seq::empty()
    } else {
        events_for(ks.drop_last(), m, dt) + tick_events(ks.last(), step(m[ks.last()@].clock, dt).1)
    }
}

/// `ks` lists every key of `m` once.
pub open spec fn key_order(ks: Seq<AnimationKey>, m: Map<u64, Tween>) -> bool {
    &&& forall|i: int, j: int| 0 <= i < j < ks.len() ==> ks[i]@ != ks[j]@
    &&& forall|i: int| 0 <= i < ks.len() ==> m.dom().contains(#[trigger] ks[i]@)
    &&& forall|k: u64| m.dom().contains(k) ==> exists|i: int| 0 <= i < ks.len() && #[trigger] ks[i]@ == k
}

/// The slot map that stores an engine's tweens, in a private field;
/// `slot_contents` describes what it holds.
#[verifier::external_body]
pub struct Slots {
    inner: SlotMap<DefaultKey, Tween>,
}

/// The tweens that a slot map holds, by the 64-bit form of their keys.
pub uninterp spec fn slot_contents(s: Slots) -> Map<u64, Tween>;

/// `SlotMap::new`: an empty slot map.
#[verifier::external_body]
fn slots_new() -> (r: Slots)
    ensures
        slot_contents(r).dom().is_empty(),
{
    Slots { inner: SlotMap::new() }
}

/// `SlotMap::insert`: stores `t` under a key that is not in use and hands
/// the key out; the key's version half is odd. The map panics when it is
/// full, which it cannot be below `u32::MAX - 1` values.
#[verifier::external_body]
fn slots_insert(s: &mut Slots, t: Tween) -> (k: AnimationKey)
    requires
        slot_contents(*old(s)).dom().finite(),
        slot_contents(*old(s)).len() < u32::MAX - 1,
    ensures
        !slot_contents(*old(s)).dom().contains(k@),
        slot_contents(*final(s)) == slot_contents(*old(s)).insert(k@, t),
{
    AnimationKey(s.inner.insert(t).data().as_ffi())
}

/// `SlotMap::remove`: takes out the value under `k`, if there is one. A
/// key with an odd version half is the one that `KeyData::from_ffi` gives
/// back from it.
#[verifier::external_body]
fn slots_remove(s: &mut Slots, k: AnimationKey) -> (r: Option<Tween>)
    requires
        key_ok(k@),
    ensures
        r == slot_contents(*old(s)).get(k@),
        slot_contents(*final(s)) == slot_contents(*old(s)).remove(k@),
{
    s.inner.remove(DefaultKey::from(KeyData::from_ffi(k.0)))
}

/// `SlotMap::get`: the value under `k`, if there is one.
#[verifier::external_body]
fn slots_get(s: &Slots, k: AnimationKey) -> (r: Option<&Tween>)
    requires
        key_ok(k@),
    ensures
        r == (if slot_contents(*s).dom().contains(k@) {
            Some(&slot_contents(*s)[k@])
        } else {
            None
        }),
{
    s.inner.get(DefaultKey::from(KeyData::from_ffi(k.0)))
}

/// `SlotMap::get_mut`: the value under `k`, if there is one, for writing.
#[verifier::external_body]
fn slots_get_mut(s: &mut Slots, k: AnimationKey) -> (r: Option<&mut Tween>)
    requires
        key_ok(k@),
    ensures
        !slot_contents(*old(s)).dom().contains(k@) ==> r.is_none() && slot_contents(*final(s))
            == slot_contents(*old(s)),
        slot_contents(*old(s)).dom().contains(k@) ==> r.is_some() && *r.unwrap() == slot_contents(
            *old(s),
        )[k@] && slot_contents(*final(s)) == slot_contents(*old(s)).insert(k@, *final(r.unwrap())),
{
    s.inner.get_mut(DefaultKey::from(KeyData::from_ffi(k.0)))
}

/// `SlotMap` indexing for writing: replaces the value under `k`, which
/// must be there.
#[verifier::external_body]
fn slots_set(s: &mut Slots, k: AnimationKey, t: Tween)
    requires
        key_ok(k@),
        slot_contents(*old(s)).dom().contains(k@),
    ensures
        slot_contents(*final(s)) == slot_contents(*old(s)).insert(k@, t),
{
    s.inner[DefaultKey::from(KeyData::from_ffi(k.0))] = t;
}

/// `SlotMap::keys`: every key in use, once each, in slot order.
#[verifier::external_body]
fn slots_keys(s: &Slots) -> (r: Vec<AnimationKey>)
    ensures
        key_order(r@, slot_contents(*s)),
{
    s.inner.keys().map(|k| AnimationKey(k.data().as_ffi())).collect()
}

/// `SlotMap::len`: the number of values.
#[verifier::external_body]
fn slots_len(s: &Slots) -> (r: usize)
    ensures
        r == slot_contents(*s).len(),
{
    s.inner.len()
}

/// Whether a step of `dt` stays within the clock's counters.
pub fn clock_can_step(c: &TweenClock, dt: u128) -> (r: bool)
    ensures
        r == can_step(*c, dt),
{
    let waiting = c.elapsed_ns == 0 && c.delay_ns > dt;
    if c.finished || waiting {
        return true;
    }
    if dt > u128::MAX - c.elapsed_ns {
        return false;
    }
    c.elapsed_ns + dt < c.duration_ns || c.current_loop < u32::MAX
}

/// Holds every active tween and steps them together.
pub struct AnimationEngine {
    animations: Slots,
}

impl AnimationEngine {
    /// The tweens, by the 64-bit form of their keys.
    pub closed spec fn contents(&self) -> Map<u64, Tween> {
        slot_contents(self.animations)
    }

    /// The engine holds finitely many tweens.
    pub closed spec fn wf(&self) -> bool {
        self.contents().dom().finite()
    }

    /// An engine without tweens.
    pub fn new() -> (r: Self)
        ensures
            r.wf(),
            r.contents() == Map::<u64, Tween>::empty(),
    {
        let e = AnimationEngine { animations: slots_new() };
        assert(e.contents() =~= Map::<u64, Tween>::empty());
        e
    }

    /// Adds a tween under a new key and returns the key.
    pub fn add(&mut self, tween: Tween) -> (k: AnimationKey)
        requires
            old(self).wf(),
            old(self).contents().len() < u32::MAX - 1,
        ensures
            final(self).wf(),
            !old(self).contents().dom().contains(k@),
            final(self).contents() == old(self).contents().insert(k@, tween),
    {
        slots_insert(&mut self.animations, tween)
    }

    /// Removes the tween under `key`; says whether there was one.
    pub fn remove(&mut self, key: AnimationKey) -> (r: bool)
        requires
            old(self).wf(),
        ensures
            final(self).wf(),
            r == old(self).contents().dom().contains(key@),
            final(self).contents() == old(self).contents().remove(key@),
    {
        proof {
            use_type_invariant(&key);
        }
        let removed = slots_remove(&mut self.animations, key);
        removed.is_some()
    }

    /// The tween under `key`, if there is one.
    pub fn get(&self, key: AnimationKey) -> (r: Option<&Tween>)
        ensures
            r == (if self.contents().dom().contains(key@) {
                Some(&self.contents()[key@])
            } else {
                None
            }),
    {
        proof {
            use_type_invariant(&key);
        }
        slots_get(&self.animations, key)
    }

    /// The tween under `key`, if there is one, for changing it in place.
    pub fn get_mut(&mut self, key: AnimationKey) -> (r: Option<&mut Tween>)
        requires
            old(self).wf(),
        ensures
            final(self).wf(),
            !old(self).contents().dom().contains(key@) ==> r.is_none() && final(self).contents()
                == old(self).contents(),
            old(self).contents().dom().contains(key@) ==> r.is_some() && *r.unwrap()
                == old(self).contents()[key@] && final(self).contents() == old(
                self,
            ).contents().insert(key@, *final(r.unwrap())),
    {
        proof {
            use_type_invariant(&key);
        }
        slots_get_mut(&mut self.animations, key)
    }

    /// Steps every tween by `dt` nanoseconds, visiting them in slot order,
    /// and reports what changed. Finished tweens stay in the engine.
    pub fn update(&mut self, dt: u128) -> (r: Vec<AnimationUpdate>)
        requires
            old(self).wf(),
            forall|k: u64| #[trigger]
                old(self).contents().dom().contains(k) ==> can_step(old(self).contents()[k].clock, dt),
        ensures
            final(self).wf(),
            final(self).contents() == Map::new(
                |k: u64| old(self).contents().dom().contains(k),
                |k: u64| step_tween(old(self).contents()[k], dt),
            ),
            exists|ks: Seq<AnimationKey>|
                key_order(ks, old(self).contents()) && r@ == events_for(ks, old(self).contents(), dt),
    {
        let ghost m0 = self.contents();
        let keys = slots_keys(&self.animations);
        let mut events: Vec<AnimationUpdate> = Vec::new();
        let n = keys.len();
        let mut i: usize = 0;
        while i < n
            invariant
                n == keys@.len(),
                0 <= i <= n,
                key_order(keys@, m0),
                forall|k: u64| #[trigger] m0.dom().contains(k) ==> can_step(m0[k].clock, dt),
                self.contents().dom() == m0.dom(),
                forall|j: int| 0 <= j < i ==> #[trigger] self.contents()[keys@[j]@] == step_tween(m0[keys@[j]@], dt),
                forall|k: u64|
                    m0.dom().contains(k) && (forall|j: int| 0 <= j < i ==> keys@[j]@ != k) ==> #[trigger] self.contents()[k]
                        == m0[k],
                events@ == events_for(keys@.take(i as int), m0, dt),
            decreases n - i,
        {
            let k = keys[i];
            proof {
                use_type_invariant(&k);
                assert(m0.dom().contains(keys@[i as int]@));
                assert(self.contents()[k@] == m0[k@]);
            }
            let mut t = *slots_get(&self.animations, k).unwrap();
            let tick = t.clock.advance(dt);
            if tick.swap_ends {
                let f = t.from_bits;
                t.from_bits = t.to_bits;
                t.to_bits = f;
            }
            let ghost before = self.contents();
            slots_set(&mut self.animations, k, t);
            proof {
                assert(t == step_tween(m0[k@], dt));
                assert(self.contents().dom() =~= before.dom());
            }
            let ghost ev0 = events@;
            if tick.started {
                events.push(AnimationUpdate::Started(k));
            }
            if tick.looped {
                events.push(AnimationUpdate::Looped(k));
            } else if tick.finished {
                events.push(AnimationUpdate::Finished(k));
            }
            proof {
                assert(events@ =~= ev0 + tick_events(k, step(m0[k@].clock, dt).1));
                assert(keys@.take(i + 1).drop_last() =~= keys@.take(i as int));
                assert(keys@.take(i + 1).last() == k);
            }
            i = i + 1;
        }
        proof {
            assert(keys@.take(n as int) =~= keys@);
            assert forall|k: u64| m0.dom().contains(k) implies self.contents()[k] == step_tween(m0[k], dt) by {
                let j = choose|j: int| 0 <= j < keys@.len() && #[trigger] keys@[j]@ == k;
                assert(self.contents()[keys@[j]@] == step_tween(m0[keys@[j]@], dt));
            }
            assert(self.contents() =~= Map::new(|k: u64| m0.dom().contains(k), |k: u64| step_tween(m0[k], dt)));
        }
        events
    }

    /// Whether every tween can take a step of `dt` nanoseconds within its
    /// clock's counters, which `update` needs.
    pub fn can_update(&self, dt: u128) -> (r: bool)
        ensures
            r == (forall|k: u64| #[trigger]
                self.contents().dom().contains(k) ==> can_step(self.contents()[k].clock, dt)),
    {
        let keys = slots_keys(&self.animations);
        let n = keys.len();
        let mut i: usize = 0;
        while i < n
            invariant
                n == keys@.len(),
                0 <= i <= n,
                key_order(keys@, self.contents()),
                forall|j: int| 0 <= j < i ==> can_step(#[trigger] self.contents()[keys@[j]@].clock, dt),
            decreases n - i,
        {
            let k = keys[i];
            proof {
                use_type_invariant(&k);
                assert(self.contents().dom().contains(keys@[i as int]@));
            }
            let t = slots_get(&self.animations, k).unwrap();
            if !clock_can_step(&t.clock, dt) {
                return false;
            }
            i = i + 1;
        }
        proof {
            assert forall|k: u64| #[trigger] self.contents().dom().contains(k) implies can_step(
                self.contents()[k].clock,
                dt,
            ) by {
                let j = choose|j: int| 0 <= j < keys@.len() && #[trigger] keys@[j]@ == k;
                assert(can_step(self.contents()[keys@[j]@].clock, dt));
            }
        }
        true
    }

    /// The number of tweens held.
    pub fn len(&self) -> (r: usize)
        ensures
            r == self.contents().len(),
    {
        slots_len(&self.animations)
    }

    /// Whether the engine holds no tween.
    pub fn is_empty(&self) -> (r: bool)
        ensures
            r == (self.contents().len() == 0),
    {
        slots_len(&self.animations) == 0
    }
}

/// A tween just added is found under its key, unchanged.
pub proof fn lemma_added_is_found(e0: AnimationEngine, e1: AnimationEngine, k: AnimationKey, t: Tween)
    requires
        e1.contents() == e0.contents().insert(k@, t),
    ensures
        e1.contents().dom().contains(k@),
        e1.contents()[k@] == t,
{
}

/// Removing a tween just added leaves the engine holding what it held.
pub proof fn lemma_add_remove_restores(
    e0: AnimationEngine,
    e1: AnimationEngine,
    e2: AnimationEngine,
    k: AnimationKey,
    t: Tween,
)
    requires
        !e0.contents().dom().contains(k@),
        e1.contents() == e0.contents().insert(k@, t),
        e2.contents() == e1.contents().remove(k@),
    ensures
        e2.contents() == e0.contents(),
{
    assert(e2.contents() =~= e0.contents());
}

/// A step keeps every tween in the engine, finished or not: the keys and
/// their number stay the same.
pub proof fn lemma_update_keeps_keys(e0: AnimationEngine, e1: AnimationEngine, dt: u128)
    requires
        e0.wf(),
        e1.contents() == Map::new(
            |k: u64| e0.contents().dom().contains(k),
            |k: u64| step_tween(e0.contents()[k], dt),
        ),
    ensures
        e1.contents().dom() == e0.contents().dom(),
        e1.contents().len() == e0.contents().len(),
{
    assert(e1.contents().dom() =~= e0.contents().dom());
}

impl Default for AnimationEngine {
    /// The same engine as `AnimationEngine::new`.
    fn default() -> (r: Self)
        ensures
            r.wf(),
            r.contents() == Map::<u64, Tween>::empty(),
    {
        AnimationEngine::new()
    }
}

} // verus!
