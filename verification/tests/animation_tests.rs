use acme_native::animation::{AnimationEngine, AnimationUpdate, Easing, Tween, TweenClock};

fn ms(n: u64) -> u128 {
    std::time::Duration::from_millis(n).as_nanos()
}

fn tween(from: f32, to: f32, duration_ms: u64) -> Tween {
    Tween::new(from.to_bits(), to.to_bits(), duration_ms)
}

#[test]
fn test_tween_with_easing() {
    let tween = tween(0.0, 100.0, 1000).with_easing(Easing::EaseIn);
    assert_eq!(tween.easing, Easing::EaseIn);
}

#[test]
fn test_tween_with_delay() {
    let tween = tween(0.0, 100.0, 1000).with_delay(500);
    assert_eq!(tween.clock.delay_ns, std::time::Duration::from_millis(500).as_nanos());
}

#[test]
fn test_tween_with_loop() {
    let tween = tween(0.0, 100.0, 1000).with_loop(3);
    assert_eq!(tween.clock.loop_count, 3);
}

#[test]
fn test_tween_with_yoyo() {
    let tween = tween(0.0, 100.0, 1000).with_yoyo();
    assert!(tween.clock.yoyo);
}

#[test]
fn test_looping_animation_fires_events() {
    let mut engine = AnimationEngine::new();
    let key = engine.add(tween(0.0, 100.0, 100).with_loop(3));

    let events = engine.update(ms(100));
    assert!(events.contains(&AnimationUpdate::Started(key)));
    assert!(events.contains(&AnimationUpdate::Looped(key)));
    assert!(!events.contains(&AnimationUpdate::Finished(key)));

    let events = engine.update(ms(100));
    assert!(events.contains(&AnimationUpdate::Looped(key)));

    let events = engine.update(ms(100));
    assert!(events.contains(&AnimationUpdate::Finished(key)));
}

#[test]
fn test_yoyo_reverses_direction() {
    let mut engine = AnimationEngine::new();
    let key = engine.add(tween(0.0, 100.0, 100).with_loop(2).with_yoyo());

    let _events = engine.update(ms(100));
    let anim = engine.get(key).unwrap();
    assert!(anim.clock.reverse, "yoyo should set reverse after first loop");
    assert!(
        (f32::from_bits(anim.from_bits) - 100.0).abs() < 0.001,
        "from should be swapped to 100"
    );
    assert!((f32::from_bits(anim.to_bits) - 0.0).abs() < 0.001, "to should be swapped to 0");

    let _events = engine.update(ms(100));
    assert!(engine.get(key).unwrap().clock.finished);
}

#[test]
fn test_engine_tracks_active_animations() {
    let mut engine = AnimationEngine::new();
    assert!(engine.is_empty());
    assert_eq!(engine.len(), 0);

    let _key1 = engine.add(tween(0.0, 1.0, 100));
    let _key2 = engine.add(tween(0.0, 1.0, 200));
    assert_eq!(engine.len(), 2);
    assert!(!engine.is_empty());

    engine.update(ms(100));
    assert_eq!(engine.len(), 2);
}

#[test]
fn test_engine_get_and_get_mut() {
    let mut engine = AnimationEngine::new();
    let key = engine.add(tween(0.0, 1.0, 100));

    let anim = engine.get(key).unwrap();
    assert!(!anim.clock.finished);

    engine.get_mut(key).unwrap().clock.loop_count = 5;
    assert_eq!(engine.get(key).unwrap().clock.loop_count, 5);
}

#[test]
fn test_engine_remove() {
    let mut engine = AnimationEngine::new();
    let key = engine.add(tween(0.0, 1.0, 100));
    assert!(engine.remove(key));
    assert!(!engine.remove(key));
    assert!(engine.is_empty());
}

#[test]
fn test_engine_fires_started_event() {
    let mut engine = AnimationEngine::new();
    let key = engine.add(tween(0.0, 100.0, 500));

    let events = engine.update(ms(1));
    assert!(events.contains(&AnimationUpdate::Started(key)));
}

#[test]
fn test_engine_fires_finished_event() {
    let mut engine = AnimationEngine::new();
    let key = engine.add(tween(0.0, 100.0, 100));

    let events = engine.update(ms(100));
    assert!(events.contains(&AnimationUpdate::Finished(key)));
}

#[test]
fn test_delay_prevents_start() {
    let mut engine = AnimationEngine::new();
    let key = engine.add(tween(0.0, 100.0, 100).with_delay(200));

    let events = engine.update(ms(100));
    assert!(!events.contains(&AnimationUpdate::Started(key)));
    assert!(!engine.get(key).unwrap().clock.finished);

    let events = engine.update(ms(100));
    assert!(events.contains(&AnimationUpdate::Started(key)));
}

#[test]
fn test_infinite_loop() {
    let mut engine = AnimationEngine::new();
    let key = engine.add(tween(0.0, 100.0, 50).with_loop(0));

    for _ in 0..10 {
        let events = engine.update(ms(50));
        assert!(events.contains(&AnimationUpdate::Looped(key)));
        assert!(!engine.get(key).unwrap().clock.finished);
    }
}

#[test]
fn new_tween_is_linear_single_pass() {
    let t = tween(1.5, -2.0, 250);
    assert_eq!(f32::from_bits(t.from_bits), 1.5);
    assert_eq!(f32::from_bits(t.to_bits), -2.0);
    assert_eq!(t.easing, Easing::Linear);
    assert_eq!(t.clock.duration_ns, 250_000_000);
    assert_eq!(t.clock.loop_count, 1);
    assert_eq!(t.clock.elapsed_ns, 0);
    assert!(!t.clock.finished);
}

#[test]
fn clock_partial_step_reports_only_start() {
    let mut c = TweenClock::new(100);
    let tick = c.advance(ms(40));
    assert!(tick.started && !tick.looped && !tick.finished && !tick.swap_ends);
    assert_eq!(c.elapsed_ns, ms(40));
    let tick = c.advance(ms(40));
    assert!(!tick.started);
    assert_eq!(c.elapsed_ns, ms(80));
    let tick = c.advance(ms(40));
    assert!(tick.finished);
    assert!(c.finished);
    let tick = c.advance(ms(40));
    assert!(!tick.started && !tick.looped && !tick.finished);
}

#[test]
fn finished_tween_reports_nothing_more() {
    let mut engine = AnimationEngine::new();
    let key = engine.add(tween(0.0, 1.0, 10));
    let events = engine.update(ms(10));
    assert_eq!(events, vec![AnimationUpdate::Started(key), AnimationUpdate::Finished(key)]);
    let events = engine.update(ms(10));
    assert!(events.is_empty());
    assert!(engine.get(key).unwrap().clock.finished);
}

#[test]
fn delay_longer_than_step_is_shortened() {
    let mut engine = AnimationEngine::new();
    let key = engine.add(tween(0.0, 1.0, 100).with_delay(300));
    let events = engine.update(ms(100));
    assert!(events.is_empty());
    assert_eq!(engine.get(key).unwrap().clock.delay_ns, ms(200));
}

#[test]
fn add_then_remove_leaves_the_engine_as_before() {
    let mut engine = AnimationEngine::new();
    let a = engine.add(tween(0.0, 1.0, 100));
    let b = engine.add(tween(0.0, 2.0, 100));
    assert_ne!(a, b);
    assert!(engine.remove(b));
    assert_eq!(engine.len(), 1);
    assert!(engine.get(b).is_none());
    assert_eq!(f32::from_bits(engine.get(a).unwrap().to_bits), 1.0);
}

#[test]
fn yoyo_second_pass_swaps_back() {
    let mut engine = AnimationEngine::new();
    let key = engine.add(tween(0.0, 10.0, 10).with_loop(3).with_yoyo());
    engine.update(ms(10));
    engine.update(ms(10));
    let t = engine.get(key).unwrap();
    assert!(!t.clock.reverse);
    assert_eq!(f32::from_bits(t.from_bits), 0.0);
    assert_eq!(t.clock.current_loop, 2);
}

#[test]
fn can_update_reports_counter_overflow() {
    let mut engine = AnimationEngine::new();
    let key = engine.add(tween(0.0, 1.0, 10).with_loop(0));
    assert!(engine.can_update(ms(10)));
    engine.get_mut(key).unwrap().clock.current_loop = u32::MAX;
    assert!(!engine.can_update(ms(10)));
    assert!(engine.can_update(ms(1)));
    engine.get_mut(key).unwrap().clock.elapsed_ns = u128::MAX - 5;
    assert!(!engine.can_update(10));
    assert!(engine.can_update(5) == false);
}

#[test]
fn clock_can_step_ignores_finished_and_waiting_clocks() {
    let mut c = TweenClock::new(10);
    c.finished = true;
    c.elapsed_ns = u128::MAX;
    assert!(acme_native::animation::clock_can_step(&c, 1));
    let mut w = TweenClock::new(10);
    w.delay_ns = 100;
    assert!(acme_native::animation::clock_can_step(&w, 50));
}

#[test]
fn default_engine_is_empty() {
    let engine = AnimationEngine::default();
    assert!(engine.is_empty());
    assert_eq!(engine.len(), 0);
}
