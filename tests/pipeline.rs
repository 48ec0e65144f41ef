use ambisonic::bformat::{encode, BSample, Direction, OMNI_GAIN, UNIT};
use ambisonic::mixer::{Mixer, MonoSource, MAX_SOURCES};
use ambisonic::renderer::{Renderer, StereoFrame};

struct Samples {
    data: Vec<i16>,
    next: usize,
}

impl Samples {
    fn new(data: Vec<i16>) -> Samples {
        Samples { data, next: 0 }
    }
}

impl MonoSource for Samples {
    fn next_sample(&mut self) -> Option<i16> {
        let r = self.data.get(self.next).copied();
        self.next += 1;
        r
    }
}

struct Constant(i16);

impl MonoSource for Constant {
    fn next_sample(&mut self) -> Option<i16> {
        Some(self.0)
    }
}

fn right() -> Direction {
    Direction::new(UNIT, 0, 0)
}

fn left() -> Direction {
    Direction::new(-UNIT, 0, 0)
}

fn decoder() -> Renderer {
    Renderer::new(11585, 5793, 5793).unwrap()
}

#[test]
fn encode_exact_values() {
    let b = encode(100, Direction::new(UNIT, 0, -UNIT));
    assert_eq!(b, BSample { w: 100 * OMNI_GAIN, x: 1638400, y: 0, z: -1638400 });
    let c = encode(-3, Direction::new(8192, -4096, 2));
    assert_eq!(c, BSample { w: -34755, x: -24576, y: 12288, z: -6 });
}

#[test]
fn encode_of_zero_direction_keeps_only_omni() {
    let b = encode(7, Direction::new(0, 0, 0));
    assert_eq!(b, BSample { w: 81095, x: 0, y: 0, z: 0 });
}

#[test]
fn bsample_add_is_componentwise() {
    let a = BSample { w: 1, x: 2, y: 3, z: 4 };
    let b = BSample { w: 10, x: -20, y: 30, z: -40 };
    assert_eq!(a.add(b), BSample { w: 11, x: -18, y: 33, z: -36 });
    assert_eq!(BSample::zero(), BSample { w: 0, x: 0, y: 0, z: 0 });
}

#[test]
fn silence_on_empty_set() {
    let mut m: Mixer<Constant> = Mixer::new(44100);
    let g = decoder();
    for _ in 0..5 {
        assert_eq!(m.next_composite_sample(), BSample::zero());
        assert_eq!(g.next_stereo_frame(&mut m), StereoFrame { left: 0, right: 0 });
    }
    assert_eq!(m.len(), 0);
}

#[test]
fn superposition_of_two_sources() {
    let d1 = Direction::new(UNIT, 0, 0);
    let d2 = Direction::new(0, 11585, -11585);
    let mut m = Mixer::new(44100);
    assert!(m.play(1, Constant(1200), d1));
    assert!(m.play(2, Constant(-345), d2));
    let expected = encode(1200, d1).add(encode(-345, d2));
    assert_eq!(m.next_composite_sample(), expected);
    assert_eq!(m.next_composite_sample(), expected);
}

#[test]
fn directional_routing_to_the_right() {
    let mut m = Mixer::new(44100);
    assert!(m.play(1, Constant(1000), right()));
    let f = decoder().next_stereo_frame(&mut m);
    assert_eq!(f, StereoFrame { left: 39299713000, right: 229124737000 });
    assert!(f.right.abs() > f.left.abs());
}

#[test]
fn directional_routing_to_the_left_with_negative_sample() {
    let mut m = Mixer::new(44100);
    assert!(m.play(1, Constant(-1000), left()));
    let f = decoder().next_stereo_frame(&mut m);
    assert!(f.left.abs() > f.right.abs());
}

#[test]
fn centered_source_is_symmetric() {
    let mut m = Mixer::new(44100);
    assert!(m.play(1, Constant(2500), Direction::new(0, 0, 0)));
    let f = decoder().next_stereo_frame(&mut m);
    assert_eq!(f.left, f.right);
    assert_eq!(f.left, 2500 * 11585 * 11585);
}

#[test]
fn stop_removes_contribution() {
    let mut m = Mixer::new(44100);
    assert!(m.play(1, Constant(500), right()));
    assert!(m.play(2, Constant(300), left()));
    let both = encode(500, right()).add(encode(300, left()));
    assert_eq!(m.next_composite_sample(), both);
    assert!(m.stop(1));
    let only_second = encode(300, left());
    assert_eq!(m.next_composite_sample(), only_second);
    assert!(!m.contains(1));
    assert!(m.contains(2));
    assert_eq!(m.next_composite_sample(), only_second);
    assert!(!m.stop(1));
}

#[test]
fn exhaustion_auto_removes() {
    let mut m = Mixer::new(44100);
    assert!(m.play(7, Samples::new(vec![10, 20, 30]), right()));
    assert!(m.play(8, Samples::new(vec![1; 100]), left()));
    let other = encode(1, left());
    assert_eq!(m.next_composite_sample(), encode(10, right()).add(other));
    assert_eq!(m.next_composite_sample(), encode(20, right()).add(other));
    assert_eq!(m.next_composite_sample(), encode(30, right()).add(other));
    assert!(m.contains(7));
    assert_eq!(m.next_composite_sample(), other);
    assert!(!m.contains(7));
    assert_eq!(m.next_composite_sample(), other);
    assert_eq!(m.len(), 1);
}

#[test]
fn set_position_takes_effect_next_frame() {
    let mut m = Mixer::new(48000);
    assert!(m.play(3, Constant(100), right()));
    assert_eq!(m.next_composite_sample(), encode(100, right()));
    assert!(m.set_position(3, Direction::new(0, UNIT, 0)));
    assert_eq!(m.next_composite_sample(), encode(100, Direction::new(0, UNIT, 0)));
    assert!(!m.set_position(4, left()));
    assert_eq!(m.sample_rate(), 48000);
}

#[test]
fn play_refuses_duplicate_id() {
    let mut m = Mixer::new(44100);
    assert!(m.play(5, Constant(1), right()));
    assert!(!m.play(5, Constant(2), left()));
    assert_eq!(m.len(), 1);
    assert_eq!(m.next_composite_sample(), encode(1, right()));
}

#[test]
fn play_refuses_when_full() {
    let mut m = Mixer::new(44100);
    for id in 0..MAX_SOURCES as u64 {
        assert!(m.play(id, Constant(i16::MAX), right()));
    }
    assert!(!m.play(MAX_SOURCES as u64, Constant(1), right()));
    assert_eq!(m.len(), MAX_SOURCES);
    let b = m.next_composite_sample();
    assert_eq!(b.x, MAX_SOURCES as i64 * i16::MAX as i64 * UNIT as i64);
    let f = decoder().next_stereo_frame(&mut m);
    assert!(f.right > f.left);
}

#[test]
fn extreme_values_do_not_overflow() {
    let mut m = Mixer::new(44100);
    for id in 0..MAX_SOURCES as u64 {
        assert!(m.play(id, Constant(i16::MIN), Direction::new(i16::MIN, i16::MIN, i16::MIN)));
    }
    let g = Renderer::new(i16::MAX, i16::MAX, i16::MIN).unwrap();
    let f = g.next_stereo_frame(&mut m);
    let w = MAX_SOURCES as i64 * (i16::MIN as i64) * OMNI_GAIN;
    let x = MAX_SOURCES as i64 * (i16::MIN as i64) * (i16::MIN as i64);
    assert_eq!(f.left, w * 32767 - x * 32767 + x * -32768);
}

#[test]
fn mix_pulled_sums_and_removes() {
    let mut m = Mixer::new(44100);
    assert!(m.play(1, Constant(0), right()));
    assert!(m.play(2, Constant(0), left()));
    assert!(m.play(3, Constant(0), Direction::new(0, UNIT, 0)));
    assert!(m.stop(3));
    let r = m.mix_pulled(&vec![Some(40), None, Some(99)]);
    assert_eq!(r, encode(40, right()));
    assert_eq!(m.len(), 1);
    assert!(m.contains(1));
    assert!(!m.contains(2));
    assert!(!m.contains(3));
}

#[test]
fn renderer_gains() {
    assert!(Renderer::new(0, 5793, 5793).is_none());
    assert!(Renderer::new(11585, 0, 5793).is_none());
    assert!(Renderer::new(-1, 5793, 5793).is_none());
    let g = Renderer::new(11585, 5793, -2).unwrap();
    assert_eq!((g.omni(), g.lateral(), g.frontal()), (11585, 5793, -2));
    let f = g.decode(BSample { w: 2, x: 3, y: 5, z: 1000 });
    assert_eq!(f, StereoFrame { left: 2 * 11585 - 3 * 5793 - 10, right: 2 * 11585 + 3 * 5793 - 10 });
}
