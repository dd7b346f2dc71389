use fixed::types::I32F32;
use pixm::game::base::events::EventQueue;
use pixm::game::base::types::{Fixed, PlayerId, Vec2Fixed};

#[test]
fn event_queue_drain() {
    let mut q: EventQueue<i32> = EventQueue::new();
    q.emit(1);
    q.emit(2);
    q.emit(3);
    assert_eq!(q.len(), 3);

    let drained: Vec<i32> = q.drain().into_iter().collect();
    assert_eq!(drained, vec![1, 2, 3]);
    assert!(q.is_empty());
}

#[test]
fn vec2_dist_sq() {
    let a = Vec2Fixed::new(Fixed::from_num(3), Fixed::zero());
    let b = Vec2Fixed::new(Fixed::from_num(6), Fixed::zero());
    assert_eq!(a.dist_sq(b), Fixed::from_num(9));
}

#[test]
fn player_id_team() {
    assert_eq!(PlayerId(0).team(), 0);
    assert_eq!(PlayerId(4).team(), 0);
    assert_eq!(PlayerId(5).team(), 1);
    assert_eq!(PlayerId(9).team(), 1);
}

#[test]
fn vec2_lerp_midpoint() {
    let a = Vec2Fixed::new(Fixed::from_num(0), Fixed::from_num(0));
    let b = Vec2Fixed::new(Fixed::from_num(10), Fixed::from_num(10));
    // 0.5 in Q32.32
    let mid = a.lerp(b, Fixed::from_bits(0x8000_0000));
    assert_eq!(mid.x, Fixed::from_num(5));
    assert_eq!(mid.y, Fixed::from_num(5));
}

#[test]
fn fixed_matches_the_fixed_crate() {
    let cases: [(f64, f64); 6] = [(1.5, 2.25), (-3.75, 0.5), (7.0, -2.0), (-0.125, -8.0), (100.0, 0.001), (-1.0, 3.0)];
    for (a, b) in cases {
        let (fa, fb) = (I32F32::from_num(a), I32F32::from_num(b));
        let (ma, mb) = (Fixed::from_bits(fa.to_bits()), Fixed::from_bits(fb.to_bits()));
        assert_eq!((ma + mb).to_bits(), (fa + fb).to_bits());
        assert_eq!((ma - mb).to_bits(), (fa - fb).to_bits());
        assert_eq!((ma * mb).to_bits(), (fa * fb).to_bits());
        assert_eq!((ma / mb).to_bits(), (fa / fb).to_bits());
        assert_eq!(ma.to_num(), fa.to_num::<i32>());
    }
}

#[test]
fn normalize_gives_unit_length() {
    let v = Vec2Fixed::new(Fixed::from_num(3), Fixed::from_num(4));
    let n = v.normalize();
    // 3/5 and 4/5 in Q32.32, rounded toward zero.
    assert_eq!(n.x.to_bits(), (3i64 << 32) / 5);
    assert_eq!(n.y.to_bits(), (4i64 << 32) / 5);
    assert_eq!(Vec2Fixed::zero().normalize(), Vec2Fixed::zero());
    assert_eq!(v.length(), Fixed::from_num(5));
}

#[test]
fn normalize_keeps_sign_direction_and_unit_length() {
    let one = 1i64 << 32;
    let cases = [(-7, 2), (5, -11), (-1, -1), (0, 9), (123, 0), (1000, -1)];
    for (x, y) in cases {
        let v = Vec2Fixed::new(Fixed::from_num(x), Fixed::from_num(y));
        let n = v.normalize();
        let (nx, ny) = (n.x.to_bits(), n.y.to_bits());
        let (vx, vy) = (v.x.to_bits(), v.y.to_bits());
        assert_eq!(nx.signum(), vx.signum());
        assert_eq!(ny.signum(), vy.signum());
        let cross = nx as i128 * vy as i128 - ny as i128 * vx as i128;
        assert!(cross.abs() <= vx.abs() as i128 + vy.abs() as i128);
        let len_sq = n.length_sq().to_bits();
        assert!((len_sq - one).abs() <= 16, "squared length {len_sq} for ({x}, {y})");
    }
}
