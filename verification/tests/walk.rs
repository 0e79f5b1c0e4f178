use visual_codec::walk::PrimeWalk;

#[test]
fn test_prime_walk() {
    let mut walk = PrimeWalk::new(12345);
    let positions: Vec<usize> = (0..10).map(|_| walk.next(1000)).collect();

    walk.reset(12345);
    let positions2: Vec<usize> = (0..10).map(|_| walk.next(1000)).collect();

    assert_eq!(positions, positions2);
}

#[test]
fn test_walk_two_instances_agree() {
    let mut a = PrimeWalk::new(777);
    let mut b = PrimeWalk::new(777);
    for _ in 0..50 {
        let pa = a.next(1000);
        let pb = b.next(1000);
        assert_eq!(pa, pb);
        assert!(pa < 1000);
    }
}

#[test]
fn test_walk_step_values() {
    // First step multiplies by the first prime and adds it, modulo the
    // bound: seed 1 gives (1 * 2 + 2) % 1000 = 4, then (4 * 3 + 3) % 1000
    // = 15; seed 2 starts at (2 * 2 + 2) % 1000 = 6.
    let mut w = PrimeWalk::new(1);
    assert_eq!(w.next(1000), 4);
    assert_eq!(w.next(1000), 15);
    let mut v = PrimeWalk::new(2);
    assert_eq!(v.next(1000), 6);
}

#[test]
fn test_walk_reset_midstream() {
    let mut w = PrimeWalk::new(42);
    let first: Vec<usize> = (0..5).map(|_| w.next(300)).collect();
    let _ = w.next(300);
    let _ = w.next(300);
    w.reset(42);
    let replay: Vec<usize> = (0..5).map(|_| w.next(300)).collect();
    assert_eq!(first, replay);
}

#[test]
fn test_walk_bound_one_pins_zero() {
    let mut w = PrimeWalk::new(987654321);
    for _ in 0..20 {
        assert_eq!(w.next(1), 0);
    }
}
