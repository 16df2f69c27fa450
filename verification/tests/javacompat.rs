use elkrs::javacompat::JavaRandom;
use elkrs::priority_queue::JavaPriorityQueue;

fn next_double(r: &mut JavaRandom) -> f64 {
    r.next_double_bits() as f64 * (1.0f64 / (1i64 << 53) as f64)
}

fn next_float(r: &mut JavaRandom) -> f32 {
    r.next_float_bits() as f32 / (1 << 24) as f32
}

#[test]
fn java_random_known_sequence() {
    // Values verified against java.util.Random with seed 42.
    let mut r = JavaRandom::new(42);
    assert_eq!(r.next_int(), -1170105035);
    assert_eq!(r.next_int(), 234785527);
    let mut r = JavaRandom::new(42);
    assert!((next_double(&mut r) - 0.7275636800328681).abs() < 1e-18);
    assert!((next_double(&mut r) - 0.6832234717598454).abs() < 1e-18);
    let mut r = JavaRandom::new(0);
    assert_eq!(r.next_int_bound(100), 60);
}

#[test]
fn priority_queue_poll_order() {
    let mut q = JavaPriorityQueue::new(|a: &i32, b: &i32| a.cmp(b));
    for v in [5, 1, 4, 2, 3] {
        q.add(v);
    }
    let mut out = Vec::new();
    while let Some(v) = q.poll() {
        out.push(v);
    }
    assert_eq!(out, vec![1, 2, 3, 4, 5]);
}

#[test]
fn same_seed_same_sequence() {
    let mut a = JavaRandom::new(7);
    let mut b = JavaRandom::new(7);
    for _ in 0..20 {
        assert_eq!(a.next_long(), b.next_long());
        assert_eq!(a.next_boolean(), b.next_boolean());
        assert_eq!(a.next_int_bound(13), b.next_int_bound(13));
    }
}

#[test]
fn next_int_bound_power_of_two_and_general() {
    // java.util.Random(42): nextInt(16) == 11, then nextInt(10) == 3
    let mut r = JavaRandom::new(42);
    assert_eq!(r.next_int_bound(16), 11);
    assert_eq!(r.next_int_bound(10), 3);
}

#[test]
fn next_long_known_value() {
    // java.util.Random(42).nextLong() == -5025562857975149833
    let mut r = JavaRandom::new(42);
    assert_eq!(r.next_long(), -5025562857975149833);
}

#[test]
fn next_boolean_and_float() {
    // java.util.Random(1): nextBoolean() == true, then nextFloat() == 0.10047317
    let mut r = JavaRandom::new(1);
    assert!(r.next_boolean());
    assert!((next_float(&mut r) - 0.10047316551208496f32).abs() < 1e-6);
}

#[test]
fn priority_queue_peek_and_len() {
    let mut q = JavaPriorityQueue::new(|a: &i32, b: &i32| a.cmp(b));
    assert!(q.is_empty());
    assert_eq!(q.peek(), None);
    q.add(3);
    q.add(-2);
    q.add(7);
    assert_eq!(q.len(), 3);
    assert_eq!(q.peek(), Some(&-2));
    assert_eq!(q.poll(), Some(-2));
    assert_eq!(q.len(), 2);
    assert_eq!(q.poll(), Some(3));
    assert_eq!(q.poll(), Some(7));
    assert_eq!(q.poll(), None);
}

#[test]
fn priority_queue_ties_keep_java_order() {
    // Elements compared by key only; equal keys come out in Java's heap order.
    let mut q = JavaPriorityQueue::new(|a: &(i32, char), b: &(i32, char)| a.0.cmp(&b.0));
    for e in [(1, 'a'), (0, 'b'), (1, 'c'), (0, 'd')] {
        q.add(e);
    }
    let mut out = Vec::new();
    while let Some(e) = q.poll() {
        out.push(e.1);
    }
    // java.util.PriorityQueue yields b, d, c, a for this insertion sequence
    assert_eq!(out, vec!['b', 'd', 'c', 'a']);
}

#[test]
fn power_of_two_bound_takes_the_top_bits_of_one_draw() {
    for k in 1..=30u32 {
        let mut r = JavaRandom::new(42);
        let mut r0 = JavaRandom::new(42);
        let v = r.next_int_bound(1 << k);
        let w = ((r0.next_int() as u32) >> (32 - k)) as i32;
        assert_eq!(v, w);
        assert_eq!(r.next_int(), r0.next_int());
    }
}

#[test]
fn seeds_equal_in_the_low_48_bits_give_the_same_values() {
    let mut a = JavaRandom::new(7);
    let mut b = JavaRandom::new(7 + (1i64 << 48));
    for _ in 0..10 {
        assert_eq!(a.next_int(), b.next_int());
        assert_eq!(a.next_int_bound(1000), b.next_int_bound(1000));
        assert_eq!(a.next_long(), b.next_long());
    }
}

#[test]
fn next_long_joins_two_next_int_draws() {
    let mut r1 = JavaRandom::new(99);
    let mut r2 = JavaRandom::new(99);
    for _ in 0..5 {
        let hi = r2.next_int();
        let lo = r2.next_int();
        assert_eq!(r1.next_long(), ((hi as i64) << 32).wrapping_add(lo as i64));
    }
    assert_eq!(r1.next_int(), r2.next_int());
}
