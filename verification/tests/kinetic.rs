use kinetic_hanger::AffFunction;
use kinetic_hanger::KineticError;
use kinetic_hanger::KineticHanger;
use kinetic_hanger::KineticHeap;

#[test]
fn aff_test1() {
    let aff = AffFunction::new(10, 0);
    let res = aff.eval(1);
    assert_eq!(res, 10);
}

#[test]
fn aff_test2() {
    let aff = AffFunction::new(10, 0);
    let aff2 = AffFunction::new(10, 1);
    let res = aff.lt_until(&aff2);
    assert_eq!(res, None);
}

#[test]
fn aff_test3() {
    let aff = AffFunction::new(10, 0);
    let aff2 = AffFunction::new(5, 1);
    let res = aff.lt_until(&aff2);
    assert_ne!(res, None);
    assert_eq!(res, Some(1));
}

#[test]
fn kh_test1() {
    let kh: KineticHanger<i32> = KineticHanger::new(0);
    let sz = kh.len();
    let e = kh.is_empty();
    assert_eq!(sz, 0);
    assert_eq!(e, true);
}

#[test]
fn kh_test2() {
    let mut kh: KineticHanger<i32> = KineticHanger::new(0);
    let aff = AffFunction::new(10, 0);
    kh.push(114514, &aff);
    let sz = kh.len();
    let e = kh.is_empty();
    assert_eq!(sz, 1);
    assert_eq!(e, false);
    let ot1 = kh.pop();
    assert_ne!(ot1, Err(KineticError::Empty));
    assert_eq!(ot1, Ok(114514));
}

#[test]
fn kh_rtest1() {
    let mut kh: KineticHanger<i32> = KineticHanger::new(0);
    let aff = AffFunction::new(10, 0);
    assert_eq!(kh.len(), 0);
    assert_eq!(kh.is_empty(), true);
    kh.push(114514, &aff);
    assert!(kh.advance_to(10).is_ok());
    assert_eq!(kh.cur_min_value(), Ok(100));
    assert_eq!(kh.len(), 1);
    assert_eq!(kh.is_empty(), false);
    assert_eq!(kh.peek(), Ok(&114514));
    assert_eq!(kh.pop(), Ok(114514));
    assert_eq!(kh.len(), 0);
    assert_eq!(kh.is_empty(), true);
}

// The value of `slope * (t + x_shift)` with a non-zero shift.
#[test]
fn eval_with_shift() {
    let aff = AffFunction::new(3, 4);
    assert_eq!(aff.eval(2), 18);
    let neg = AffFunction::new(-2, -1);
    assert_eq!(neg.eval(5), -8);
    assert_eq!(neg.eval(1), 0);
}

// Crossing correctness, strict query: the relation holds strictly before the
// reported time and fails at it and one tick after.
#[test]
fn lt_until_boundary() {
    let f = AffFunction::new(10, 0);
    let g = AffFunction::new(5, 1);
    let e = f.lt_until(&g).unwrap();
    assert_eq!(e, 1);
    assert!(f.eval(e as i64 - 1) < g.eval(e as i64 - 1));
    assert!(!(f.eval(e as i64) < g.eval(e as i64)));
    assert!(!(f.eval(e as i64 + 1) < g.eval(e as i64 + 1)));
}

// Crossing correctness, non-strict query: same boundary discipline.
#[test]
fn le_until_boundary() {
    let f = AffFunction::new(10, 0);
    let g = AffFunction::new(5, 1);
    let e = f.le_until(&g).unwrap();
    assert_eq!(e, 2);
    assert!(f.eval(e as i64 - 1) <= g.eval(e as i64 - 1));
    assert!(!(f.eval(e as i64) <= g.eval(e as i64)));
    assert!(!(f.eval(e as i64 + 1) <= g.eval(e as i64 + 1)));
}

// Crossing correctness, equal slopes: no finite crossing in either direction,
// and evaluation tells which function dominates.
#[test]
fn until_parallel() {
    let f = AffFunction::new(10, 0);
    let g = AffFunction::new(10, 1);
    assert_eq!(f.lt_until(&g), None);
    assert_eq!(g.lt_until(&f), None);
    assert_eq!(f.le_until(&g), None);
    assert_eq!(g.le_until(&f), None);
    // g dominates f by a constant 10 at every time.
    assert!(f.eval(0) < g.eval(0));
    assert!(f.eval(1000) < g.eval(1000));
}

// A query whose crossing lies in the past still reports it exactly.
#[test]
fn until_past_crossing() {
    let f = AffFunction::new(5, 1);
    let g = AffFunction::new(10, 0);
    // f(t) = 5t + 5, g(t) = 10t: f < g only for t > 1, so the strict
    // relation f < g fails at every t <= 1 and the query has no expiry.
    assert_eq!(f.lt_until(&g), None);
    // In the other orientation g < f holds for t < 1 and fails from 1 on.
    assert_eq!(g.lt_until(&f), Some(1));
}

// Scenario: three functions pushed at time zero; the minimum tracks the
// brute-force minimum as the clock advances.
#[test]
fn three_functions_track_minimum() {
    let mut kh: KineticHanger<u8> = KineticHanger::new(0);
    kh.push(1, &AffFunction::new(10, 0));
    kh.push(2, &AffFunction::new(-5, 0));
    kh.push(3, &AffFunction::new(0, 0));
    assert!(kh.advance_to(1).is_ok());
    assert_eq!(kh.cur_min_value(), Ok(-5));
    assert_eq!(kh.peek(), Ok(&2));
    assert!(kh.advance_to(5).is_ok());
    assert_eq!(kh.cur_min_value(), Ok(-25));
    assert_eq!(kh.peek(), Ok(&2));
    assert!(kh.advance_to(100).is_ok());
    assert_eq!(kh.cur_min_value(), Ok(-500));
    assert_eq!(kh.peek(), Ok(&2));
    assert_eq!(kh.len(), 3);
}

// Scenario: draining a one-element heap; the second access reports the
// empty-structure error.
#[test]
fn empty_after_pop() {
    let mut kh: KineticHanger<i32> = KineticHanger::new(0);
    kh.push(7, &AffFunction::new(1, 0));
    assert_eq!(kh.pop(), Ok(7));
    assert_eq!(kh.peek(), Err(KineticError::Empty));
    assert_eq!(kh.pop(), Err(KineticError::Empty));
    assert_eq!(kh.cur_min_value(), Err(KineticError::Empty));
}

// Scenario: removing at the last valid index of a one-element heap empties
// it and hands the payload back unchanged.
#[test]
fn remove_last_empties() {
    let mut kh: KineticHanger<String> = KineticHanger::new(3);
    kh.push(String::from("only"), &AffFunction::new(2, 1));
    assert_eq!(kh.remove(0), Ok(String::from("only")));
    assert_eq!(kh.len(), 0);
    assert!(kh.is_empty());
}

// Removing with an index at or past the length reports the range error and
// leaves the heap as it was.
#[test]
fn remove_out_of_range() {
    let mut kh: KineticHanger<i32> = KineticHanger::new(0);
    kh.push(1, &AffFunction::new(1, 0));
    assert_eq!(kh.remove(1), Err(KineticError::IndexOutOfRange));
    assert_eq!(kh.remove(5), Err(KineticError::IndexOutOfRange));
    assert_eq!(kh.len(), 1);
}

// Moving the clock backwards reports the monotonicity error and changes
// nothing; moving it to the current time is a no-op that succeeds.
#[test]
fn advance_monotonic() {
    let mut kh: KineticHanger<i32> = KineticHanger::new(50);
    kh.push(9, &AffFunction::new(4, 0));
    assert_eq!(kh.time(), 50);
    assert_eq!(kh.advance_to(49), Err(KineticError::TimeRegression));
    assert_eq!(kh.time(), 50);
    assert_eq!(kh.len(), 1);
    assert_eq!(kh.advance_to(50), Ok(()));
    assert_eq!(kh.time(), 50);
    assert_eq!(kh.advance_to(60), Ok(()));
    assert_eq!(kh.time(), 60);
    assert_eq!(kh.cur_min_value(), Ok(240));
}

// The reported minimum always agrees with a brute-force scan over all
// stored functions, across pushes, removals and clock advances.
#[test]
fn minimum_matches_brute_force() {
    let slopes: [i128; 6] = [7, -3, 0, 12, -8, 2];
    let shifts: [i64; 6] = [0, 2, -1, 3, -4, 5];
    let mut kh: KineticHanger<usize> = KineticHanger::new(0);
    let mut funcs: Vec<AffFunction> = Vec::new();
    for k in 0..6 {
        let f = AffFunction::new(slopes[k], shifts[k]);
        funcs.push(f);
        kh.push(k, &f);
    }
    let times: [i64; 4] = [0, 3, 10, 1000];
    for &t in times.iter() {
        assert!(kh.advance_to(t).is_ok());
        let brute = funcs.iter().map(|f| f.eval(t)).min().unwrap();
        assert_eq!(kh.cur_min_value(), Ok(brute));
    }
    // Remove two slots and check again.
    assert!(kh.remove(0).is_ok());
    assert!(kh.remove(0).is_ok());
    assert_eq!(kh.len(), 4);
    assert!(kh.advance_to(2000).is_ok());
    let min_now = kh.cur_min_value().unwrap();
    let brute: i128 = funcs.iter().map(|f| f.eval(2000)).min().unwrap();
    // The two removed payloads may or may not have carried the global
    // minimum; the reported value can never undercut the brute-force
    // minimum over the original six.
    assert!(min_now >= brute);
    // Popping everything comes out in nondecreasing value order at the
    // frozen clock.
    let mut last = i128::MIN;
    while !kh.is_empty() {
        let v = kh.cur_min_value().unwrap();
        assert!(v >= last);
        last = v;
        assert!(kh.pop().is_ok());
    }
}

// Size conservation: push grows the length by one, pop and remove shrink it
// by one, and emptiness always mirrors the length.
#[test]
fn size_conservation() {
    let mut kh: KineticHanger<i32> = KineticHanger::new(0);
    assert!(kh.is_empty());
    for k in 0..5 {
        let before = kh.len();
        kh.push(k, &AffFunction::new(k as i128, 0));
        assert_eq!(kh.len(), before + 1);
        assert_eq!(kh.is_empty(), kh.len() == 0);
    }
    let before = kh.len();
    assert!(kh.remove(2).is_ok());
    assert_eq!(kh.len(), before - 1);
    let before = kh.len();
    assert!(kh.pop().is_ok());
    assert_eq!(kh.len(), before - 1);
    assert_eq!(kh.is_empty(), kh.len() == 0);
}

// Payload access by position, shared and mutable, and through the root.
#[test]
fn index_and_mutation() {
    let mut kh: KineticHanger<i32> = KineticHanger::new(0);
    kh.push(10, &AffFunction::new(1, 0));
    kh.push(20, &AffFunction::new(2, 0));
    assert!(kh.index(0).is_ok());
    assert!(kh.index(1).is_ok());
    assert_eq!(kh.index(2), Err(KineticError::IndexOutOfRange));
    // At time zero both functions evaluate to zero, so either element may
    // sit at the root; mutate through the root and read the change back.
    let root_before = *kh.peek().unwrap();
    *kh.peek_mut() += 1;
    assert_eq!(*kh.peek().unwrap(), root_before + 1);
    let slot1_before = *kh.index(1).unwrap();
    *kh.index_mut(1) *= 3;
    assert_eq!(*kh.index(1).unwrap(), slot1_before * 3);
    assert_eq!(kh.len(), 2);
}

// Popping after crossings returns payloads in the order of the values at the
// advanced clock, not the insertion-time order.
#[test]
fn pop_order_after_crossing() {
    let mut kh: KineticHanger<&str> = KineticHanger::new(0);
    kh.push("rising", &AffFunction::new(10, 0));
    kh.push("falling", &AffFunction::new(-5, 0));
    // At time 0 both are 0; by time 2 the falling one is far below.
    assert!(kh.advance_to(2).is_ok());
    assert_eq!(kh.pop(), Ok("falling"));
    assert_eq!(kh.pop(), Ok("rising"));
    assert_eq!(kh.pop(), Err(KineticError::Empty));
}

// The trait face exposes the same operations as the concrete type.
#[test]
fn trait_face() {
    fn drain<H: KineticHeap<i32>>(h: &mut H) -> Vec<i32> {
        let mut out: Vec<i32> = Vec::new();
        while !h.is_empty() {
            out.push(h.pop().unwrap());
        }
        out
    }
    let mut kh: KineticHanger<i32> = KineticHanger::new(0);
    kh.push(4, &AffFunction::new(4, 0));
    kh.push(1, &AffFunction::new(1, 0));
    kh.push(3, &AffFunction::new(3, 0));
    assert!(KineticHeap::advance_to(&mut kh, 1).is_ok());
    assert_eq!(drain(&mut kh), vec![1, 3, 4]);
}
