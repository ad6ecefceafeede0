use flipstack::prng::PrngCtxGaloisLsfw;
use flipstack::stack::{solve_all_stacks, SliceStack, MAX_SLICES};

/// Build a stack holding exactly `values`, configured with `type_count`
/// slice types.
fn make_stack(values: &[u8], type_count: u8) -> SliceStack {
    let mut rng = PrngCtxGaloisLsfw { value: 34 };
    let mut s = SliceStack::new();
    s.init(values.len(), type_count, &mut rng).unwrap();
    for (i, v) in values.iter().enumerate() {
        s.set_slice(i, *v);
    }
    s
}

fn contents(s: &SliceStack) -> Vec<u8> {
    let mut out: Vec<u8> = Vec::new();
    for i in 0..s.count() {
        out.push(s.slice_at(i));
    }
    out
}

#[test]
fn basic_init_test() {
    let mut rng = PrngCtxGaloisLsfw { value: 34 };
    let mut ss = SliceStack::new();
    ss.init(4, 2, &mut rng).unwrap();
    assert_eq!(4, ss.count());
    assert_eq!(2, ss.type_count());
}

#[test]
fn init_draws_expected_values() {
    let mut rng = PrngCtxGaloisLsfw { value: 34 };
    let mut ss = SliceStack::new();
    ss.init(4, 2, &mut rng).unwrap();
    assert_eq!(contents(&ss), vec![0, 1, 1, 0]);
    let mut rng2 = PrngCtxGaloisLsfw { value: 34 };
    let mut big = SliceStack::new();
    big.init(16, 8, &mut rng2).unwrap();
    assert_eq!(
        contents(&big),
        vec![0, 4, 5, 3, 5, 2, 5, 6, 3, 5, 6, 3, 5, 6, 3, 5]
    );
    for i in 0..big.count() {
        assert!(big.slice_at(i) < big.type_count());
    }
}

#[test]
fn init_rejects_bad_configurations() {
    let mut rng = PrngCtxGaloisLsfw { value: 34 };
    let mut ss = SliceStack::new();
    assert!(ss.init(MAX_SLICES + 1, 2, &mut rng).is_err());
    assert!(ss.init(4, 0, &mut rng).is_err());
    assert!(ss.init(MAX_SLICES, 1, &mut rng).is_ok());
}

#[test]
fn ss_iscomplete_test() {
    let mut ss = make_stack(&[0, 2, 1, 1], 3);
    assert!(ss.iscomplete());
    assert!(ss.iscomplete2());
    ss.set_slice(0, 1);
    ss.set_slice(1, 0);
    ss.set_slice(2, 2);
    ss.set_slice(3, 1);
    assert!(!ss.iscomplete());
    assert!(!ss.iscomplete2());
}

#[test]
fn ss_fragmentation_test() {
    let ss = make_stack(&[0, 2, 1, 1], 3);
    assert_eq!(3, ss.fragmentation());
    assert_eq!(3, ss.fragmentation2());
}

#[test]
fn scenario_scrambled_stack_is_fully_fragmented() {
    let ss = make_stack(&[1, 0, 2, 1], 3);
    assert!(!ss.iscomplete());
    assert_eq!(4, ss.fragmentation());
}

#[test]
fn ss_fragmentation_equiv_test() {
    const SLICE_COUNT: usize = MAX_SLICES;
    const COLOR_COUNT: u8 = 8;
    const SS_COUNT: usize = 1;

    let mut rng = PrngCtxGaloisLsfw { value: 34 };
    for _ in 0..SS_COUNT {
        let mut s = SliceStack::new();
        s.init(SLICE_COUNT, COLOR_COUNT, &mut rng).unwrap();
        let f1 = s.fragmentation();
        let f2 = s.fragmentation2();
        assert!(f1 <= s.count() as i32);
        assert!(f2 <= s.count() as i32);
        assert_eq!(f1, f2);
        assert_eq!(s.iscomplete(), s.iscomplete2());
    }
}

#[test]
fn ss_find_single_joining_move_test() {
    // A left-edge value recurs after a gap: the scan reports it with a
    // prefix-flip direction, and the adjusted flip completes the stack.
    let mut ss = make_stack(&[0, 1, 0], 2);
    let mut direction: i32 = 0;
    let mut index = ss.find_single_joining_move(&mut direction);
    assert_eq!(index, 2);
    assert_eq!(direction, -1);
    index += direction;
    assert_eq!(index, 1);
    ss.flip(index, direction);
    assert_eq!(contents(&ss), vec![1, 0, 0]);
    assert!(ss.iscomplete());

    // No joining move on a stack whose edge types never recur.
    let ss2 = make_stack(&[2, 0, 1, 0, 3], 4);
    let mut d2: i32 = 7;
    let r2 = ss2.find_single_joining_move(&mut d2);
    assert_eq!(r2, -1);
    assert_eq!(d2, 7);

    // A right-edge match is found once the left scan fails.
    let ss3 = make_stack(&[0, 1, 2, 1], 3);
    let mut d3: i32 = 0;
    let r3 = ss3.find_single_joining_move(&mut d3);
    assert_eq!(r3, 1);
    assert_eq!(d3, 1);
}

#[test]
fn ss_find_first_double_move_test() {
    let ss = make_stack(&[2, 0, 1, 0, 3], 4);
    // Forward walk: slice type 0 recurs at index 3 without continuing its
    // run, so the boundary one step earlier is reported.
    let mut direction: i32 = 0;
    let index = ss.find_first_double_move(0, &mut direction);
    assert_eq!(index, 2);
    assert_eq!(direction, 1);
    // Backward walk: the mirrored scan reports the boundary at index 1.
    let mut dback: i32 = 0;
    let iback = ss.find_first_double_move(1, &mut dback);
    assert_eq!(iback, 2);
    assert_eq!(dback, -1);
}

#[test]
fn flip_is_an_involution() {
    let start = [0u8, 1, 2, 0, 1];
    let mut ss = make_stack(&start, 3);
    ss.flip(2, 1);
    ss.flip(2, 1);
    assert_eq!(contents(&ss), start.to_vec());
    ss.flip(3, -1);
    ss.flip(3, -1);
    assert_eq!(contents(&ss), start.to_vec());
}

#[test]
fn flip_preserves_count_and_values() {
    let mut ss = make_stack(&[0, 1, 2, 0, 1], 3);
    ss.flip(1, 1);
    assert_eq!(ss.count(), 5);
    assert_eq!(ss.type_count(), 3);
    assert_eq!(contents(&ss), vec![0, 1, 0, 2, 1]);
    let mut sorted = contents(&ss);
    sorted.sort();
    assert_eq!(sorted, vec![0, 0, 1, 1, 2]);
}

#[test]
fn scenario_uniform_stack_needs_no_moves() {
    let mut ss = make_stack(&[0, 0, 0, 0], 1);
    assert!(ss.iscomplete());
    assert_eq!(1, ss.fragmentation());
    let moves = ss.solve();
    assert_eq!(moves, 0);
    assert_eq!(contents(&ss), vec![0, 0, 0, 0]);
}

#[test]
fn solve_completes_within_two_moves_per_slice() {
    let mut rng = PrngCtxGaloisLsfw { value: 0x10293847 };
    for _ in 0..200 {
        let mut s = SliceStack::new();
        s.init(MAX_SLICES, 8, &mut rng).unwrap();
        let before = {
            let mut v = contents(&s);
            v.sort();
            v
        };
        let moves = s.solve();
        assert!(s.iscomplete());
        assert!(moves as usize <= 2 * MAX_SLICES);
        let after = {
            let mut v = contents(&s);
            v.sort();
            v
        };
        assert_eq!(before, after);
    }
}

#[test]
fn solve_all_stacks_completes_each() {
    let mut rng = PrngCtxGaloisLsfw { value: 99 };
    let mut stacks: Vec<SliceStack> = Vec::new();
    for _ in 0..32 {
        let mut s = SliceStack::new();
        s.init(MAX_SLICES, 8, &mut rng).unwrap();
        stacks.push(s);
    }
    solve_all_stacks(&mut stacks);
    for s in stacks.iter() {
        assert!(s.iscomplete());
    }
}

#[test]
fn empty_stack_edge_cases() {
    let mut ss = SliceStack::new();
    assert_eq!(ss.count(), 0);
    assert_eq!(ss.fragmentation(), 0);
    assert_eq!(ss.fragmentation2(), 1);
    assert!(ss.iscomplete());
    assert_eq!(ss.solve(), 0);
}

#[test]
fn largest_type_count_is_accepted() {
    let mut rng = PrngCtxGaloisLsfw { value: 7 };
    let mut ss = SliceStack::new();
    ss.init(MAX_SLICES, 32, &mut rng).unwrap();
    for i in 0..ss.count() {
        assert!(ss.slice_at(i) < 32);
    }
    ss.solve();
    assert!(ss.iscomplete());
}
