use flipstack::prng::PrngCtxGaloisLsfw;
use flipstack::stack::{SliceStack, MAX_SLICES};

#[test]
fn lots_of_solutions() {
    const SLICE_COUNT: usize = MAX_SLICES;
    const COLOR_COUNT: u8 = 8;
    let search_dir: i32 = -1;
    let mut direction: i32;

    const SS_COUNT: usize = 1024 * 1024;
    let mut rng = PrngCtxGaloisLsfw { value: 34 };
    let mut ss: Vec<SliceStack> = Vec::with_capacity(SS_COUNT);
    for _ in 0..SS_COUNT {
        let mut s = SliceStack::new();
        s.init(SLICE_COUNT, COLOR_COUNT, &mut rng).unwrap();
        ss.push(s);
    }

    for s in ss.iter_mut() {
        while !s.iscomplete() {
            direction = 0;
            let mut index = s.find_single_joining_move(&mut direction);
            if index == -1 {
                index = s.find_first_double_move(search_dir, &mut direction);
            }
            assert!(index != -1);
            index += direction;
            s.flip(index, direction);
        }
    }
}
