use flipstack::prng::{
    prng_galois_lsfw, prng_galois_lsfw_int_minmax, prng_seed_galois_lsfw, PrngCtxGaloisLsfw,
};

#[test]
fn prng_galois_lsfw_test() {
    let mut ctx: PrngCtxGaloisLsfw = PrngCtxGaloisLsfw { value: 0 };
    // check seeding values
    {
        let expected_values: [u32; 10] = [
            2149580803, 1, 2149580802, 2, 2149580801, 3, 2149580800, 4, 2149580807, 5,
        ];
        for u in 0..10 as u32 {
            prng_seed_galois_lsfw(&mut ctx, u + 1);
            assert_eq!(prng_galois_lsfw(&mut ctx), expected_values[u as usize]);
        }
    }
    // check consecutive calls after initial seeding
    {
        let expected_values: [u32; 10] = [
            2149580803, 3224371202, 1612185601, 2955673603, 3627417602, 1813708801, 3056435203,
            3677798402, 1838899201, 3069030403,
        ];
        prng_seed_galois_lsfw(&mut ctx, 1);
        for u in 0..10 as usize {
            assert_eq!(prng_galois_lsfw(&mut ctx), expected_values[u]);
        }
    }
}

#[test]
fn prng_galois_lsfw_int_minmax_test() {
    let mut ctx: PrngCtxGaloisLsfw = PrngCtxGaloisLsfw { value: 0x10293847 };
    // check seeding values
    {
        let expected_values: [i32; 10] = [532, 266, 133, 67, 33, 17, 508, 754, 377, 689];
        for u in 0..10 as usize {
            assert_eq!(
                prng_galois_lsfw_int_minmax(&mut ctx, 0, 1000),
                expected_values[u]
            );
        }
    }
}
