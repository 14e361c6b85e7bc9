use hypercube::{decode, encode, push_decimal, Hypercube, HypercubeError, Register};

fn identity(n: usize) -> Vec<i64> {
    let mut m = vec![0i64; n * n];
    for i in 0..n {
        m[i * n + i] = 1;
    }
    m
}

fn run(n: usize, a: &[i64], b: &[i64]) -> Vec<i64> {
    let mut cube = Hypercube::new(n).unwrap();
    cube.init(a, b).unwrap();
    for _ in 0..5 {
        assert!(cube.next_step());
    }
    cube.get_result()
}

fn classical_product(n: usize, a: &[i64], b: &[i64]) -> Vec<i64> {
    let mut c = vec![0i64; n * n];
    for z in 0..n {
        for x in 0..n {
            let mut s = 0i64;
            for y in 0..n {
                s = s.wrapping_add(a[z * n + y].wrapping_mul(b[y * n + x]));
            }
            c[z * n + x] = s;
        }
    }
    c
}

const DEMO_A: [i64; 16] = [1, 2, 0, 0, 0, 1, 1, 3, 1, 0, 0, 2, 0, 0, 2, 0];
const DEMO_B: [i64; 16] = [1, 2, 2, 0, 0, 3, 2, 0, 1, 0, 1, 2, 0, 1, 2, 0];

#[test]
fn ids_follow_bit_interleaving() {
    let cube = Hypercube::new(4).unwrap();
    let q = cube.number_bits_per_dimension();
    assert_eq!(q, 2);
    for z in 0..4u32 {
        for y in 0..4u32 {
            for x in 0..4u32 {
                let p = cube.get_processor_copy(x, y, z);
                assert_eq!(p.id, x + (y << q) + (z << (2 * q)));
            }
        }
    }
}

#[test]
fn encode_and_decode_are_inverse() {
    assert_eq!(encode(2, 3, 1, 2), 3 + 4 + 32);
    assert_eq!(decode(2, 39), (3, 1, 2));
    for i in 0..64u32 {
        let (x, y, z) = decode(2, i);
        assert_eq!(encode(2, x, y, z), i);
    }
}

#[test]
fn new_grid_is_zeroed() {
    let cube = Hypercube::new(4).unwrap();
    assert_eq!(cube.current_step(), 0);
    assert_eq!(cube.number_processor_per_dimension(), 4);
    assert_eq!(cube.number_bits_total(), 6);
    assert_eq!(cube.number_processors_total(), 64);
    let state = cube.get_state();
    assert_eq!(state.len(), 64);
    for (i, p) in state.iter().enumerate() {
        assert_eq!(p.id as usize, i);
        assert_eq!((p.a, p.b, p.c), (0, 0, 0));
    }
}

#[test]
fn sizes_that_are_not_powers_of_two_are_rejected() {
    assert_eq!(Hypercube::new(0).err(), Some(HypercubeError::InvalidSize));
    assert_eq!(Hypercube::new(3).err(), Some(HypercubeError::InvalidSize));
    assert_eq!(Hypercube::new(6).err(), Some(HypercubeError::InvalidSize));
    assert_eq!(Hypercube::new(1000).err(), Some(HypercubeError::InvalidSize));
    assert_eq!(Hypercube::new(3000).err(), Some(HypercubeError::InvalidSize));
    assert_eq!(Hypercube::new(1025).err(), Some(HypercubeError::InvalidSize));
    assert_eq!(Hypercube::new(usize::MAX).err(), Some(HypercubeError::InvalidSize));
    assert_eq!(Hypercube::new(2048).err(), Some(HypercubeError::TooLarge));
    assert_eq!(Hypercube::new(1 << 40).err(), Some(HypercubeError::TooLarge));
    assert!(Hypercube::new(1).is_ok());
    assert!(Hypercube::new(8).is_ok());
}

#[test]
fn short_input_is_rejected_and_leaves_grid_alone() {
    let mut cube = Hypercube::new(2).unwrap();
    cube.init(&[1, 2, 3, 4], &[5, 6, 7, 8]).unwrap();
    assert_eq!(cube.init(&[9, 9, 9], &[9, 9, 9, 9]), Err(HypercubeError::ShortInput));
    assert_eq!(cube.init(&[9, 9, 9, 9], &[9]), Err(HypercubeError::ShortInput));
    assert_eq!(cube.get_processor_copy(1, 0, 1).a, 4);
    assert_eq!(cube.get_processor_copy(1, 0, 1).b, 8);
    let short_rows = vec![vec![1, 2], vec![3]];
    let full = vec![vec![1, 2], vec![3, 4]];
    assert_eq!(cube.init_nested(&short_rows, &full), Err(HypercubeError::ShortInput));
    assert_eq!(cube.init_nested(&full, &vec![vec![1, 2]]), Err(HypercubeError::ShortInput));
    assert_eq!(cube.get_processor_copy(0, 0, 1).a, 3);
}

#[test]
fn init_seeds_only_the_bottom_plane() {
    let mut cube = Hypercube::new(2).unwrap();
    cube.init(&[1, 2, 3, 4], &[5, 6, 7, 8]).unwrap();
    let p = cube.get_processor_copy(1, 0, 0);
    assert_eq!((p.a, p.b, p.c), (2, 6, 0));
    let p = cube.get_processor_copy(0, 0, 1);
    assert_eq!((p.a, p.b), (3, 7));
    let p = cube.get_processor_copy(1, 1, 1);
    assert_eq!((p.a, p.b, p.c), (0, 0, 0));
}

#[test]
fn identity_check() {
    assert_eq!(run(4, &identity(4), &identity(4)), identity(4));
}

#[test]
fn canonical_demo() {
    assert_eq!(
        run(4, &DEMO_A, &DEMO_B),
        vec![1, 8, 6, 0, 1, 6, 9, 2, 1, 4, 6, 0, 2, 0, 2, 4]
    );
}

#[test]
fn canonical_demo_nested() {
    let a: Vec<Vec<i64>> = DEMO_A.chunks(4).map(|r| r.to_vec()).collect();
    let b: Vec<Vec<i64>> = DEMO_B.chunks(4).map(|r| r.to_vec()).collect();
    let mut cube = Hypercube::new(4).unwrap();
    cube.init_nested(&a, &b).unwrap();
    while cube.next_step() {}
    assert_eq!(cube.get_result(), vec![1, 8, 6, 0, 1, 6, 9, 2, 1, 4, 6, 0, 2, 0, 2, 4]);
}

#[test]
fn stepper_reports_completion() {
    let mut cube = Hypercube::new(4).unwrap();
    cube.init(&DEMO_A, &DEMO_B).unwrap();
    for k in 1..=5 {
        assert!(cube.next_step());
        assert_eq!(cube.current_step(), k);
    }
    assert!(!cube.next_step());
    assert_eq!(cube.current_step(), 5);
}

#[test]
fn advance_when_done_changes_nothing() {
    let mut cube = Hypercube::new(4).unwrap();
    cube.init(&DEMO_A, &DEMO_B).unwrap();
    while cube.next_step() {}
    let before = cube.get_state();
    let before_text = cube.render_all();
    assert!(!cube.next_step());
    assert!(!cube.next_step());
    let after = cube.get_state();
    assert_eq!(before.len(), after.len());
    for (p, q) in before.iter().zip(after.iter()) {
        assert_eq!((p.id, p.a, p.b, p.c), (q.id, q.a, q.b, q.c));
    }
    assert_eq!(before_text, cube.render_all());
}

#[test]
fn step_one_broadcasts_along_y() {
    let mut cube = Hypercube::new(4).unwrap();
    cube.init(&DEMO_A, &DEMO_B).unwrap();
    assert!(cube.next_step());
    for y in 0..4 {
        assert_eq!(cube.get_processor_copy(2, y, 1).a, DEMO_A[1 * 4 + 2]);
    }
    for z in 0..4u32 {
        for y in 0..4u32 {
            for x in 0..4u32 {
                let p = cube.get_processor_copy(x, y, z);
                assert_eq!(p.a, DEMO_A[(z * 4 + x) as usize]);
                assert_eq!(p.b, DEMO_B[(z * 4 + x) as usize]);
            }
        }
    }
}

#[test]
fn step_two_ignores_x() {
    let mut cube = Hypercube::new(4).unwrap();
    cube.init(&DEMO_A, &DEMO_B).unwrap();
    cube.next_step();
    cube.next_step();
    for z in 0..4u32 {
        for y in 0..4u32 {
            for x in 0..4u32 {
                assert_eq!(cube.get_processor_copy(x, y, z).a, DEMO_A[(z * 4 + y) as usize]);
            }
        }
    }
}

#[test]
fn step_three_selects_b_along_z() {
    let mut cube = Hypercube::new(4).unwrap();
    cube.init(&DEMO_A, &DEMO_B).unwrap();
    for _ in 0..3 {
        cube.next_step();
    }
    for z in 0..4u32 {
        for y in 0..4u32 {
            for x in 0..4u32 {
                assert_eq!(cube.get_processor_copy(x, y, z).b, DEMO_B[(y * 4 + x) as usize]);
            }
        }
    }
}

#[test]
fn reduction_sums_products_of_step_three() {
    let mut cube = Hypercube::new(4).unwrap();
    cube.init(&DEMO_A, &DEMO_B).unwrap();
    for _ in 0..3 {
        cube.next_step();
    }
    let mut expected = vec![0i64; 16];
    for z in 0..4u32 {
        for x in 0..4u32 {
            for y in 0..4u32 {
                let p = cube.get_processor_copy(x, y, z);
                expected[(z * 4 + x) as usize] += p.a * p.b;
            }
        }
    }
    cube.next_step();
    cube.next_step();
    for z in 0..4u32 {
        for x in 0..4u32 {
            assert_eq!(cube.get_processor_copy(x, 0, z).c, expected[(z * 4 + x) as usize]);
        }
    }
}

#[test]
fn products_match_classical_multiplication() {
    for &n in &[2usize, 4, 8] {
        let mut seed: i64 = 7;
        let mut next = || {
            seed = (seed * 1103515245 + 12345) % 2147483648;
            seed % 21 - 10
        };
        let a: Vec<i64> = (0..n * n).map(|_| next()).collect();
        let b: Vec<i64> = (0..n * n).map(|_| next()).collect();
        assert_eq!(run(n, &a, &b), classical_product(n, &a, &b));
    }
}

#[test]
fn smallest_grids() {
    assert_eq!(run(1, &[6], &[-7]), vec![-42]);
    assert_eq!(run(2, &[1, 2, 3, 4], &[5, 6, 7, 8]), vec![19, 22, 43, 50]);
}

#[test]
fn zero_matrices_give_zero() {
    assert_eq!(run(4, &[0; 16], &[0; 16]), vec![0; 16]);
    assert_eq!(run(2, &[0; 4], &[3, -1, 4, 1]), vec![0; 4]);
    assert_eq!(run(2, &[3, -1, 4, 1], &[0; 4]), vec![0; 4]);
}

#[test]
fn identity_gives_counterpart() {
    assert_eq!(run(4, &identity(4), &DEMO_B), DEMO_B.to_vec());
    assert_eq!(run(4, &DEMO_A, &identity(4)), DEMO_A.to_vec());
}

#[test]
fn overflow_wraps() {
    assert_eq!(
        run(2, &[i64::MAX, i64::MAX, 0, 0], &[2, 0, 1, 0]),
        vec![i64::MAX.wrapping_mul(2).wrapping_add(i64::MAX), 0, 0, 0]
    );
}

#[test]
fn render_all_layout() {
    let cube = Hypercube::new(2).unwrap();
    let header = "         A               B               C\n";
    let back = "  0 0     0 0     0 0 \n";
    let front = "0 0     0 0     0 0 \n";
    let expected = format!("{}{}{}{}{}", header, back, front, back, front);
    assert_eq!(cube.render_all(), expected);
}

#[test]
fn render_all_has_header_and_rows() {
    let mut cube = Hypercube::new(4).unwrap();
    cube.init(&DEMO_A, &DEMO_B).unwrap();
    let text = cube.render_all();
    assert!(text.starts_with("         A               B               C\n"));
    let lines: Vec<&str> = text.lines().collect();
    assert_eq!(lines.len(), 1 + 4 * 4);
    for line in &lines[1..] {
        assert_eq!(line.split_whitespace().count(), 3 * 4);
    }
}

#[test]
fn repr_register_layout() {
    let mut cube = Hypercube::new(2).unwrap();
    cube.init(&[1, -2, 3, 40], &[5, 6, 7, 8]).unwrap();
    assert_eq!(
        cube.repr_register("a".to_string()),
        "  0 0 \n0 0 \n  1 -2 \n3 40 \n"
    );
    assert_eq!(cube.render_register(Register::B), "  0 0 \n0 0 \n  5 6 \n7 8 \n");
    assert_eq!(cube.repr_register("c".to_string()), "  0 0 \n0 0 \n  0 0 \n0 0 \n");
}

#[test]
fn decimal_text() {
    for v in [0i64, 7, -7, 10, 1234567890, i64::MAX, i64::MIN, -100] {
        let mut s = String::from("x");
        push_decimal(&mut s, v);
        assert_eq!(s, format!("x{}", v));
    }
}

#[test]
fn reset_returns_to_start() {
    let mut cube = Hypercube::new(2).unwrap();
    cube.init(&[1, 2, 3, 4], &[5, 6, 7, 8]).unwrap();
    while cube.next_step() {}
    cube.reset();
    assert_eq!(cube.current_step(), 0);
    for (i, p) in cube.get_state().iter().enumerate() {
        assert_eq!((p.id as usize, p.a, p.b, p.c), (i, 0, 0, 0));
    }
    assert_eq!(run(2, &[1, 2, 3, 4], &[5, 6, 7, 8]), vec![19, 22, 43, 50]);
    cube.init(&[1, 2, 3, 4], &[5, 6, 7, 8]).unwrap();
    while cube.next_step() {}
    assert_eq!(cube.get_result(), vec![19, 22, 43, 50]);
}
