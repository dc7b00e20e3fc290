use wfc::test_utils::{img, p};
use wfc::{
    generate, Color, Config, ConstraintsTable, Direction, RandomSource, Table, Texture, Wfc,
    WfcError, WfcI,
};

#[test]
fn build_constraints() {
    // [0, 1, 2]
    // [1, 2, 3]
    // [2, 3, 4]
    let mut texture = Texture::new(4, 4);
    for x in 0..4 {
        for y in 0..4 {
            texture.put_pixel(x, y, Color::new((x + y) as u8, 0, 0));
        }
    }

    let patterns = vec![p(0, 2, &texture, (0, 0)), p(1, 2, &texture, (1, 0))];
    let actual = Wfc::build_constraints(&patterns);
    assert_eq!(actual.mask(0, 0), 0b0000);
    assert_eq!(actual.mask(0, 1), 0b0110);
    assert_eq!(actual.mask(1, 0), 0b1001);
    assert_eq!(actual.mask(1, 1), 0b0000);

    let patterns = vec![p(0, 3, &texture, (0, 0)), p(1, 3, &texture, (1, 0))];
    let actual = Wfc::build_constraints(&patterns);
    assert_eq!(actual.mask(0, 0), 0b0000);
    assert_eq!(actual.mask(0, 1), 0b0110);
    assert_eq!(actual.mask(1, 0), 0b1001);
    assert_eq!(actual.mask(1, 1), 0b0000);
}

#[test]
fn uniform_input() {
    let mut texture = Texture::new(3, 3);
    for x in 0..3 {
        for y in 0..3 {
            texture.put_pixel(x, y, Color::new(0, 0, 0));
        }
    }
    let patterns = wfc::get_patterns(&texture, 2);
    assert_eq!(patterns.len(), 1);

    let solver = Wfc::new(patterns);
    for d in Direction::all() {
        assert!(solver.ctable.allows(0, 0, d));
    }
    assert_eq!(solver.ctable.mask(0, 0), 0b1111);

    let mut rng = RandomSource::from_seed(7);
    let cfg = Config {
        pattern_size: 2,
        width: 5,
        height: 4,
    };
    let out = generate(texture, cfg, &mut rng).expect("uniform input collapses");
    assert_eq!(out.width, 5);
    assert_eq!(out.height, 4);
    for x in 0..4 {
        for y in 0..5 {
            assert_eq!(out.pixel(x, y), Color::new(0, 0, 0));
        }
    }
}

#[test]
fn degenerate_kernel_seeded() {
    // A two-colour checkerboard observed with a kernel of one pixel: both
    // colours stay possible everywhere, and a fixed seed must reproduce the
    // exact output.
    let mut texture = Texture::new(2, 2);
    texture.put_pixel(0, 0, Color::new(0, 0, 0));
    texture.put_pixel(0, 1, Color::new(255, 255, 255));
    texture.put_pixel(1, 0, Color::new(255, 255, 255));
    texture.put_pixel(1, 1, Color::new(0, 0, 0));

    let patterns = wfc::get_patterns(&texture, 1);
    assert_eq!(patterns.len(), 2);
    let ct = Wfc::build_constraints(&patterns);
    for a in 0..2 {
        for b in 0..2 {
            assert_eq!(ct.mask(a, b), 0b1111);
        }
    }

    let cfg = Config {
        pattern_size: 1,
        width: 6,
        height: 5,
    };
    let mut texture2 = Texture::new(2, 2);
    texture2.put_pixel(0, 0, Color::new(0, 0, 0));
    texture2.put_pixel(0, 1, Color::new(255, 255, 255));
    texture2.put_pixel(1, 0, Color::new(255, 255, 255));
    texture2.put_pixel(1, 1, Color::new(0, 0, 0));

    let mut rng1 = RandomSource::from_seed(42);
    let out1 = generate(texture, cfg, &mut rng1).expect("no contradiction is possible");
    let cfg2 = Config {
        pattern_size: 1,
        width: 6,
        height: 5,
    };
    let mut rng2 = RandomSource::from_seed(42);
    let out2 = generate(texture2, cfg2, &mut rng2).expect("no contradiction is possible");

    for x in 0..5 {
        for y in 0..6 {
            let c1 = out1.pixel(x, y);
            assert!(c1 == Color::new(0, 0, 0) || c1 == Color::new(255, 255, 255));
            assert_eq!(c1, out2.pixel(x, y));
        }
    }
}

#[test]
fn single_row_cycles() {
    // A single-row cyclic gradient: under toroidal wrap its patterns form
    // one cycle, so each output pixel's right neighbour must be its
    // successor modulo four.
    let mut texture = Texture::new(4, 1);
    for y in 0..4 {
        texture.put_pixel(0, y, Color::new(y as u8, 0, 0));
    }
    let patterns = wfc::get_patterns(&texture, 2);
    assert_eq!(patterns.len(), 4);
    let solver = Wfc::new(patterns);
    let mut rng = RandomSource::from_seed(3);
    let out = solver
        .generate(6, 1, &mut rng)
        .expect("cyclic row always completes");
    for y in 0..5 {
        let a: u8 = out.pixel(0, y).r;
        let b: u8 = out.pixel(0, y + 1).r;
        assert_eq!((a + 1) % 4, b);
    }
}

#[test]
fn constraint_symmetry() {
    // [0, 1, 2, 3]
    // [1, 2, 3, 4]
    // ...
    let texture = img(4);
    let patterns = wfc::get_patterns(&texture, 2);
    let n: usize = patterns.len();
    let ct = Wfc::build_constraints(&patterns);
    for a in 0..n {
        for b in 0..n {
            for d in Direction::all() {
                assert_eq!(ct.allows(a, b, d), ct.allows(b, a, d.opposite()));
            }
        }
    }
}

#[test]
fn unit_kernel_all_allowed() {
    // With a kernel of one pixel the overlap strips are empty, so every
    // pattern may sit next to every pattern, itself included.
    let texture = img(2);
    let patterns = wfc::get_patterns(&texture, 1);
    assert_eq!(patterns.len(), 4);
    let ct = Wfc::build_constraints(&patterns);
    for a in 0..4 {
        for b in 0..4 {
            assert_eq!(ct.mask(a, b), 0b1111);
        }
    }
}

#[test]
fn arc_chain_collapse() {
    // Three patterns in a row of three cells, where only A-Right-B and
    // B-Right-C are allowed: collapsing the first cell to A forces B and C.
    let mut masks = vec![0u8; 9];
    masks[0 * 3 + 1] = 0b0010; // B may sit right of A
    masks[1 * 3 + 0] = 0b1000; // A may sit left of B
    masks[1 * 3 + 2] = 0b0010; // C may sit right of B
    masks[2 * 3 + 1] = 0b1000; // B may sit left of C
    let ct = ConstraintsTable::new(masks, 3);

    let cells = vec![vec![0], vec![0, 1, 2], vec![0, 1, 2]];
    let etable = Table::new(cells, 3);
    let mut solver = WfcI::new(etable, 3);
    let before: Vec<usize> = (0..3).map(|i| solver.etable.at(i).len()).collect();
    solver.propagate(&ct, 0).expect("the chain is satisfiable");
    let after: Vec<usize> = (0..3).map(|i| solver.etable.at(i).len()).collect();
    for i in 0..3 {
        assert!(after[i] <= before[i]);
    }
    assert_eq!(*solver.etable.at(0), vec![0]);
    assert_eq!(*solver.etable.at(1), vec![1]);
    assert_eq!(*solver.etable.at(2), vec![2]);
}

#[test]
fn contradiction_detected() {
    // Two cells side by side whose only allowed right-neighbour pairing is
    // X next to X, pre-constrained to different patterns.
    let mut masks = vec![0u8; 4];
    masks[0 * 2 + 0] = 0b1010; // X may sit right or left of X
    let ct = ConstraintsTable::new(masks, 2);

    let cells = vec![vec![0], vec![1]];
    let etable = Table::new(cells, 2);
    let mut solver = WfcI::new(etable, 2);
    let r = solver.propagate(&ct, 0);
    assert_eq!(r, Err(WfcError::Contradiction));
}

#[test]
fn invalid_kernel_rejected() {
    let texture = img(3);
    let mut rng = RandomSource::from_seed(0);
    let cfg = Config {
        pattern_size: 0,
        width: 2,
        height: 2,
    };
    assert_eq!(
        generate(texture, cfg, &mut rng),
        Err(WfcError::InvalidKernelSize)
    );

    let texture = img(3);
    let cfg = Config {
        pattern_size: 5,
        width: 2,
        height: 2,
    };
    assert_eq!(
        generate(texture, cfg, &mut rng),
        Err(WfcError::InvalidKernelSize)
    );
}

#[test]
fn invalid_output_rejected() {
    let texture = img(3);
    let mut rng = RandomSource::from_seed(0);
    let cfg = Config {
        pattern_size: 2,
        width: 0,
        height: 2,
    };
    assert_eq!(
        generate(texture, cfg, &mut rng),
        Err(WfcError::InvalidOutputSize)
    );

    let texture = img(3);
    let cfg = Config {
        pattern_size: 2,
        width: 2,
        height: 0,
    };
    assert_eq!(
        generate(texture, cfg, &mut rng),
        Err(WfcError::InvalidOutputSize)
    );
}

#[test]
fn random_draw_in_range() {
    let mut rng = RandomSource::from_seed(9);
    assert_eq!(rng.next_below(1), 0);
    for n in 1..50 {
        let r: usize = rng.next_below(n);
        assert!(r < n);
    }

    // The same seed yields the same stream of draws.
    let mut rng1 = RandomSource::from_seed(1234);
    let mut rng2 = RandomSource::from_seed(1234);
    for _ in 0..100 {
        assert_eq!(rng1.next_below(1000), rng2.next_below(1000));
    }
}

#[test]
fn solution_soundness() {
    // Every pair of orthogonally adjacent cells of a successful output is
    // allowed by the constraints table.
    let texture = img(4);
    let patterns = wfc::get_patterns(&texture, 2);
    let ct = Wfc::build_constraints(&patterns);
    let find_id = |r: u8| -> usize {
        (0..patterns.len())
            .find(|&i| patterns[i].pixels[0].r == r)
            .expect("every output pixel is some pattern's first pixel")
    };

    let solver = Wfc::new(wfc::get_patterns(&texture, 2));
    let mut rng = RandomSource::from_seed(11);
    let out = solver
        .generate(5, 3, &mut rng)
        .expect("the wrapped gradient tiles the plane");
    for x in 0..3 {
        for y in 0..5 {
            let a: usize = find_id(out.pixel(x, y).r);
            if y + 1 < 5 {
                let b: usize = find_id(out.pixel(x, y + 1).r);
                assert!(ct.allows(a, b, Direction::Right));
            }
            if x + 1 < 3 {
                let b: usize = find_id(out.pixel(x + 1, y).r);
                assert!(ct.allows(a, b, Direction::Down));
            }
        }
    }
}
