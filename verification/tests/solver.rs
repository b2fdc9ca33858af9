use optimal_mastermind::code::{Response, Row};
use optimal_mastermind::combos::Combo;
use optimal_mastermind::space::Space;
use optimal_mastermind::GameError;

/// Shannon entropy of a feedback bucket distribution, as the solver's driver
/// computes it from the verified bucket sizes.
fn entropy(counts: &[u64]) -> f32 {
    let total: f32 = counts.iter().map(|&c| c as f32).sum();
    counts
        .iter()
        .map(|&c| {
            let p = c as f32 / total;
            -p * p.log2()
        })
        .sum()
}

/// Integer key ordered as f32::total_cmp orders the floats, so a negative
/// zero entropy sorts below every positive entropy.
fn entropy_key(e: f32) -> u64 {
    let b: u32 = e.to_bits();
    let m: u32 = if b & 0x8000_0000 != 0 {
        !b
    } else {
        b | 0x8000_0000
    };
    m as u64
}

fn evaluation_keys(space: &Space, pool: &[Row]) -> Vec<u64> {
    pool.iter()
        .map(|g| entropy_key(entropy(&space.feedback_bucket_counts(g))))
        .collect()
}

#[test]
fn responses_make_sense() {
    let row_1 = Row::new(vec![1, 2, 2, 3, 5], 6).unwrap();
    let row_2 = Row::new(vec![1, 6, 5, 3, 6], 6).unwrap();
    let response = row_1.get_response(&row_2);
    assert_eq!(response.right_color, 1);
    assert_eq!(response.right_place, 2);
}

#[test]
fn space_is_properly_created() {
    let num_pins: u8 = 4;
    let num_colors: u8 = 3;
    assert!(
        Space::build(num_colors, num_pins)
            .unwrap()
            .get_current_space()
            .iter()
            .len()
            == (num_colors.pow(num_pins.into()).into())
    );
}

#[test]
fn possible_combos_correct() {
    let combos = Combo::find_possible_starting_combos(4, 6);
    let correct_output: Vec<Vec<u8>> = vec![
        vec![1, 1, 1, 3],
        vec![1, 1, 2, 2],
        vec![1, 1, 4],
        vec![1, 2, 3],
        vec![1, 5],
        vec![2, 2, 2],
        vec![2, 4],
        vec![3, 3],
        vec![6],
    ];
    for i in 0..combos.len() {
        assert_eq!(combos[i].get_vals(), correct_output[i]);
    }
}

#[test]
fn possible_starting_combos_checking_ground() {
    let combos = Combo::find_possible_starting_combos(3, 4);
    for i in combos {
        println!("{:?}", i.get_vals());
    }
}

#[test]
fn check_on_guess_conversion() {
    let test = Combo::new(vec![2, 2], 3, 4).unwrap();
    println!("Vals: {:?}", test.get_vals());
    println!("G: {:?}", test.combo_to_guess().get_vals());
}

#[test]
fn feedback_never_exceeds_pin_count() {
    let codes: Vec<Vec<u8>> = vec![
        vec![1, 1, 1, 1],
        vec![1, 2, 3, 4],
        vec![4, 4, 2, 1],
        vec![2, 2, 3, 3],
        vec![4, 3, 2, 1],
    ];
    for a in &codes {
        for b in &codes {
            let g = Row::new(a.clone(), 4).unwrap();
            let s = Row::new(b.clone(), 4).unwrap();
            let r = g.get_response(&s);
            assert!(r.right_place as usize + r.right_color as usize <= a.len());
        }
    }
}

#[test]
fn full_space_is_exact() {
    let space = Space::build(3, 4).unwrap();
    let rows = space.get_full_space();
    assert_eq!(rows.len(), 81);
    let vals: Vec<Vec<u8>> = rows.iter().map(|r| r.get_vals()).collect();
    for v in &vals {
        assert_eq!(v.len(), 4);
        for &pin in v {
            assert!((1..=3).contains(&pin));
        }
    }
    for i in 0..vals.len() {
        for j in 0..vals.len() {
            if i != j {
                assert_ne!(vals[i], vals[j]);
            }
        }
    }
}

#[test]
fn trim_is_idempotent_and_monotonic() {
    let mut space = Space::build(3, 4).unwrap();
    let before: usize = space.get_space_size();
    let guess = Row::new(vec![1, 1, 2, 3], 3).unwrap();
    let secret = Row::new(vec![1, 2, 2, 1], 3).unwrap();
    let observed = guess.get_response(&secret);
    space.trim_space(&guess, &observed);
    let once: Vec<Vec<u8>> = space
        .get_current_space()
        .iter()
        .map(|r| r.get_vals())
        .collect();
    assert!(once.len() <= before);
    space.trim_space(&guess, &observed);
    let twice: Vec<Vec<u8>> = space
        .get_current_space()
        .iter()
        .map(|r| r.get_vals())
        .collect();
    assert_eq!(once, twice);
}

#[test]
fn secret_survives_every_trim() {
    let mut space = Space::build(3, 3).unwrap();
    let secret = space.choose_password();
    let mut first_turn = true;
    let mut turns: u32 = 0;
    while space.get_space_size() > 1 {
        let pool = if first_turn {
            space.first_turn_pool()
        } else {
            space.get_full_space()
        };
        first_turn = false;
        let keys = evaluation_keys(&space, &pool);
        space.run_turn(&secret, &pool, &keys).unwrap();
        let still_there = space
            .get_current_space()
            .iter()
            .any(|r| r.get_vals() == secret.get_vals());
        assert!(still_there);
        turns += 1;
        assert!(turns <= 27);
    }
}

#[test]
fn entropy_of_single_candidate_is_zero() {
    let space = Space::build(1, 1).unwrap();
    assert_eq!(space.get_space_size(), 1);
    let guess = Row::new(vec![1], 1).unwrap();
    let counts = space.feedback_bucket_counts(&guess);
    assert_eq!(counts, vec![1u64]);
    assert_eq!(entropy(&counts), 0.0);
}

#[test]
fn entropy_is_never_negative() {
    let space = Space::build(3, 3).unwrap();
    for guess in space.get_full_space() {
        let counts = space.feedback_bucket_counts(&guess);
        let e = entropy(&counts);
        assert!(e >= 0.0);
        let total: u64 = counts.iter().sum();
        assert_eq!(total as usize, space.get_space_size());
        assert!(counts.iter().all(|&c| c > 0));
    }
}

#[test]
fn entropy_of_two_even_buckets_is_one_bit() {
    assert_eq!(entropy(&[1, 1]), 1.0);
    assert_eq!(entropy(&[2, 2]), 1.0);
    assert_eq!(entropy(&[1, 1, 1, 1]), 2.0);
}

#[test]
fn partitions_exact_count() {
    let combos = Combo::find_possible_starting_combos(4, 6);
    assert_eq!(combos.len(), 9);
    let all = Combo::find_possible_starting_combos(6, 6);
    assert_eq!(all.len(), 11);
}

#[test]
fn end_to_end_shrinks_to_the_secret() {
    let base = Space::build(4, 4).unwrap();
    let mut secrets: Vec<Row> = Vec::new();
    let full = base.get_full_space();
    secrets.push(full[0].duplicate());
    secrets.push(full[full.len() - 1].duplicate());
    secrets.push(base.choose_password());
    for secret in secrets {
        let mut space = Space::build(4, 4).unwrap();
        let mut first_turn = true;
        let mut turns: u32 = 0;
        let mut answer = space.choose_password();
        while space.get_space_size() > 1 {
            let before: usize = space.get_space_size();
            let pool = if first_turn {
                space.first_turn_pool()
            } else {
                space.get_full_space()
            };
            first_turn = false;
            let keys = evaluation_keys(&space, &pool);
            answer = space.run_turn(&secret, &pool, &keys).unwrap();
            assert!(space.get_space_size() < before);
            turns += 1;
            assert!(turns <= 256);
        }
        assert_eq!(space.get_space_size(), 1);
        assert_eq!(answer.get_vals(), secret.get_vals());
    }
}

#[test]
fn shaped_guess_round_trip() {
    let cases: Vec<(Vec<u8>, u8, u8)> = vec![
        (vec![1, 2, 3], 6, 6),
        (vec![2, 2], 3, 4),
        (vec![1, 1, 1, 3], 4, 6),
        (vec![6], 6, 6),
    ];
    for (partition, num_colors, num_pins) in cases {
        let combo = Combo::new(partition.clone(), num_colors, num_pins).unwrap();
        let guess = combo.combo_to_guess().get_vals();
        assert_eq!(guess.len(), num_pins as usize);
        let mut per_color: Vec<u8> = Vec::new();
        for color in 1..=num_colors {
            let count: u8 = guess.iter().filter(|&&v| v == color).count() as u8;
            if count > 0 {
                per_color.push(count);
            }
        }
        assert_eq!(per_color.len(), partition.len());
        per_color.sort();
        assert_eq!(per_color, partition);
    }
}

#[test]
fn chosen_password_is_in_the_full_space() {
    let space = Space::build(3, 3).unwrap();
    let full: Vec<Vec<u8>> = space
        .get_full_space()
        .iter()
        .map(|r| r.get_vals())
        .collect();
    for _ in 0..10 {
        let secret = space.choose_password();
        assert!(full.contains(&secret.get_vals()));
    }
}

#[test]
fn selection_returns_a_maximal_key_guess() {
    let space = Space::build(3, 2).unwrap();
    let pool = space.get_full_space();
    let mut keys: Vec<u64> = Vec::new();
    for i in 0..pool.len() {
        keys.push((i % 3) as u64);
    }
    for _ in 0..10 {
        let best = space.select_best_guess(&pool, &keys).unwrap();
        let idx: usize = pool
            .iter()
            .position(|r| r.get_vals() == best.get_vals())
            .unwrap();
        assert_eq!(keys[idx], 2);
    }
}

#[test]
fn invalid_code_is_rejected() {
    assert_eq!(
        Row::new(vec![1, 5, 2], 4).map(|r| r.get_vals()),
        Err(GameError::InvalidCode)
    );
    assert_eq!(
        Row::new(vec![0], 4).map(|r| r.get_vals()),
        Err(GameError::InvalidCode)
    );
    assert!(Row::new(vec![1, 4, 2], 4).is_ok());
    assert_eq!(
        Combo::new(vec![2, 1], 4, 3).map(|c| c.get_vals()),
        Err(GameError::InvalidCode)
    );
    assert_eq!(
        Combo::new(vec![1, 1], 4, 3).map(|c| c.get_vals()),
        Err(GameError::InvalidCode)
    );
}

#[test]
fn degenerate_parameters_are_rejected() {
    assert!(matches!(
        Space::build(0, 4),
        Err(GameError::DegenerateParameters)
    ));
    assert!(matches!(
        Space::build(4, 0),
        Err(GameError::DegenerateParameters)
    ));
}

#[test]
fn empty_guess_pool_is_rejected() {
    let mut space = Space::build(2, 2).unwrap();
    let secret = space.choose_password();
    let pool: Vec<Row> = Vec::new();
    let keys: Vec<u64> = Vec::new();
    assert!(matches!(
        space.run_turn(&secret, &pool, &keys),
        Err(GameError::EmptyGuessPool)
    ));
    assert!(matches!(
        space.select_best_guess(&pool, &keys),
        Err(GameError::EmptyGuessPool)
    ));
}

#[test]
fn empty_candidate_set_is_fatal() {
    let mut space = Space::build(2, 2).unwrap();
    let guess = Row::new(vec![1, 2], 2).unwrap();
    // Feedback that no code can produce empties the candidate set.
    let impossible = Response::new(200, 200);
    space.trim_space(&guess, &impossible);
    assert_eq!(space.get_space_size(), 0);
    assert!(matches!(
        space.check_for_final_guess(&guess),
        Err(GameError::EmptyCandidateSet)
    ));
}

#[test]
fn response_accessors_agree() {
    let g = Row::new(vec![1, 2], 2).unwrap();
    let s = Row::new(vec![2, 2], 2).unwrap();
    let r = g.get_response(&s);
    assert_eq!(r.get_tuple(), (r.right_color(), r.right_place()));
    assert_eq!(r.get_tuple(), (0, 1));
}
