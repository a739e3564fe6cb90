use dark_bassline::rhythm::{euclidean, rotate};

fn onsets(p: &[bool; 16]) -> usize {
    p.iter().filter(|&&x| x).count()
}

#[test]
fn test_euclidean_4_16() {
    let p = euclidean(4, 16);
    assert_eq!(p.iter().filter(|&&x| x).count(), 4);
    // Evenly spaced: every 4th step
    assert!(p[0]);
    assert!(p[4]);
    assert!(p[8]);
    assert!(p[12]);
}

#[test]
fn test_euclidean_3_8() {
    let p = euclidean(3, 8);
    assert_eq!(p.iter().take(8).filter(|&&x| x).count(), 3);
}

#[test]
fn test_euclidean_0() {
    let p = euclidean(0, 16);
    assert!(p.iter().all(|&x| !x));
}

#[test]
fn test_euclidean_full() {
    let p = euclidean(16, 16);
    assert!(p.iter().all(|&x| x));
}

#[test]
fn test_rotate() {
    let p = euclidean(4, 16);
    let r = rotate(&p, 2);
    // Unrotated: [1,0,0,0,1,0,0,0,1,0,0,0,1,0,0,0]
    // Rotated 2: [0,0,1,0,0,0,1,0,0,0,1,0,0,0,1,0]
    assert!(r[2]);
    assert!(r[6]);
    assert!(r[10]);
    assert!(r[14]);
}

#[test]
fn euclidean_3_8_matches_documented_tresillo() {
    let p = euclidean(3, 8);
    let expected = [true, false, false, true, false, false, true, false];
    assert_eq!(&p[..8], &expected[..]);
    assert!(p[8..].iter().all(|&x| !x));
}

#[test]
fn euclidean_onset_count_is_capped_hits_for_all_inputs() {
    for steps in 0..=20u8 {
        for hits in 0..=20u8 {
            let used_steps = steps.min(16) as usize;
            let expected = (hits as usize).min(used_steps);
            let p = euclidean(hits, steps);
            assert_eq!(onsets(&p), expected, "hits {hits} steps {steps}");
            assert!(p[used_steps.min(16)..].iter().all(|&x| !x));
            if expected > 0 {
                assert!(p[0], "the first step always sounds");
            }
        }
    }
}

#[test]
fn euclidean_caps_steps_at_a_bar() {
    assert_eq!(euclidean(5, 200), euclidean(5, 16));
    assert_eq!(onsets(&euclidean(200, 200)), 16);
}

#[test]
fn rotate_composes_and_inverts() {
    let p = euclidean(5, 16);
    assert_eq!(rotate(&rotate(&p, 3), 7), rotate(&p, 10));
    assert_eq!(rotate(&rotate(&p, 9), 16 - 9), p);
    assert_eq!(rotate(&p, 0), p);
    assert_eq!(rotate(&p, 32), p);
    assert_eq!(onsets(&rotate(&p, 11)), onsets(&p));
}

#[test]
fn rotate_moves_each_step_right() {
    let mut p = [false; 16];
    p[15] = true;
    let r = rotate(&p, 1);
    assert!(r[0]);
    assert_eq!(onsets(&r), 1);
}

#[test]
fn onsets_sit_at_rounded_up_multiples_of_steps_over_hits() {
    let p = euclidean(5, 16);
    let positions: Vec<usize> = (0..16).filter(|&i| p[i]).collect();
    assert_eq!(positions, vec![0, 4, 7, 10, 13]);
    for steps in 1..=16usize {
        for hits in 1..=steps {
            let p = euclidean(hits as u8, steps as u8);
            let positions: Vec<usize> = (0..16).filter(|&i| p[i]).collect();
            let expected: Vec<usize> = (0..hits).map(|j| (j * steps + hits - 1) / hits).collect();
            assert_eq!(positions, expected);
            let mut gaps: Vec<usize> = positions.windows(2).map(|w| w[1] - w[0]).collect();
            gaps.push(steps - positions[hits - 1]);
            for g in gaps {
                assert!(g == steps / hits || g == (steps + hits - 1) / hits);
            }
        }
    }
}
