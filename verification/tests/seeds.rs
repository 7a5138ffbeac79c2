use tdoa_solver::seeds::{schedule, seed_count, seeds, Seed};

#[test]
fn four_anchors_give_ten_seeds_in_order() {
    let plan = seeds(4).unwrap();
    assert_eq!(
        plan,
        vec![
            Seed::Anchor(0),
            Seed::Anchor(1),
            Seed::Anchor(2),
            Seed::Anchor(3),
            Seed::Midpoint(0, 1),
            Seed::Midpoint(0, 2),
            Seed::Midpoint(0, 3),
            Seed::Midpoint(1, 2),
            Seed::Midpoint(1, 3),
            Seed::Midpoint(2, 3),
        ]
    );
    assert_eq!(seed_count(4), Some(10));
}

#[test]
fn no_anchor_gives_no_seed() {
    assert_eq!(seeds(0), Some(vec![]));
    assert_eq!(seed_count(0), Some(0));
    assert_eq!(schedule(0, 5), Some(vec![]));
}

#[test]
fn one_anchor_gives_one_seed() {
    assert_eq!(seeds(1), Some(vec![Seed::Anchor(0)]));
    assert_eq!(seed_count(1), Some(1));
}

#[test]
fn two_anchors_give_three_seeds() {
    assert_eq!(
        seeds(2),
        Some(vec![Seed::Anchor(0), Seed::Anchor(1), Seed::Midpoint(0, 1)])
    );
}

#[test]
fn seed_count_is_anchors_plus_pairs() {
    for n in 0..40usize {
        let expected = n + n * n.saturating_sub(1) / 2;
        assert_eq!(seed_count(n), Some(expected));
        assert_eq!(seeds(n).unwrap().len(), expected);
    }
    assert_eq!(seed_count(5), Some(15));
    assert_eq!(seed_count(100), Some(5050));
}

#[test]
fn every_pair_is_a_seed_exactly_once() {
    let n = 7;
    let plan = seeds(n).unwrap();
    for i in 0..n {
        assert_eq!(plan[i], Seed::Anchor(i));
        for j in (i + 1)..n {
            let hits = plan.iter().filter(|s| **s == Seed::Midpoint(i, j)).count();
            assert_eq!(hits, 1);
        }
    }
    for seed in &plan[n..] {
        match *seed {
            Seed::Midpoint(i, j) => assert!(i < j && j < n),
            Seed::Anchor(_) => panic!("an anchor after the anchors"),
        }
    }
}

#[test]
fn pairs_rise_lexicographically() {
    let n = 9;
    let plan = seeds(n).unwrap();
    let pairs: Vec<(usize, usize)> = plan[n..]
        .iter()
        .map(|s| match *s {
            Seed::Midpoint(i, j) => (i, j),
            Seed::Anchor(_) => panic!("an anchor after the anchors"),
        })
        .collect();
    for w in pairs.windows(2) {
        assert!(w[0] < w[1]);
    }
}

#[test]
fn schedule_repeats_the_plan() {
    let plan = seeds(3).unwrap();
    let starts = schedule(3, 4).unwrap();
    assert_eq!(starts.len(), 6 * 4);
    for (k, seed) in starts.iter().enumerate() {
        assert_eq!(*seed, plan[k % 6]);
    }
    assert_eq!(schedule(3, 1), Some(plan));
}

#[test]
fn schedule_of_no_cycle_is_empty() {
    assert_eq!(schedule(4, 0), Some(vec![]));
}

#[test]
fn counts_beyond_the_machine_are_refused() {
    assert_eq!(seed_count(usize::MAX), None);
    assert_eq!(seeds(usize::MAX), None);
    assert_eq!(schedule(usize::MAX, 1), None);
    assert_eq!(schedule(4, usize::MAX), None);
    assert_eq!(schedule(4, usize::MAX / 10 + 1), None);
}
