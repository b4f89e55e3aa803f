use rand::rngs::StdRng;
use rand::{Rng, SeedableRng};
use rendezvous::distr::Distr;
use rendezvous::pool::{Pool, ServerKey};
use rendezvous::registry::add_server_with_seed;

fn three_keys() -> (ServerKey, ServerKey, ServerKey) {
    let mut pool = Pool::new();
    let a = add_server_with_seed(&mut pool, 1, true);
    let b = add_server_with_seed(&mut pool, 2, true);
    let c = add_server_with_seed(&mut pool, 3, true);
    (a, b, c)
}

#[test]
fn empty_distribution_is_refused() {
    assert!(Distr::new(Vec::new()).is_none());
}

#[test]
fn falling_weights_are_refused() {
    let (a, b, c) = three_keys();
    assert!(Distr::new(vec![(a, 5), (b, 4), (c, 10)]).is_none());
    assert!(Distr::new(vec![(a, 5), (b, 9), (c, 8)]).is_none());
    assert!(Distr::new(vec![(a, 1), (b, 0)]).is_none());
}

#[test]
fn cumulative_weights_are_kept_as_given() {
    let (a, b, c) = three_keys();
    let entries = vec![(a, 5), (b, 5), (c, 10)];
    let distr = Distr::new(entries.clone()).unwrap();
    assert_eq!(distr.distr, entries);
    assert!(Distr::new(vec![(a, 0)]).is_some());
    assert!(Distr::new(vec![(a, 0), (b, 0), (c, 0)]).is_some());
}

#[test]
fn draw_picks_the_first_weight_that_reaches_it() {
    let (a, b, c) = three_keys();
    let distr = Distr::new(vec![(a, 5), (b, 8), (c, 10)]).unwrap();
    assert_eq!(distr.sample_at(0), a);
    assert_eq!(distr.sample_at(1), a);
    assert_eq!(distr.sample_at(5), a);
    assert_eq!(distr.sample_at(6), b);
    assert_eq!(distr.sample_at(8), b);
    assert_eq!(distr.sample_at(9), c);
    assert_eq!(distr.sample_at(10), c);
}

#[test]
fn candidate_without_weight_is_never_drawn() {
    let (a, b, c) = three_keys();
    let distr = Distr::new(vec![(a, 5), (b, 5), (c, 10)]).unwrap();
    for draw in 0..=10u64 {
        assert!(distr.sample_at(draw) != b);
    }
    let distr = Distr::new(vec![(a, 0), (b, 4), (c, 4)]).unwrap();
    assert_eq!(distr.sample_at(0), a);
    for draw in 1..=4u64 {
        assert_eq!(distr.sample_at(draw), b);
    }
}

#[test]
fn single_candidate_is_drawn_whatever_the_draw() {
    let (a, _, _) = three_keys();
    let distr = Distr::new(vec![(a, u64::MAX)]).unwrap();
    for draw in [0u64, 1, 1 << 40, u64::MAX - 1, u64::MAX] {
        assert_eq!(distr.sample_at(draw), a);
    }
    let distr = Distr::new(vec![(a, 0)]).unwrap();
    assert_eq!(distr.sample_at(0), a);
}

#[test]
fn long_distribution_is_searched_correctly() {
    let mut pool = Pool::new();
    let mut entries = Vec::new();
    for i in 0..37u64 {
        entries.push((add_server_with_seed(&mut pool, i, true), (i + 1) * 10));
    }
    let distr = Distr::new(entries.clone()).unwrap();
    for draw in 0..=370u64 {
        let place = if draw == 0 { 0 } else { (draw - 1) / 10 };
        assert_eq!(distr.sample_at(draw), entries[place as usize].0);
    }
}

#[test]
fn draws_converge_to_the_scores() {
    let (a, b, c) = three_keys();
    let scores = [0.5f64, 0.3, 0.2];
    let mut sum = 0.0f64;
    let mut entries = Vec::new();
    for (key, score) in [a, b, c].into_iter().zip(scores) {
        sum += score;
        entries.push((key, sum.to_bits()));
    }
    let distr = Distr::new(entries).unwrap();
    let mut rng = StdRng::seed_from_u64(7);
    let draws = 100_000;
    let mut counts = [0u32; 3];
    for _ in 0..draws {
        let draw: f64 = rng.random_range(0.0..sum);
        let key = distr.sample_at(draw.to_bits());
        if key == a {
            counts[0] += 1;
        } else if key == b {
            counts[1] += 1;
        } else {
            assert_eq!(key, c);
            counts[2] += 1;
        }
    }
    for (count, score) in counts.iter().zip(scores) {
        let share = *count as f64 / draws as f64;
        assert!((share - score).abs() < 0.02);
    }
}

#[test]
fn weightless_distribution_yields_its_first_candidate() {
    let (a, b, c) = three_keys();
    let distr = Distr::new(vec![(a, 0), (b, 0), (c, 0)]).unwrap();
    assert_eq!(distr.sample_at(0), a);
}
