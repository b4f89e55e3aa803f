use rand::rngs::StdRng;
use rand::{Rng, SeedableRng};
use rand_distr::{Distribution, Zipf};
use rendezvous::distr::Distr;
use rendezvous::pool::{Pool, Routed, ServerKey};
use rendezvous::registry::{add_server_with_seed, run_load_inner, server_count, view_server_load};
use rendezvous::select::{rendezvous_hash, K};

struct Backend {
    key: ServerKey,
    health: f64,
    error_rate: f64,
}

fn clamp_health(health: f64) -> f64 {
    health.clamp(0.01, 1.0)
}

fn route(pool: &Pool, backends: &[Backend], request: u64, rng: &mut StdRng) -> usize {
    let ranked = rendezvous_hash(pool, K, request);
    let mut sum = 0.0f64;
    let mut entries = Vec::new();
    for (rank, key) in ranked.iter().enumerate() {
        let backend = backends.iter().find(|backend| backend.key == *key).unwrap();
        sum += 0.5 / (rank + 1) as f64 * backend.health;
        entries.push((*key, sum.to_bits()));
    }
    let draw: f64 = rng.random_range(0.0..sum);
    let choice = Distr::new(entries).unwrap().sample_at(draw.to_bits());
    backends.iter().position(|backend| backend.key == choice).unwrap()
}

fn run_tick(pool: &mut Pool, backends: &mut [Backend], n: usize, rng: &mut StdRng) {
    if server_count(pool) == 0 {
        return;
    }
    let zipf = Zipf::new(100000.0, 0.9).unwrap();
    let mut routed = Vec::new();
    for _ in 0..n {
        let request = zipf.sample(rng) as u64;
        let at = route(pool, backends, request, rng);
        let error = rng.random_bool(backends[at].error_rate);
        let health = backends[at].health;
        backends[at].health = clamp_health(if error { health * 0.5 } else { health + 0.01 });
        routed.push(Routed { server: backends[at].key, error, request });
    }
    assert_eq!(run_load_inner(pool, &routed), n);
}

fn routed_to(pool: &Pool, key: &ServerKey) -> u64 {
    view_server_load(pool, key).iter().map(|slot| slot.total as u64).sum()
}

#[test]
fn degraded_server_gets_less_than_its_share() {
    let mut pool = Pool::new();
    let mut backends = Vec::new();
    for i in 0..10u64 {
        let key = add_server_with_seed(&mut pool, 0x9e3779b97f4a7c15u64.wrapping_mul(i + 1), true);
        let error_rate = if i == 0 { 0.25 } else { 0.05 };
        backends.push(Backend { key, health: 0.01, error_rate });
    }
    assert_eq!(server_count(&pool), 10);
    let mut rng = StdRng::seed_from_u64(2024);
    for _ in 0..100 {
        run_tick(&mut pool, &mut backends, 100, &mut rng);
    }
    let totals: Vec<u64> = backends.iter().map(|backend| routed_to(&pool, &backend.key)).collect();
    assert_eq!(totals.iter().sum::<u64>(), 10_000);
    let share = totals[0] as f64 / 10_000.0;
    assert!(share < 0.1);
    assert!(share > 0.0);
    for total in &totals[1..] {
        assert!(*total > totals[0]);
    }
    for backend in &backends {
        assert!(backend.health >= 0.01 && backend.health <= 1.0);
    }
}

#[test]
fn errors_and_hits_add_up_across_a_run() {
    let mut pool = Pool::new();
    let mut backends = Vec::new();
    for i in 0..4u64 {
        let key = add_server_with_seed(&mut pool, i + 1, true);
        backends.push(Backend { key, health: 0.01, error_rate: 0.5 });
    }
    let mut rng = StdRng::seed_from_u64(5);
    for _ in 0..20 {
        run_tick(&mut pool, &mut backends, 250, &mut rng);
    }
    let mut total = 0u64;
    for backend in &backends {
        for slot in view_server_load(&pool, &backend.key) {
            assert!(slot.errors + slot.cached <= slot.total);
            total += slot.total as u64;
        }
    }
    assert_eq!(total, 5_000);
}

#[test]
fn empty_pool_skips_the_tick() {
    let mut pool = Pool::new();
    let mut backends: Vec<Backend> = Vec::new();
    let mut rng = StdRng::seed_from_u64(1);
    run_tick(&mut pool, &mut backends, 1000, &mut rng);
    assert_eq!(server_count(&pool), 0);
}

#[test]
fn single_server_takes_every_request() {
    let mut pool = Pool::new();
    let key = add_server_with_seed(&mut pool, 99, true);
    let mut backends = vec![Backend { key, health: 0.01, error_rate: 0.9 }];
    let mut rng = StdRng::seed_from_u64(3);
    for _ in 0..10 {
        run_tick(&mut pool, &mut backends, 50, &mut rng);
    }
    assert_eq!(routed_to(&pool, &key), 500);
}
