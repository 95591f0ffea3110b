use std::collections::VecDeque;
use synesthesia::bounded::{push_capped, push_evicting_oldest, push_unless_full};
use synesthesia::gravity::{orbit_planet, respawn_planet, MAX_PLANETS, PARTICLE_COUNT, TRAIL_MAX};

#[test]
fn particles_dealt_round_robin() {
    let counts = (0..PARTICLE_COUNT).fold(vec![0; 3], |mut c, i| {
        c[orbit_planet(i, 3)] += 1;
        c
    });
    assert_eq!(counts, vec![267, 267, 266]);
    assert_eq!(orbit_planet(7, 3), 1);
    assert_eq!(orbit_planet(5, 6), 5);
    assert_eq!(orbit_planet(0, 1), 0);
}

#[test]
fn respawn_planet_in_range() {
    for n in 1..10 {
        for _ in 0..100 {
            assert!(respawn_planet(n) < n);
        }
    }
    assert_eq!(respawn_planet(1), 0);
}

#[test]
fn seventh_planet_evicts_the_oldest() {
    let mut planets: Vec<u32> = Vec::new();
    for p in 1..=6 {
        push_evicting_oldest(&mut planets, p, MAX_PLANETS);
    }
    assert_eq!(planets, vec![1, 2, 3, 4, 5, 6]);
    push_evicting_oldest(&mut planets, 7, MAX_PLANETS);
    assert_eq!(planets, vec![2, 3, 4, 5, 6, 7]);
    push_evicting_oldest(&mut planets, 8, MAX_PLANETS);
    assert_eq!(planets, vec![3, 4, 5, 6, 7, 8]);
}

#[test]
fn trail_keeps_newest_points() {
    let mut trail: VecDeque<u32> = VecDeque::new();
    for i in 0..TRAIL_MAX as u32 {
        push_capped(&mut trail, i, TRAIL_MAX);
    }
    assert_eq!(trail.len(), TRAIL_MAX);
    assert_eq!(trail.front(), Some(&0));
    push_capped(&mut trail, 1000, TRAIL_MAX);
    assert_eq!(trail.len(), TRAIL_MAX);
    assert_eq!(trail.front(), Some(&1));
    assert_eq!(trail.back(), Some(&1000));
}

#[test]
fn hits_capped() {
    let mut hits: Vec<u8> = Vec::new();
    for i in 0..20 {
        assert!(push_unless_full(&mut hits, i, 20));
    }
    assert!(!push_unless_full(&mut hits, 99, 20));
    assert_eq!(hits.len(), 20);
    assert_eq!(hits[19], 19);
}

#[test]
fn respawn_planet_varies() {
    let mut seen = [false; 5];
    for _ in 0..500 {
        seen[respawn_planet(5)] = true;
    }
    assert!(seen.iter().filter(|s| **s).count() >= 2);
}
