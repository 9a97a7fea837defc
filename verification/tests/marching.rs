use fireball::march::sphere_trace;
use fireball::march::Probe;
use fireball::march::MARCH_CAP;

use std::cell::Cell;

#[test]
fn the_cap_is_128_samples() {
    assert_eq!(MARCH_CAP, 128);
}

#[test]
fn a_culled_ray_hits_nothing_and_is_never_sampled() {
    let hit = sphere_trace(5u32, true, &|_p: u32| -> Probe<u32> {
        panic!("a culled ray was sampled")
    });
    assert_eq!(hit, None);
}

#[test]
fn an_origin_inside_is_the_hit() {
    let samples = Cell::new(0usize);
    let hit = sphere_trace(42i64, false, &|_p: i64| {
        samples.set(samples.get() + 1);
        Probe::Inside
    });
    assert_eq!(hit, Some(42));
    assert_eq!(samples.get(), 1);
}

#[test]
fn the_first_sample_inside_is_the_hit() {
    let samples = Cell::new(0usize);
    let hit = sphere_trace(0i64, false, &|p: i64| {
        samples.set(samples.get() + 1);
        if p >= 10 {
            Probe::Inside
        } else {
            Probe::Outside(p + 3)
        }
    });
    assert_eq!(hit, Some(12));
    assert_eq!(samples.get(), 5);
}

#[test]
fn the_march_follows_the_points_it_is_given() {
    let visited = Cell::new(0u64);
    let hit = sphere_trace(1u64, false, &|p: u64| {
        visited.set(visited.get() * 10 + p);
        if p == 4 {
            Probe::Inside
        } else {
            Probe::Outside(p + 1)
        }
    });
    assert_eq!(hit, Some(4));
    assert_eq!(visited.get(), 1234);
}

#[test]
fn a_ray_that_stays_outside_gives_up_at_the_cap() {
    let samples = Cell::new(0usize);
    let hit = sphere_trace(0u32, false, &|p: u32| {
        samples.set(samples.get() + 1);
        Probe::Outside(p + 1)
    });
    assert_eq!(hit, None);
    assert_eq!(samples.get(), 128);
}

#[test]
fn the_last_sample_under_the_cap_can_still_hit() {
    let samples = Cell::new(0usize);
    let hit = sphere_trace(0u32, false, &|p: u32| {
        samples.set(samples.get() + 1);
        if p == 127 {
            Probe::Inside
        } else {
            Probe::Outside(p + 1)
        }
    });
    assert_eq!(hit, Some(127));
    assert_eq!(samples.get(), 128);
}

#[test]
fn a_surface_one_sample_beyond_the_cap_is_missed() {
    let samples = Cell::new(0usize);
    let hit = sphere_trace(0u32, false, &|p: u32| {
        samples.set(samples.get() + 1);
        if p == 128 {
            Probe::Inside
        } else {
            Probe::Outside(p + 1)
        }
    });
    assert_eq!(hit, None);
    assert_eq!(samples.get(), 128);
}

#[test]
fn a_march_that_does_not_move_still_ends() {
    let samples = Cell::new(0usize);
    let hit = sphere_trace(7u8, false, &|p: u8| {
        samples.set(samples.get() + 1);
        Probe::Outside(p)
    });
    assert_eq!(hit, None);
    assert_eq!(samples.get(), 128);
}
