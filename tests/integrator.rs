use raytr::integrator::{next_step, radiance, Event, Shading, Step, MAX_DEPTH};
use raytr::materials::ScatterResult;

#[test]
fn miss_gives_background_at_any_depth() {
    for depth in [0, 1, 25, 49, 50, 51, 1000] {
        assert_eq!(next_step(depth, Event::Miss), Step::Background);
    }
}

#[test]
fn scattering_hit_bounces_below_the_limit() {
    assert_eq!(next_step(0, Event::Hit { scatters: true }), Step::Bounce);
    assert_eq!(next_step(49, Event::Hit { scatters: true }), Step::Bounce);
    assert_eq!(next_step(50, Event::Hit { scatters: true }), Step::Emitted);
}

#[test]
fn absorbing_hit_gives_emitted_light() {
    assert_eq!(next_step(0, Event::Hit { scatters: false }), Step::Emitted);
    assert_eq!(next_step(70, Event::Hit { scatters: false }), Step::Emitted);
}

#[test]
fn hall_of_mirrors_stops_at_the_depth_limit() {
    let mut depth: u32 = 0;
    let mut vertices = 0;
    loop {
        vertices += 1;
        match next_step(depth, Event::Hit { scatters: true }) {
            Step::Bounce => depth += 1,
            _ => break,
        }
    }
    assert_eq!(depth, MAX_DEPTH);
    assert_eq!(vertices, 51);
}

/// A scene made of two parallel mirrors: every ray hits one, every hit
/// emits one unit of light and reflects all of what comes back.
struct HallOfMirrors;

/// A scene with nothing in it.
struct EmptyScene;

impl Shading for HallOfMirrors {
    type Ray = u32;
    type Hit = u32;
    type Colour = u64;

    fn trace(&self, ray: &u32) -> Option<u32> {
        Some(*ray)
    }

    fn scatter(&self, _: &u32, hit: &u32) -> Option<ScatterResult<u64, u32>> {
        Some(ScatterResult { attenuation: 1, scattered_ray: hit + 1 })
    }

    fn emitted(&self, _: &u32) -> u64 {
        1
    }

    fn background(&self) -> u64 {
        1000
    }

    fn combine(emitted: u64, attenuation: u64, incoming: u64) -> u64 {
        emitted + attenuation * incoming
    }
}

impl Shading for EmptyScene {
    type Ray = u32;
    type Hit = u32;
    type Colour = u64;

    fn trace(&self, _: &u32) -> Option<u32> {
        None
    }

    fn scatter(&self, _: &u32, _: &u32) -> Option<ScatterResult<u64, u32>> {
        None
    }

    fn emitted(&self, _: &u32) -> u64 {
        5
    }

    fn background(&self) -> u64 {
        7
    }

    fn combine(emitted: u64, attenuation: u64, incoming: u64) -> u64 {
        emitted + attenuation * incoming
    }
}

#[test]
fn radiance_of_a_miss_is_the_background() {
    for depth in [0, 10, 50, 80] {
        assert_eq!(radiance(&EmptyScene, &0, depth), 7);
    }
}

#[test]
fn radiance_between_mirrors_stops_at_the_depth_limit() {
    // 51 vertices, from depth 0 to depth 50, each emitting one unit.
    assert_eq!(radiance(&HallOfMirrors, &0, 0), 51);
    assert_eq!(radiance(&HallOfMirrors, &0, 40), 11);
    assert_eq!(radiance(&HallOfMirrors, &0, 50), 1);
    assert_eq!(radiance(&HallOfMirrors, &0, 60), 1);
}

#[test]
fn radiance_accumulates_from_the_innermost_bounce() {
    struct Doubling;
    impl Shading for Doubling {
        type Ray = u32;
        type Hit = u32;
        type Colour = u64;

        fn trace(&self, ray: &u32) -> Option<u32> {
            if *ray < 3 { Some(*ray) } else { None }
        }

        fn scatter(&self, _: &u32, hit: &u32) -> Option<ScatterResult<u64, u32>> {
            Some(ScatterResult { attenuation: 2, scattered_ray: hit + 1 })
        }

        fn emitted(&self, hit: &u32) -> u64 {
            10 * (*hit as u64 + 1)
        }

        fn background(&self) -> u64 {
            1
        }

        fn combine(emitted: u64, attenuation: u64, incoming: u64) -> u64 {
            emitted + attenuation * incoming
        }
    }
    // 10 + 2 * (20 + 2 * (30 + 2 * 1))
    assert_eq!(radiance(&Doubling, &0, 0), 10 + 2 * (20 + 2 * (30 + 2 * 1)));
}
