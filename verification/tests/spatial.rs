use spatial_audio::spatial::{pan, place, spatialize, volume, Listener, Mix, CENTER, FALLOFF_RANGE, UNIT};
use spatial_audio::vector::{Direction, Position, MAX_COORDINATE};

fn at(x: i32, y: i32, z: i32) -> Position {
    Position::new(x, y, z).unwrap()
}

fn facing_forward() -> Listener {
    Listener { position: Position::origin(), right: Direction::new(1, 0, 0) }
}

#[test]
fn source_five_units_to_the_right_is_full_right_at_full_volume() {
    let listener = facing_forward();
    let emitter = at(5_000, 0, 0);
    assert_eq!(pan(&listener, &emitter), 1_000_000);
    assert_eq!(volume(&listener, &emitter), 1_000_000);
}

#[test]
fn source_fifty_units_ahead_is_centered_at_a_fifth_of_the_volume() {
    let listener = facing_forward();
    let emitter = at(0, 0, -50_000);
    assert_eq!(pan(&listener, &emitter), 500_000);
    assert_eq!(volume(&listener, &emitter), 200_000);
}

#[test]
fn source_at_the_listener_is_centered_at_full_volume() {
    let listener = Listener { position: at(1_500, 2_500, -700), right: Direction::new(0, 0, 7) };
    let emitter = at(1_500, 2_500, -700);
    assert_eq!(pan(&listener, &emitter), CENTER);
    assert_eq!(volume(&listener, &emitter), UNIT);
}

#[test]
fn source_to_the_left_is_full_left() {
    let listener = facing_forward();
    assert_eq!(pan(&listener, &at(-5_000, 0, 0)), 0);
    assert_eq!(pan(&listener, &at(-1, 0, 0)), 0);
}

#[test]
fn source_behind_or_above_is_centered() {
    let listener = facing_forward();
    assert_eq!(pan(&listener, &at(0, 0, 30_000)), CENTER);
    assert_eq!(pan(&listener, &at(0, 12, 0)), CENTER);
    assert_eq!(pan(&listener, &at(0, -400, 900)), CENTER);
}

#[test]
fn pan_at_half_a_right_angle_is_rounded_toward_the_center() {
    let listener = facing_forward();
    // cos(45 degrees) is 0.70710678..., so the swing is 353553.39... rounded down.
    assert_eq!(pan(&listener, &at(1_000, 0, -1_000)), 853_553);
    assert_eq!(pan(&listener, &at(-1_000, 0, -1_000)), 146_447);
}

#[test]
fn pan_follows_the_cosine() {
    let listener = facing_forward();
    // cos is 3/5 and 4/5 in a 3-4-5 triangle.
    assert_eq!(pan(&listener, &at(3_000, 0, -4_000)), 800_000);
    assert_eq!(pan(&listener, &at(4_000, 3_000, 0)), 900_000);
    assert_eq!(pan(&listener, &at(-3_000, 4_000, 0)), 200_000);
}

#[test]
fn length_of_the_right_axis_does_not_matter() {
    let emitter = at(2_000, 700, -9_000);
    let short = Listener { position: at(10, 20, 30), right: Direction::new(1, 0, 0) };
    let long = Listener { position: at(10, 20, 30), right: Direction::new(32_767, 0, 0) };
    assert_eq!(pan(&short, &emitter), pan(&long, &emitter));
}

#[test]
fn right_axis_may_point_anywhere() {
    let listener = Listener { position: Position::origin(), right: Direction::new(0, 0, -1) };
    assert_eq!(pan(&listener, &at(0, 0, -8_000)), UNIT);
    assert_eq!(pan(&listener, &at(0, 0, 8_000)), 0);
    assert_eq!(pan(&listener, &at(8_000, 0, 0)), CENTER);
}

#[test]
fn missing_right_axis_gives_the_center() {
    let listener = Listener { position: Position::origin(), right: Direction::new(0, 0, 0) };
    assert_eq!(pan(&listener, &at(5_000, 0, 0)), CENTER);
}

#[test]
fn volume_is_full_up_to_the_falloff_range() {
    let listener = facing_forward();
    assert_eq!(volume(&listener, &at(1, 0, 0)), UNIT);
    assert_eq!(volume(&listener, &at(0, 9_999, 0)), UNIT);
    assert_eq!(volume(&listener, &at(0, 0, FALLOFF_RANGE as i32)), UNIT);
    assert_eq!(volume(&listener, &at(6_000, 8_000, 0)), UNIT);
}

#[test]
fn volume_is_the_range_over_the_distance() {
    let listener = facing_forward();
    assert_eq!(volume(&listener, &at(10_001, 0, 0)), 999_900);
    assert_eq!(volume(&listener, &at(0, 20_000, 0)), 500_000);
    assert_eq!(volume(&listener, &at(0, 0, 30_000)), 333_333);
    assert_eq!(volume(&listener, &at(0, -40_000, 30_000)), 200_000);
    assert_eq!(volume(&listener, &at(100_000_000, 0, 0)), 100);
}

#[test]
fn volume_depends_on_the_distance_only() {
    let listener = Listener { position: at(100, 200, 300), right: Direction::new(3, -2, 1) };
    let other = Listener { position: at(100, 200, 300), right: Direction::new(0, 5, 0) };
    let emitter = at(25_100, 200, 300);
    assert_eq!(volume(&listener, &emitter), 400_000);
    assert_eq!(volume(&other, &emitter), 400_000);
}

#[test]
fn volume_never_grows_with_the_distance_and_stays_above_zero() {
    let listener = facing_forward();
    let mut last: u32 = UNIT;
    let mut distance: i32 = 0;
    while distance <= MAX_COORDINATE {
        let level = volume(&listener, &at(0, 0, -distance));
        assert!(level > 0);
        assert!(level <= UNIT);
        assert!(level <= last);
        last = level;
        distance += 12_347;
    }
}

#[test]
fn pan_stays_in_range_all_around() {
    let listener = Listener { position: at(-40, 10, 5), right: Direction::new(7, -3, 2) };
    let steps: [i32; 7] = [-90_000, -1_000, -1, 0, 1, 1_000, 90_000];
    for x in steps {
        for y in steps {
            for z in steps {
                let level = pan(&listener, &at(x, y, z));
                assert!(level <= UNIT);
            }
        }
    }
}

#[test]
fn farthest_corners_do_not_overflow() {
    let m = MAX_COORDINATE;
    let listener = Listener { position: at(-m, -m, -m), right: Direction::new(-32_768, -32_768, -32_768) };
    let emitter = at(m, m, m);
    assert_eq!(pan(&listener, &emitter), 0);
    // The distance is 200000000 times the root of three: 346410161.5...
    assert_eq!(volume(&listener, &emitter), 28);
    let back = Listener { position: at(m, m, m), right: Direction::new(-32_768, -32_768, -32_768) };
    assert_eq!(pan(&back, &at(-m, -m, -m)), UNIT);
}

#[test]
fn place_gives_both_settings() {
    let listener = facing_forward();
    let emitter = at(3_000, 0, -4_000);
    assert_eq!(place(&listener, &emitter), Mix { pan: 800_000, volume: UNIT });
    let far = at(0, 0, -50_000);
    assert_eq!(place(&listener, &far), Mix { pan: 500_000, volume: 200_000 });
}

#[test]
fn pass_without_listener_does_nothing() {
    let emitters = vec![at(5_000, 0, 0), at(0, 0, -50_000)];
    assert_eq!(spatialize(None, &emitters), Vec::<Mix>::new());
}

#[test]
fn pass_without_sources_is_empty() {
    assert_eq!(spatialize(Some(facing_forward()), &Vec::new()), Vec::<Mix>::new());
}

#[test]
fn pass_sets_every_source_in_order() {
    let emitters = vec![at(5_000, 0, 0), at(0, 0, -50_000), at(0, 0, 0), at(-20_000, 0, 0)];
    let mixes = spatialize(Some(facing_forward()), &emitters);
    assert_eq!(
        mixes,
        vec![
            Mix { pan: 1_000_000, volume: 1_000_000 },
            Mix { pan: 500_000, volume: 200_000 },
            Mix { pan: 500_000, volume: 1_000_000 },
            Mix { pan: 0, volume: 500_000 },
        ]
    );
}

#[test]
fn two_passes_over_the_same_scene_agree() {
    let listener = Listener { position: at(0, 2_500, 10_000), right: Direction::new(1, 0, 0) };
    let emitters = vec![at(0, 2_500, 0), at(7_000, -300, 41_000), at(-9_000, 0, 0)];
    let first = spatialize(Some(listener), &emitters);
    let second = spatialize(Some(listener), &emitters);
    assert_eq!(first, second);
    assert_eq!(first[0], Mix { pan: 500_000, volume: 1_000_000 });
}

#[test]
fn order_of_the_sources_does_not_matter() {
    let listener = Listener { position: at(0, 2_500, 10_000), right: Direction::new(1, 0, 0) };
    let a = at(0, 2_500, 0);
    let b = at(7_000, -300, 41_000);
    let c = at(-9_000, 0, 0);
    let forward = spatialize(Some(listener), &vec![a, b, c]);
    let backward = spatialize(Some(listener), &vec![c, b, a]);
    assert_eq!(forward[0], backward[2]);
    assert_eq!(forward[1], backward[1]);
    assert_eq!(forward[2], backward[0]);
    assert_eq!(spatialize(Some(listener), &vec![b]), vec![forward[1]]);
}
