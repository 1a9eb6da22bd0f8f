use hexes::components::{Agent, Spawner, Transform};
use hexes::hex::Axial;
use hexes::systems::spawn_agents;

#[test]
fn spawner_starts_armed() {
    let s = Spawner::new(120);
    assert_eq!(s.period, 120);
    assert_eq!(s.counter, 1);
    let _ = Agent::new();
    let t = Transform::new(Axial::new(2, -8));
    assert_eq!(t.position, Axial::new(2, -8));
}

#[test]
fn spawners_fire_on_their_period() {
    let home = Axial::new(-5, -7);
    let other = Axial::new(12, -15);
    let mut spawners = vec![
        (Transform::new(home), Spawner::new(3)),
        (Transform::new(other), Spawner::new(2)),
    ];
    // tick 1: both counters hit zero, both fire and reset
    let spawns = spawn_agents(&mut spawners);
    assert_eq!(spawns, vec![home, other]);
    assert_eq!(spawners[0].1.counter, 3);
    assert_eq!(spawners[1].1.counter, 2);
    // tick 2: nobody fires
    let spawns = spawn_agents(&mut spawners);
    assert_eq!(spawns, Vec::<Axial>::new());
    // tick 3: the period-2 spawner fires again
    let spawns = spawn_agents(&mut spawners);
    assert_eq!(spawns, vec![other]);
    // tick 4: the period-3 spawner fires
    let spawns = spawn_agents(&mut spawners);
    assert_eq!(spawns, vec![home]);
    // positions never change
    assert_eq!(spawners[0].0.position, home);
    assert_eq!(spawners[1].0.position, other);
}
