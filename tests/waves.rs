use territorial::map::{map_setup, TileMap};
use territorial::wave::{
    move_enemies, move_enemy, wave_spawner, waves_setup, Enemy, EnemyStep, Wave, Waves,
    STEP_TIME_MS, TIME_BETWEEN_SPAWNS_MS,
};

fn full_floor_map() -> TileMap {
    let mut map = map_setup();
    for y in 0..map.height {
        for x in 0..map.width {
            let _ = map.set_floor(x, y);
        }
    }
    map
}

fn run_wave(waves: &mut Waves) {
    waves.next_wave();
    let n = waves.active_wave().unwrap().num_enemies;
    for _ in 0..n {
        waves.enemy_spawned();
    }
    for _ in 0..n {
        waves.enemy_finished();
    }
}

#[test]
fn new_ledger_is_idle() {
    let waves = waves_setup();
    assert!(!waves.is_active());
    assert_eq!(waves.active_wave(), None);
    assert!(waves.previous_waves().is_empty());
    assert_eq!(waves.time_since_last_wave_spawned(), 0);
}

#[test]
fn wave_quota_grows_by_one() {
    let mut waves = waves_setup();
    for n in 1..=4usize {
        waves.next_wave();
        assert_eq!(
            waves.active_wave(),
            Some(Wave { num_enemies: n, spawned_enemies: 0, finished_enemies: 0 })
        );
        run_wave_rest(&mut waves, n);
        assert!(!waves.is_active());
        assert_eq!(waves.previous_waves().len(), n);
    }
    let quotas: Vec<usize> = waves.previous_waves().iter().map(|w| w.num_enemies).collect();
    assert_eq!(quotas, vec![1, 2, 3, 4]);
}

fn run_wave_rest(waves: &mut Waves, n: usize) {
    for _ in 0..n {
        waves.enemy_spawned();
    }
    for _ in 0..n {
        waves.enemy_finished();
    }
}

#[test]
fn next_wave_while_active_is_noop() {
    let mut waves = waves_setup();
    waves.next_wave();
    waves.enemy_spawned();
    waves.next_wave();
    assert_eq!(
        waves.active_wave(),
        Some(Wave { num_enemies: 1, spawned_enemies: 1, finished_enemies: 0 })
    );
}

#[test]
fn end_wave_is_noop_until_complete() {
    let mut waves = waves_setup();
    run_wave(&mut waves);
    waves.next_wave();
    // quota 2, nothing spawned
    waves.end_wave();
    assert!(waves.is_active());
    waves.enemy_spawned();
    waves.enemy_finished();
    // one of two sent and arrived
    waves.end_wave();
    assert_eq!(
        waves.active_wave(),
        Some(Wave { num_enemies: 2, spawned_enemies: 1, finished_enemies: 1 })
    );
    waves.enemy_spawned();
    // both sent, one arrived
    waves.end_wave();
    assert!(waves.is_active());
    waves.enemy_finished();
    assert!(!waves.is_active());
    assert_eq!(waves.previous_waves().len(), 2);
    assert_eq!(
        waves.previous_waves()[1],
        Wave { num_enemies: 2, spawned_enemies: 2, finished_enemies: 2 }
    );
}

#[test]
fn spawn_and_finish_without_active_wave_are_noops() {
    let mut waves = waves_setup();
    waves.enemy_spawned();
    waves.enemy_finished();
    waves.end_wave();
    assert!(!waves.is_active());
    assert!(waves.previous_waves().is_empty());
}

#[test]
fn finish_without_spawn_is_ignored() {
    let mut waves = waves_setup();
    waves.next_wave();
    waves.enemy_finished();
    assert_eq!(
        waves.active_wave(),
        Some(Wave { num_enemies: 1, spawned_enemies: 0, finished_enemies: 0 })
    );
    waves.enemy_spawned();
    waves.enemy_spawned();
    assert_eq!(waves.active_wave().unwrap().spawned_enemies, 1);
}

#[test]
fn single_enemy_reaching_end_completes_wave_one() {
    let map = full_floor_map();
    let mut waves = waves_setup();
    waves.next_wave();
    waves.enemy_spawned();
    let mut enemy = Enemy { target_x: 4, target_y: 4, current_x: 3, current_y: 4, progress: 0 };
    let step = move_enemy(&map, &mut waves, &mut enemy, STEP_TIME_MS);
    assert_eq!(step, EnemyStep::Finished);
    assert_eq!((enemy.current_x, enemy.current_y), (4, 4));
    assert!(!waves.is_active());
    assert_eq!(waves.previous_waves().len(), 1);
}

#[test]
fn enemy_takes_next_step_after_threshold() {
    let map = full_floor_map();
    let mut waves = waves_setup();
    let mut enemy = Enemy { target_x: 2, target_y: 2, current_x: 2, current_y: 2, progress: 0 };
    assert_eq!(move_enemy(&map, &mut waves, &mut enemy, 1500), EnemyStep::Moving);
    assert_eq!(enemy.progress, 1500);
    assert_eq!(move_enemy(&map, &mut waves, &mut enemy, 2600), EnemyStep::Stepped);
    assert_eq!((enemy.current_x, enemy.current_y), (2, 2));
    let target = (enemy.target_x, enemy.target_y);
    assert!(target == (3, 2) || target == (2, 3));
    assert_eq!(enemy.progress, 0);
}

#[test]
fn enemy_with_no_route_is_stuck_and_unchanged() {
    let mut map = map_setup();
    assert_eq!(map.set_floor(1, 0), Ok(true));
    let mut waves = waves_setup();
    let before = Enemy { target_x: 1, target_y: 0, current_x: 0, current_y: 0, progress: 3999 };
    let mut enemy = before;
    assert_eq!(move_enemy(&map, &mut waves, &mut enemy, 1), EnemyStep::Stuck);
    assert_eq!(enemy, before);
}

#[test]
fn progress_saturation_does_not_overflow() {
    let map = full_floor_map();
    let mut waves = waves_setup();
    let mut enemy = Enemy { target_x: 1, target_y: 0, current_x: 0, current_y: 0, progress: 10 };
    assert_eq!(move_enemy(&map, &mut waves, &mut enemy, u64::MAX), EnemyStep::Stepped);
    assert_eq!((enemy.current_x, enemy.current_y), (1, 0));
}

#[test]
fn spawner_waits_then_sends_one_enemy_per_tick() {
    let map = full_floor_map();
    let mut waves = waves_setup();
    waves.next_wave();
    waves.next_wave();
    assert_eq!(wave_spawner(&mut waves, &map, 2000), None);
    assert_eq!(waves.time_since_last_wave_spawned(), 2000);
    assert_eq!(wave_spawner(&mut waves, &map, 2000), None);
    assert_eq!(waves.time_since_last_wave_spawned(), 4000);
    let e = wave_spawner(&mut waves, &map, 16).expect("an enemy is sent");
    assert_eq!(e, Enemy { target_x: 0, target_y: 0, current_x: 0, current_y: 0, progress: 0 });
    assert_eq!(waves.time_since_last_wave_spawned(), 0);
    assert_eq!(waves.active_wave().unwrap().spawned_enemies, 1);
    // quota of the first wave is one: the next due tick sends nobody
    assert_eq!(wave_spawner(&mut waves, &map, TIME_BETWEEN_SPAWNS_MS), None);
    assert_eq!(wave_spawner(&mut waves, &map, 0), None);
    assert_eq!(waves.active_wave().unwrap().spawned_enemies, 1);
}

#[test]
fn spawner_without_wave_only_resets_timer() {
    let map = map_setup();
    let mut waves = waves_setup();
    assert_eq!(wave_spawner(&mut waves, &map, u64::MAX), None);
    assert_eq!(waves.time_since_last_wave_spawned(), u64::MAX);
    assert_eq!(wave_spawner(&mut waves, &map, 5), None);
    assert_eq!(waves.time_since_last_wave_spawned(), 0);
}

#[test]
fn enemies_walk_from_start_to_end() {
    let map = full_floor_map();
    let mut waves = waves_setup();
    waves.next_wave();
    waves.enemy_spawned();
    let mut enemies = vec![Enemy { target_x: 0, target_y: 0, current_x: 0, current_y: 0, progress: 0 }];
    let mut stepped = 0;
    let mut finished = false;
    for _ in 0..20 {
        let steps = move_enemies(&map, &mut waves, &mut enemies, STEP_TIME_MS);
        assert_eq!(steps.len(), 1);
        match steps[0] {
            EnemyStep::Stepped => stepped += 1,
            EnemyStep::Finished => {
                finished = true;
                break;
            }
            other => panic!("unexpected step {:?}", other),
        }
    }
    assert!(finished);
    // one step onto the start cell, then eight cells to the end
    assert_eq!(stepped, 8);
    assert!(!waves.is_active());
    assert_eq!(waves.previous_waves().len(), 1);
}
