use crate::dijkstra::{is_path, reachable, Pathfind};
use crate::map::{Tile, TileMap};
use vstd::prelude::*;

verus! {

/// Time between two spawn ticks, in milliseconds.
pub const TIME_BETWEEN_SPAWNS_MS: u64 = 3000;

/// Time an enemy takes to cross one cell, in milliseconds.
pub const STEP_TIME_MS: u64 = 4000;

/// One wave: how many enemies it sends, how many have been sent, and how
/// many have reached the goal.
#[derive(Debug, Clone, Copy, PartialEq, Eq, Structural)]
pub struct Wave {
    pub num_enemies: usize,
    pub spawned_enemies: usize,
    pub finished_enemies: usize,
}

/// The active wave, if any, and the completed waves in completion order.
pub type Ledger = (Option<Wave>, Seq<Wave>);

/// A wave is complete once every enemy was sent and has arrived.
pub open spec fn wave_complete(w: Wave) -> bool {
    w.spawned_enemies >= w.num_enemies && w.finished_enemies >= w.num_enemies
}

/// What `end_wave` makes of a ledger: a complete active wave moves to the
/// end of the completed waves; anything else is left as it is.
pub open spec fn end_step(l: Ledger) -> Ledger {
    match l.0 {
        Some(w) => if wave_complete(w) {
            (None, l.1.push(w))
        } else {
            l
        },
        None => l,
    }
}

/// What `enemy_finished` makes of a ledger: one more arrival in the active
/// wave (while fewer have arrived than were sent), then `end_step` once
/// every enemy of the wave has arrived.
pub open spec fn finish_step(l: Ledger) -> Ledger {
    match l.0 {
        Some(w) => if w.finished_enemies < w.spawned_enemies {
            let w2 = Wave { finished_enemies: (w.finished_enemies + 1) as usize, ..w };
            if w2.finished_enemies >= w2.num_enemies {
                end_step((Some(w2), l.1))
            } else {
                (Some(w2), l.1)
            }
        } else {
            l
        },
        None => l,
    }
}

/// `finish_step` applied `k` times.
pub open spec fn finish_steps(l: Ledger, k: nat) -> Ledger
    decreases k,
{
    if k == 0 {
        l
    } else {
        finish_step(finish_steps(l, (k - 1) as nat))
    }
}

/// The wave bookkeeping of a session.
pub struct Waves {
    active_wave: Option<Wave>,
    previous_waves: Vec<Wave>,
    time_since_last_wave_spawned: u64,
}

impl Waves {
    pub closed spec fn ledger(&self) -> Ledger {
        (self.active_wave, self.previous_waves@)
    }

    /// Milliseconds since the last spawn tick.
    pub closed spec fn timer(&self) -> u64 {
        self.time_since_last_wave_spawned
    }

    /// The active wave never counts more arrivals than spawns, nor more
    /// spawns than its quota; the `i`-th completed wave had `i + 1` enemies
    /// and the active one has one more than the last completed.
    pub open spec fn wf(&self) -> bool {
        ledger_wf(self.ledger())
    }

    /// Starts the next wave, with one more enemy than the number of waves
    /// completed so far; does nothing while a wave is active.
    pub fn next_wave(&mut self)
        requires
            old(self).wf(),
        ensures
            final(self).wf(),
            final(self).timer() == old(self).timer(),
            old(self).ledger().0 is Some ==> final(self).ledger() == old(self).ledger(),
            old(self).ledger().0 is None && old(self).ledger().1.len() < usize::MAX ==> final(self).ledger() == (
                Some(
                    Wave {
                        num_enemies: (old(self).ledger().1.len() + 1) as usize,
                        spawned_enemies: 0,
                        finished_enemies: 0,
                    },
                ),
                old(self).ledger().1,
            ),
            old(self).ledger().1.len() == usize::MAX ==> final(self).ledger() == old(self).ledger(),
    {
        if self.active_wave.is_some() {
            return;
        }
        let done = self.previous_waves.len();
        if done == usize::MAX {
            return;
        }
        let num_enemies = done + 1;
        self.active_wave = Some(Wave { num_enemies, spawned_enemies: 0, finished_enemies: 0 });
    }

    /// Counts one more enemy of the active wave as sent, while fewer than its
    /// quota have been sent; does nothing otherwise.
    pub fn enemy_spawned(&mut self)
        requires
            old(self).wf(),
        ensures
            final(self).wf(),
            final(self).timer() == old(self).timer(),
            final(self).ledger() == spawn_step(old(self).ledger()),
    {
        if let Some(wave) = &mut self.active_wave {
            if wave.spawned_enemies < wave.num_enemies {
                wave.spawned_enemies = wave.spawned_enemies + 1;
            }
        }
    }

    /// Counts one arrival at the goal; ends the wave once all its enemies
    /// have arrived.
    pub fn enemy_finished(&mut self)
        requires
            old(self).wf(),
        ensures
            final(self).wf(),
            final(self).timer() == old(self).timer(),
            final(self).ledger() == finish_step(old(self).ledger()),
    {
        let mut ended = false;
        if let Some(wave) = &mut self.active_wave {
            if wave.finished_enemies < wave.spawned_enemies {
                wave.finished_enemies = wave.finished_enemies + 1;
                ended = wave.finished_enemies >= wave.num_enemies;
            }
        }
        if ended {
            self.end_wave();
        }
    }

    /// Moves the active wave to the completed ones once every enemy of it
    /// was sent and has arrived; does nothing otherwise.
    pub fn end_wave(&mut self)
        requires
            old(self).wf(),
        ensures
            final(self).timer() == old(self).timer(),
            final(self).ledger() == end_step(old(self).ledger()),
            final(self).wf(),
    {
        let complete = match &self.active_wave {
            Some(wave) => wave.spawned_enemies >= wave.num_enemies && wave.finished_enemies
                >= wave.num_enemies,
            None => false,
        };
        if !complete {
            return;
        }
        let wave = self.active_wave.take().unwrap();
        self.previous_waves.push(wave);
    }

    pub fn active_wave(&self) -> (r: Option<Wave>)
        ensures
            r == self.ledger().0,
    {
        self.active_wave
    }

    /// The completed waves, in completion order.
    pub fn previous_waves(&self) -> (r: &Vec<Wave>)
        ensures
            r@ == self.ledger().1,
    {
        &self.previous_waves
    }

    /// Milliseconds since the last spawn tick.
    pub fn time_since_last_wave_spawned(&self) -> (r: u64)
        ensures
            r == self.timer(),
    {
        self.time_since_last_wave_spawned
    }

    pub fn is_active(&self) -> (r: bool)
        ensures
            r == self.ledger().0 is Some,
    {
        self.active_wave.is_some()
    }
}

/// See `Waves::wf`.
pub open spec fn ledger_wf(l: Ledger) -> bool {
    &&& forall|i: int| 0 <= i < l.1.len() ==> (#[trigger] l.1[i]).num_enemies == i + 1
    &&& match l.0 {
        Some(w) => {
            &&& w.finished_enemies <= w.spawned_enemies
            &&& w.spawned_enemies <= w.num_enemies
            &&& w.num_enemies == l.1.len() + 1
        },
        None => true,
    }
}

/// What `enemy_spawned` makes of a ledger.
pub open spec fn spawn_step(l: Ledger) -> Ledger {
    match l.0 {
        Some(w) => if w.spawned_enemies < w.num_enemies {
            (Some(Wave { spawned_enemies: (w.spawned_enemies + 1) as usize, ..w }), l.1)
        } else {
            l
        },
        None => l,
    }
}

/// A fresh ledger: no active wave, none completed, timer at zero.
pub fn waves_setup() -> (r: Waves)
    ensures
        r.wf(),
        r.ledger() == (None::<Wave>, Seq::<Wave>::empty()),
        r.timer() == 0,
{
    let r = Waves { active_wave: None, previous_waves: Vec::new(), time_since_last_wave_spawned: 0 };
    assert(r.ledger().1 =~= Seq::<Wave>::empty());
    r
}

/// The completed waves had one, two, three, ... enemies, and the active
/// wave has one more than the last completed one: the `n`-th wave of a
/// session has `n` enemies.
pub proof fn lemma_wave_quota(waves: &Waves)
    requires
        waves.wf(),
    ensures
        forall|i: int|
            0 <= i < waves.ledger().1.len() ==> (#[trigger] waves.ledger().1[i]).num_enemies == i + 1,
        waves.ledger().0 is Some ==> waves.ledger().0->Some_0.num_enemies == waves.ledger().1.len()
            + 1,
{
}

/// Ending a wave does nothing while some of its enemies are still to be sent
/// or still on their way, and moves it to the completed waves once all were
/// sent and all have arrived.
pub proof fn lemma_end_wave_only_when_complete(l: Ledger)
    requires
        ledger_wf(l),
        l.0 is Some,
    ensures
        ({
            let w = l.0->Some_0;
            &&& (w.spawned_enemies < w.num_enemies || w.finished_enemies < w.spawned_enemies)
                ==> end_step(l) == l
            &&& (w.spawned_enemies == w.num_enemies && w.finished_enemies == w.num_enemies)
                ==> end_step(l) == (None::<Wave>, l.1.push(w))
        }),
{
}

/// Where an enemy stands: the cell it is on, the cell it is heading for,
/// and how far (in milliseconds of the `STEP_TIME_MS` a step takes) it has
/// come.
#[derive(Debug, Clone, Copy, PartialEq, Eq, Structural)]
pub struct Enemy {
    pub target_x: usize,
    pub target_y: usize,
    pub current_x: usize,
    pub current_y: usize,
    pub progress: u64,
}

/// What one tick did to an enemy.
#[derive(Debug, Clone, Copy, PartialEq, Eq, Structural)]
pub enum EnemyStep {
    /// Still between two cells.
    Moving,
    /// Arrived at its target cell and set out for the next one.
    Stepped,
    /// Arrived at the end cell.
    Finished,
    /// Arrived at its target cell, from which no walk leads to the end;
    /// left as it was.
    Stuck,
}

/// The enemy's cells lie on the map.
pub open spec fn enemy_on_map(map: &TileMap, e: Enemy) -> bool {
    map.in_bounds(e.current_x as int, e.current_y as int) && map.in_bounds(
        e.target_x as int,
        e.target_y as int,
    )
}

/// One tick of `delta` milliseconds takes enemy `a` to `b` with outcome `step`.
pub open spec fn enemy_moved(map: &TileMap, a: Enemy, b: Enemy, step: EnemyStep, delta: u64) -> bool {
    let sum = a.progress + delta;
    let at = map.tile(a.target_x as int, a.target_y as int);
    if sum < STEP_TIME_MS {
        step == EnemyStep::Moving && b == (Enemy { progress: sum as u64, ..a })
    } else if a.target_x == map.end.0 && a.target_y == map.end.1 {
        step == EnemyStep::Finished && b == (Enemy {
            current_x: a.target_x,
            current_y: a.target_y,
            progress: 0,
            ..a
        })
    } else if reachable(map, at, map.end_tile()) {
        &&& step == EnemyStep::Stepped
        &&& b.current_x == a.target_x
        &&& b.current_y == a.target_y
        &&& b.progress == 0
        &&& map.in_bounds(b.target_x as int, b.target_y as int)
        &&& exists|p: Seq<Tile>|
            {
                &&& is_path(map, at, map.end_tile(), p)
                &&& p[0] == map.tile(b.target_x as int, b.target_y as int)
                &&& forall|q: Seq<Tile>| is_path(map, at, map.end_tile(), q) ==> p.len() <= q.len()
            }
    } else {
        step == EnemyStep::Stuck && b == a
    }
}

/// Advances one enemy by `delta` milliseconds. Once it has spent
/// `STEP_TIME_MS` on a step it stands on its target cell: at the end cell it
/// counts as arrived for the wave; elsewhere its next target is the first
/// cell of a shortest walk to the end.
pub fn move_enemy(map: &TileMap, waves: &mut Waves, enemy: &mut Enemy, delta: u64) -> (r: EnemyStep)
    requires
        map.wf(),
        old(waves).wf(),
        enemy_on_map(map, *old(enemy)),
    ensures
        final(waves).wf(),
        final(waves).timer() == old(waves).timer(),
        enemy_on_map(map, *final(enemy)),
        enemy_moved(map, *old(enemy), *final(enemy), r, delta),
        final(waves).ledger() == (if r == EnemyStep::Finished {
            finish_step(old(waves).ledger())
        } else {
            old(waves).ledger()
        }),
{
    let progress = enemy.progress.saturating_add(delta);
    if progress < STEP_TIME_MS {
        enemy.progress = progress;
        return EnemyStep::Moving;
    }
    let tx = enemy.target_x;
    let ty = enemy.target_y;
    if map.end.0 == tx && map.end.1 == ty {
        enemy.current_x = tx;
        enemy.current_y = ty;
        enemy.progress = 0;
        waves.enemy_finished();
        return EnemyStep::Finished;
    }
    let from = map.get_tile_at(tx, ty);
    let goal = map.get_tile_at(map.end.0, map.end.1);
    match map.find_path(from, goal) {
        None => EnemyStep::Stuck,
        Some(path) => {
            let next = path[0];
            enemy.current_x = tx;
            enemy.current_y = ty;
            enemy.target_x = next.x;
            enemy.target_y = next.y;
            enemy.progress = 0;
            proof {
                assert(map.tile(next.x as int, next.y as int) == next);
            }
            EnemyStep::Stepped
        },
    }
}

/// How many of `steps` are `Finished`.
pub open spec fn count_finished(steps: Seq<EnemyStep>) -> nat
    decreases steps.len(),
{
    if steps.len() == 0 {
        0
    } else {
        count_finished(steps.drop_last()) + if steps.last() == EnemyStep::Finished {
            1nat
        } else {
            0nat
        }
    }
}

/// Advances every enemy by `delta` milliseconds, in order, and returns what
/// happened to each; each arrival is counted in the wave ledger.
pub fn move_enemies(map: &TileMap, waves: &mut Waves, enemies: &mut Vec<Enemy>, delta: u64) -> (r: Vec<
    EnemyStep,
>)
    requires
        map.wf(),
        old(waves).wf(),
        forall|i: int| 0 <= i < old(enemies)@.len() ==> enemy_on_map(map, #[trigger] old(enemies)@[i]),
    ensures
        final(waves).wf(),
        final(waves).timer() == old(waves).timer(),
        r@.len() == old(enemies)@.len(),
        final(enemies)@.len() == old(enemies)@.len(),
        forall|i: int|
            0 <= i < r@.len() ==> enemy_on_map(map, #[trigger] final(enemies)@[i]) && enemy_moved(
                map,
                old(enemies)@[i],
                final(enemies)@[i],
                r@[i],
                delta,
            ),
        final(waves).ledger() == finish_steps(old(waves).ledger(), count_finished(r@)),
{
    let ghost start_enemies = enemies@;
    let ghost start_ledger = waves.ledger();
    let mut steps: Vec<EnemyStep> = Vec::new();
    let mut i: usize = 0;
    while i < enemies.len()
        invariant
            map.wf(),
            waves.wf(),
            waves.timer() == old(waves).timer(),
            i <= enemies@.len(),
            enemies@.len() == start_enemies.len(),
            steps@.len() == i,
            forall|k: int| i <= k < enemies@.len() ==> enemies@[k] == start_enemies[k],
            forall|k: int| 0 <= k < start_enemies.len() ==> enemy_on_map(map, #[trigger] start_enemies[k]),
            forall|k: int|
                0 <= k < i ==> enemy_on_map(map, #[trigger] enemies@[k]) && enemy_moved(
                    map,
                    start_enemies[k],
                    enemies@[k],
                    steps@[k],
                    delta,
                ),
            waves.ledger() == finish_steps(start_ledger, count_finished(steps@)),
        decreases enemies@.len() - i,
    {
        let mut enemy = enemies[i];
        assert(enemy == start_enemies[i as int]);
        assert(enemy_on_map(map, start_enemies[i as int]));
        let step = move_enemy(map, waves, &mut enemy, delta);
        let ghost before = steps@;
        enemies.set(i, enemy);
        steps.push(step);
        proof {
            assert(steps@.drop_last() =~= before);
        }
        i = i + 1;
    }
    steps
}

/// One spawn tick. Until `TIME_BETWEEN_SPAWNS_MS` have passed since the
/// last tick the timer only advances (saturating at `u64::MAX`); then it
/// restarts at zero and, if the active wave still has enemies to send, one
/// is sent: a new enemy on the start cell, heading nowhere yet.
pub fn wave_spawner(waves: &mut Waves, map: &TileMap, delta: u64) -> (r: Option<Enemy>)
    requires
        old(waves).wf(),
        map.wf(),
    ensures
        final(waves).wf(),
        old(waves).timer() < TIME_BETWEEN_SPAWNS_MS ==> {
            &&& r is None
            &&& final(waves).ledger() == old(waves).ledger()
            &&& final(waves).timer() as int == if old(waves).timer() + delta <= u64::MAX {
                old(waves).timer() + delta
            } else {
                u64::MAX as int
            }
        },
        old(waves).timer() >= TIME_BETWEEN_SPAWNS_MS ==> {
            &&& final(waves).timer() == 0
            &&& final(waves).ledger() == spawn_step(old(waves).ledger())
            &&& (r is Some <==> final(waves).ledger() != old(waves).ledger())
            &&& r is Some ==> r->Some_0 == (Enemy {
                target_x: map.start.0,
                target_y: map.start.1,
                current_x: map.start.0,
                current_y: map.start.1,
                progress: 0,
            })
        },
{
    if waves.time_since_last_wave_spawned < TIME_BETWEEN_SPAWNS_MS {
        waves.time_since_last_wave_spawned = waves.time_since_last_wave_spawned.saturating_add(delta);
        return None;
    }
    waves.time_since_last_wave_spawned = 0;
    let sending = match &waves.active_wave {
        Some(wave) => wave.spawned_enemies < wave.num_enemies,
        None => false,
    };
    if !sending {
        return None;
    }
    waves.enemy_spawned();
    let (start_x, start_y) = map.start;
    Some(Enemy { target_x: start_x, target_y: start_y, current_x: start_x, current_y: start_y, progress: 0 })
}

} // verus!
