use gridbot::bot::{Bot, BotConfig};
use gridbot::map::{Grid, Land, LandType, Pos};

fn cfg() -> BotConfig {
    BotConfig { calc_cnt: 3, score_power: 1 }
}

fn pos(row: usize, col: usize) -> Pos {
    Pos { row, col }
}

fn land(kind: LandType, color: u8, amount: i64) -> Land {
    Land { kind, color, amount }
}

/// A 1-row map from a list of tiles.
fn row(tiles: &[Land]) -> Grid {
    let mut g = Grid::grid(tiles.len(), 1);
    for (i, t) in tiles.iter().enumerate() {
        g.set_tile(pos(0, i), *t);
    }
    g
}

#[test]
fn single_general_capture_first_move() {
    let mut bot = Bot::new_with_seed(cfg(), 7);
    bot.gm = row(&[
        land(LandType::General, 1, 10),
        land(LandType::Land, 0, 0),
        land(LandType::General, 2, 1),
    ]);
    bot.my_color = 1;
    let m = bot.expand().expect("an immediate capture");
    assert_eq!(m, (pos(0, 0), pos(0, 1), false));
}

#[test]
fn half_split_under_threat() {
    // The source is contested from a third direction while attacking a
    // hostile City that half its army still beats: Rule A splits.
    let mut bot = Bot::new_with_seed(cfg(), 11);
    bot.gm = row(&[
        land(LandType::City, 2, 5),
        land(LandType::Land, 1, 20),
        land(LandType::Land, 2, 1),
    ]);
    bot.my_color = 1;
    let m = bot.expand().expect("an immediate capture");
    assert_eq!(m, (pos(0, 1), pos(0, 0), true));
}

#[test]
fn no_split_without_second_threat() {
    let mut bot = Bot::new_with_seed(cfg(), 11);
    bot.gm = row(&[
        land(LandType::City, 2, 5),
        land(LandType::Land, 1, 20),
        land(LandType::Land, 1, 1),
    ]);
    bot.my_color = 1;
    let m = bot.expand().expect("an immediate capture");
    assert_eq!(m, (pos(0, 1), pos(0, 0), false));
}

#[test]
fn neutral_city_capture_splits_near_threat() {
    // Rule B: a stack of more than 25 taking a neutral City splits when
    // another neighbour of the source is contested.
    let mut bot = Bot::new_with_seed(cfg(), 13);
    bot.gm = row(&[
        land(LandType::City, 0, 10),
        land(LandType::Land, 1, 30),
        land(LandType::Land, 0, 5),
    ]);
    bot.my_color = 1;
    let m = bot.expand().expect("an immediate capture");
    assert_eq!(m, (pos(0, 1), pos(0, 0), true));
}

#[test]
fn enemy_city_needs_two_extra_army() {
    // 10 vs an enemy City of 8: margin of 2 is not *strictly* exceeded,
    // and the lone frontier tile is threatened, so no move at all.
    let mut bot = Bot::new_with_seed(cfg(), 17);
    bot.gm = row(&[land(LandType::City, 2, 8), land(LandType::Land, 1, 10)]);
    bot.my_color = 1;
    assert_eq!(bot.expand(), None);
    assert_eq!(bot.target, None);
}

#[test]
fn enemy_city_captured_with_margin() {
    let mut bot = Bot::new_with_seed(cfg(), 17);
    bot.gm = row(&[land(LandType::City, 2, 7), land(LandType::Land, 1, 10)]);
    bot.my_color = 1;
    let m = bot.expand().expect("an immediate capture");
    assert_eq!(m, (pos(0, 1), pos(0, 0), false));
}

#[test]
fn no_viable_target_passes_turn() {
    // Every non-self tile belongs to a teammate: the selector finds
    // nothing and the planner passes.
    let mut bot = Bot::new_with_seed(cfg(), 19);
    bot.gm = row(&[land(LandType::Land, 1, 5), land(LandType::Land, 3, 5)]);
    bot.my_color = 1;
    bot.teammates = vec![3];
    assert_eq!(bot.expand(), None);
    assert_eq!(bot.target, None);
}

#[test]
fn calc_budget_zero_returns_immediately() {
    let mut bot = Bot::new_with_seed(BotConfig { calc_cnt: 0, score_power: 1 }, 23);
    bot.gm = row(&[land(LandType::Land, 1, 1), land(LandType::Land, 2, 5)]);
    bot.my_color = 1;
    assert_eq!(bot.expand(), None);
    assert_eq!(bot.target, None);
    assert_eq!(bot.committed_from(), None);
}

#[test]
fn deterministic_with_fixed_seed() {
    // Four equally ranked captures; the shuffle breaks the tie, and a
    // fixed seed makes the choice reproducible.
    let build = || {
        let mut g = Grid::grid(3, 3);
        g.set_tile(pos(1, 1), land(LandType::Land, 1, 5));
        g
    };
    let mut a = Bot::new_with_seed(cfg(), 42);
    a.gm = build();
    a.my_color = 1;
    let mut b = Bot::new_with_seed(cfg(), 42);
    b.gm = build();
    b.my_color = 1;
    let ma = a.expand().expect("a capture");
    let mb = b.expand().expect("a capture");
    assert_eq!(ma, mb);
    assert_eq!(ma.0, pos(1, 1));
}

#[test]
fn planner_commits_route() {
    // No immediate capture: the planner picks the lone enemy tile as
    // target, starts from the safe interior tile and commits the first
    // hop as the next turn's start.
    let mut bot = Bot::new_with_seed(cfg(), 29);
    bot.gm = row(&[
        land(LandType::Land, 1, 5),
        land(LandType::Land, 1, 1),
        land(LandType::Land, 2, 9),
    ]);
    bot.my_color = 1;
    let m = bot.expand().expect("a planned move");
    assert_eq!(m, (pos(0, 0), pos(0, 1), false));
    assert_eq!(bot.committed_from(), Some(pos(0, 1)));
    assert_eq!(bot.target, Some(pos(0, 2)));
}

#[test]
fn target_sticky_across_calls() {
    let mut bot = Bot::new_with_seed(cfg(), 29);
    bot.gm = row(&[
        land(LandType::Land, 1, 5),
        land(LandType::Land, 1, 1),
        land(LandType::Land, 2, 9),
    ]);
    bot.my_color = 1;
    let m1 = bot.expand().expect("a planned move");
    assert_eq!(bot.target, Some(pos(0, 2)));
    let m2 = bot.expand().expect("a planned move");
    assert_eq!(bot.target, Some(pos(0, 2)));
    assert_eq!(m1, m2);
    assert_eq!(bot.committed_from(), Some(pos(0, 1)));
}

#[test]
fn longer_route_with_better_score_wins() {
    // Two launch points reach the enemy General; the route from the
    // bigger stack scores -8/3 against -12/2 and must win.
    let mut bot = Bot::new_with_seed(cfg(), 31);
    bot.gm = row(&[
        land(LandType::General, 2, 9),
        land(LandType::Land, 0, 2),
        land(LandType::Land, 1, 2),
        land(LandType::Land, 1, 5),
    ]);
    bot.my_color = 1;
    let m = bot.expand().expect("a planned move");
    assert_eq!(m, (pos(0, 3), pos(0, 2), false));
    assert_eq!(bot.target, Some(pos(0, 0)));
    assert_eq!(bot.committed_from(), Some(pos(0, 2)));
}

#[test]
fn threatened_frontier_is_no_launch_point() {
    // The only self-owned tile sits next to a hostile City, so the
    // search has nowhere safe to start from and the planner gives up.
    let mut bot = Bot::new_with_seed(BotConfig { calc_cnt: 1, score_power: 1 }, 37);
    bot.gm = row(&[land(LandType::City, 2, 20), land(LandType::Land, 1, 10)]);
    bot.my_color = 1;
    assert_eq!(bot.expand(), None);
    assert_eq!(bot.target, None);
}

#[test]
fn inaccessible_tile_not_targeted() {
    let mut bot = Bot::new_with_seed(cfg(), 41);
    let mut g = row(&[land(LandType::Land, 2, 9), land(LandType::Land, 1, 3)]);
    g.set_accessible(pos(0, 0), false);
    bot.gm = g;
    bot.my_color = 1;
    assert_eq!(bot.expand(), None);
    assert_eq!(bot.target, None);
}

#[test]
fn never_routes_through_ally_general() {
    // The only path to the enemy runs over a teammate's General, which
    // the search refuses, so the engine passes.
    let mut bot = Bot::new_with_seed(cfg(), 43);
    bot.gm = row(&[
        land(LandType::Land, 1, 5),
        land(LandType::General, 3, 2),
        land(LandType::Land, 2, 9),
    ]);
    bot.my_color = 1;
    bot.teammates = vec![3];
    assert_eq!(bot.expand(), None);
}

#[test]
fn unknown_tiles_never_targeted() {
    // Fog-of-war placeholders are not valid objectives.
    let mut bot = Bot::new_with_seed(cfg(), 47);
    bot.gm = row(&[
        land(LandType::Unknown, 2, 9),
        land(LandType::UnknownCity, 0, 0),
        land(LandType::Land, 1, 1),
    ]);
    bot.my_color = 1;
    assert_eq!(bot.expand(), None);
    assert_eq!(bot.target, None);
}

#[test]
fn expansion_soundness_margins() {
    // Whatever the seeded tie-break picks, a local expansion must beat
    // its destination by the capture margin, and the destination is
    // never self-owned or a teammate's.
    for seed in 0..20u64 {
        let mut bot = Bot::new_with_seed(cfg(), seed);
        let mut g = Grid::grid(3, 3);
        g.set_tile(pos(1, 1), land(LandType::Land, 1, 9));
        g.set_tile(pos(0, 1), land(LandType::Land, 2, 3));
        g.set_tile(pos(2, 1), land(LandType::City, 2, 6));
        g.set_tile(pos(1, 0), land(LandType::Land, 3, 1));
        g.set_tile(pos(1, 2), land(LandType::Land, 0, 7));
        bot.gm = g;
        bot.my_color = 1;
        bot.teammates = vec![3];
        let (f, t, _) = bot.expand().expect("an immediate capture");
        let fl = bot.gm.lookup(f);
        let tl = bot.gm.lookup(t);
        assert_eq!(fl.color, 1);
        assert_ne!(tl.color, 1);
        assert!(!bot.teammates.contains(&tl.color));
        let delta = if tl.kind == LandType::City && tl.color != 0 { 2 } else { 1 };
        assert!(fl.amount > tl.amount + delta);
    }
}
