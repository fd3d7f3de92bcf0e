use oil_dig::consts::{FIELD_SIZE_MAX, FIELD_SIZE_MIN, MAX_BOM, MAX_OIL, MIN_BOM, MIN_OIL};
use oil_dig::game_info::{Action, BomCat, FieldState, Game};
use oil_dig::gamemap::Coord;

/// How many players have gathered any oil.
fn gatherers(g: &Game) -> usize {
    (0..g.player_count()).filter(|&i| g.player_at(i).galon > 0).count()
}

fn count_cells(g: &Game, f: &dyn Fn(FieldState) -> bool) -> usize {
    let mut n = 0;
    for y in 0..g.size {
        for x in 0..g.size {
            if f(g.cell_at(x, y)) {
                n += 1;
            }
        }
    }
    n
}

#[test]
fn new_game_puts_players_in_corners() {
    let g = Game::new_game(4, 20, 25, 5);
    assert_eq!(g.size, 20);
    assert_eq!(g.player_count(), 4);
    let corners = [(0, 0), (19, 0), (0, 19), (19, 19)];
    for (i, (x, y)) in corners.iter().enumerate() {
        let p = g.player_at(i);
        assert_eq!(p.cd, Coord::new(*x, *y));
        assert_eq!(p.galon, 0);
        assert_eq!(p.bom, None);
        assert!(p.is_alive);
    }
    assert_eq!(count_cells(&g, &|c| c != FieldState::Empty), 0);
}

#[test]
fn make_random_game_draws_in_range() {
    for _ in 0..20 {
        let g = Game::make_random_game(3);
        assert!(FIELD_SIZE_MIN <= g.size && g.size < FIELD_SIZE_MAX);
        assert_eq!(g.player_count(), 3);
        assert_eq!(g.player_at(2).cd, Coord::new(0, g.size as i32 - 1));
    }
}

#[test]
fn state_text_of_fresh_game() {
    let g = Game::new_game(2, 20, 25, 5);
    assert_eq!(g.get_state_str(1), "20\n2 1\n0 0 0\n19 0 0\n0\n0\n");
}

#[test]
fn state_text_lists_wells_and_bombs_by_column_then_row() {
    let mut g = Game::new_game(2, 20, 25, 5);
    g.place_oil(Coord::new(3, 4), 50);
    g.place_oil(Coord::new(2, 9), 11);
    g.place_oil(Coord::new(3, 1), 99);
    g.place_bom(Coord::new(5, 5), 2);
    assert_eq!(
        g.get_state_str(0),
        "20\n2 0\n0 0 0\n19 0 0\n3\n2 9 11\n3 1 99\n3 4 50\n1\n5 5 -1\n"
    );
}

#[test]
fn move_onto_oil_fills_the_tank() {
    let mut g = Game::new_game(1, 20, 25, 5);
    g.place_oil(Coord::new(1, 0), 40);
    assert!(g.act_fits_i32(0, Action::Move(2)));
    assert!(g.act(0, Action::Move(2)));
    let p = g.player_at(0);
    assert_eq!(p.cd, Coord::new(1, 0));
    assert_eq!(p.galon, 40);
    assert_eq!(g.cell_at(1, 0), FieldState::Empty);
    assert_eq!(g.get_state_str(0), "20\n1 0\n1 0 40\n0\n0\n");
}

#[test]
fn move_off_the_field_is_refused() {
    let mut g = Game::new_game(1, 20, 25, 5);
    assert!(!g.act(0, Action::Move(0)));
    assert!(!g.act(0, Action::Move(1)));
    assert_eq!(g.player_at(0).cd, Coord::new(0, 0));
    // a move number of 4 or more stays put and is not refused
    assert!(g.act(0, Action::Move(4)));
    assert_eq!(g.player_at(0).cd, Coord::new(0, 0));
    assert!(g.act(0, Action::Move(3)));
    assert_eq!(g.player_at(0).cd, Coord::new(0, 1));
    assert!(g.act(0, Action::Move(0)));
    assert_eq!(g.player_at(0).cd, Coord::new(0, 0));
}

#[test]
fn pick_and_drop_a_bomb() {
    let mut g = Game::new_game(2, 20, 25, 5);
    // nothing to pick up, nothing to drop
    assert!(!g.act(0, Action::PickBom));
    assert!(!g.act(0, Action::DropBom));
    g.place_bom(Coord::new(0, 0), 2);
    assert!(g.act(0, Action::PickBom));
    assert_eq!(g.player_at(0).bom, Some(2));
    assert_eq!(g.cell_at(0, 0), FieldState::Empty);
    assert!(g.act(0, Action::Move(2)));
    assert!(g.act(0, Action::DropBom));
    assert_eq!(g.player_at(0).bom, None);
    assert_eq!(g.cell_at(1, 0), FieldState::Bom(BomCat::Ready((2, 0))));
    // dropping again is refused: no bomb carried, and the cell is taken
    assert!(!g.act(0, Action::DropBom));
    assert!(g.get_state_str(0).ends_with("1\n1 0 0\n"));
}

#[test]
fn bomb_goes_off_near_another_player_and_kills() {
    let mut g = Game::new_game(2, 20, 25, 5);
    g.place_bom(Coord::new(0, 0), 2);
    assert!(g.act(0, Action::PickBom));
    assert!(g.act(0, Action::Move(2)));
    assert!(g.act(0, Action::DropBom));
    // the owner never sets its own bomb off
    assert!(!g.detonate());
    // player 1 walks from (19, 0) to (4, 0): still too far for distance 2
    for _ in 0..15 {
        assert!(g.act(1, Action::Move(1)));
    }
    assert!(!g.detonate());
    // at (3, 0) the bomb at (1, 0) is 2 away: it goes off
    assert!(g.act(1, Action::Move(1)));
    assert!(g.detonate());
    assert_eq!(g.cell_at(1, 0), FieldState::Empty);
    // turn 0 reaches only the centre, where player 0 stands
    let step = g.spread_explosions();
    assert_eq!(step.burned, vec![Coord::new(1, 0)]);
    assert_eq!(step.deaths, vec![Coord::new(1, 0)]);
    assert!(!step.finished);
    assert!(!g.player_at(0).is_alive);
    assert!(g.player_at(1).is_alive);
    // turn 1 reaches the 3x3 square around (1, 0) that lies on the field
    let step = g.spread_explosions();
    assert_eq!(
        step.burned,
        vec![
            Coord::new(0, 0),
            Coord::new(0, 1),
            Coord::new(1, 0),
            Coord::new(1, 1),
            Coord::new(2, 0),
            Coord::new(2, 1)
        ]
    );
    assert_eq!(step.deaths, vec![Coord::new(1, 0)]);
    assert!(!step.finished);
    // turn 2 reaches player 1 at (3, 0) and is the last
    let step = g.spread_explosions();
    assert_eq!(step.burned.len(), 4 * 3);
    assert_eq!(step.deaths, vec![Coord::new(1, 0), Coord::new(3, 0)]);
    assert!(step.finished);
    assert!(!g.player_at(1).is_alive);
    // nothing under way: nothing happens
    let step = g.spread_explosions();
    assert!(step.burned.is_empty());
    assert!(!step.finished);
}

#[test]
fn explosion_burns_oil() {
    let mut g = Game::new_game(2, 20, 25, 5);
    g.place_bom(Coord::new(0, 0), 1);
    assert!(g.act(0, Action::PickBom));
    assert!(g.act(0, Action::Move(3)));
    assert!(g.act(0, Action::Move(3)));
    assert!(g.act(0, Action::DropBom));
    g.place_oil(Coord::new(1, 2), 30);
    for _ in 0..18 {
        assert!(g.act(1, Action::Move(1)));
    }
    // player 1 at (1, 0), bomb at (0, 2): reach 2 > distance 1
    assert!(!g.detonate());
    assert!(g.act(1, Action::Move(3)));
    assert!(g.detonate());
    g.spread_explosions();
    assert_eq!(g.cell_at(1, 2), FieldState::Oil(30));
    let step = g.spread_explosions();
    assert!(step.finished);
    assert_eq!(g.cell_at(1, 2), FieldState::Empty);
    assert_eq!(step.deaths, vec![Coord::new(0, 2), Coord::new(1, 1)]);
}

#[test]
fn update_stocks_the_field() {
    let mut g = Game::new_game(4, 24, 30, 7);
    assert!(g.update_fits_i32());
    assert!(!g.update());
    // the field is stocked with 30 wells; a player emptied any that landed under it
    let wells = count_cells(&g, &|c| matches!(c, FieldState::Oil(_)));
    let bombs = count_cells(&g, &|c| matches!(c, FieldState::Bom(_)));
    assert_eq!(wells + gatherers(&g), 30);
    assert_eq!(bombs, 7);
    for y in 0..g.size {
        for x in 0..g.size {
            match g.cell_at(x, y) {
                FieldState::Oil(v) => assert!(MIN_OIL <= v && v < MAX_OIL),
                FieldState::Bom(BomCat::Safe(d)) => assert!(MIN_BOM <= d && d < MAX_BOM),
                FieldState::Bom(BomCat::Ready(_)) => panic!("no armed bomb was dropped"),
                FieldState::Empty => {}
            }
        }
    }
    for i in 0..4 {
        let p = g.player_at(i);
        assert!(p.galon == 0 || (MIN_OIL <= p.galon && p.galon < MAX_OIL));
    }
    // a second upkeep keeps the bombs, and the wells stocked again
    assert!(!g.update());
    assert_eq!(count_cells(&g, &|c| matches!(c, FieldState::Bom(_))), 7);
    let wells = count_cells(&g, &|c| matches!(c, FieldState::Oil(_)));
    assert!(wells <= 30 && wells + 4 >= 30);
}

#[test]
fn collect_oil_under_players() {
    let mut g = Game::new_game(2, 20, 25, 5);
    g.place_oil(Coord::new(0, 0), 12);
    g.collect_oil();
    assert_eq!(g.player_at(0).galon, 12);
    assert_eq!(g.player_at(1).galon, 0);
    assert_eq!(g.cell_at(0, 0), FieldState::Empty);
}

#[test]
fn oil_would_overflow_the_tank() {
    let mut g = Game::new_game(1, 20, 25, 5);
    g.place_oil(Coord::new(1, 0), 99);
    assert!(g.act_fits_i32(0, Action::Move(2)));
    assert!(g.act_fits_i32(0, Action::Move(3)));
    assert!(g.act_fits_i32(0, Action::PickBom));
}

#[test]
fn random_games_vary() {
    let mut sizes = std::collections::BTreeSet::new();
    let mut wells = std::collections::BTreeSet::new();
    for _ in 0..60 {
        let mut g = Game::make_random_game(2);
        sizes.insert(g.size);
        assert!(g.update() == false);
        // the players empty any well put under them
        let n = count_cells(&g, &|c| matches!(c, FieldState::Oil(_)));
        let gathered = gatherers(&g);
        assert!(g.size <= n + gathered && n + gathered < 2 * g.size);
        let b = count_cells(&g, &|c| matches!(c, FieldState::Bom(_)));
        assert!(g.size / 4 <= b && b < g.size / 3);
        wells.insert(n + gathered - g.size);
    }
    assert!(sizes.len() > 1);
    assert!(wells.len() > 1);
}

#[test]
fn refused_action_changes_nothing() {
    let mut g = Game::new_game(2, 20, 25, 5);
    g.place_oil(Coord::new(4, 4), 20);
    let before = g.get_state_str(0);
    assert!(!g.act(0, Action::Move(1)));
    assert!(!g.act(1, Action::Move(2)));
    assert!(!g.act(0, Action::PickBom));
    assert!(!g.act(1, Action::DropBom));
    assert_eq!(g.get_state_str(0), before);
}

#[test]
fn pick_then_drop_arms_the_same_bomb() {
    let mut g = Game::new_game(2, 20, 25, 5);
    g.place_bom(Coord::new(19, 0), 1);
    assert_eq!(g.cell_at(19, 0), FieldState::Bom(BomCat::Safe(1)));
    assert!(g.act(1, Action::PickBom));
    assert!(g.act(1, Action::DropBom));
    assert_eq!(g.cell_at(19, 0), FieldState::Bom(BomCat::Ready((1, 1))));
    assert_eq!(g.player_at(1).bom, None);
}

#[test]
fn blast_check_twice_finds_nothing_more() {
    let mut g = Game::new_game(2, 20, 25, 5);
    g.place_bom(Coord::new(0, 0), 2);
    assert!(g.act(0, Action::PickBom));
    assert!(g.act(0, Action::DropBom));
    for _ in 0..17 {
        assert!(g.act(1, Action::Move(1)));
    }
    assert!(g.detonate());
    assert!(!g.detonate());
}

#[test]
fn the_dead_stay_dead() {
    let mut g = Game::new_game(2, 20, 25, 5);
    g.place_bom(Coord::new(0, 0), 1);
    assert!(g.act(0, Action::PickBom));
    assert!(g.act(0, Action::DropBom));
    for _ in 0..18 {
        assert!(g.act(1, Action::Move(1)));
    }
    assert!(g.detonate());
    g.spread_explosions();
    assert!(!g.player_at(0).is_alive);
    // a dead player may still act, and stays dead
    assert!(g.act(0, Action::Move(3)));
    assert!(!g.player_at(0).is_alive);
    let step = g.spread_explosions();
    assert!(step.finished);
    assert!(!g.player_at(0).is_alive);
    assert!(!g.player_at(1).is_alive);
}

#[test]
fn state_text_counts_match_lines() {
    let mut g = Game::new_game(3, 20, 25, 5);
    assert!(!g.update());
    let text = g.get_state_str(2);
    let lines: Vec<&str> = text.lines().collect();
    // side, players line, one line per player
    assert_eq!(lines[0], "20");
    assert_eq!(lines[1], "3 2");
    let wells: usize = lines[5].parse().unwrap();
    assert_eq!(wells + gatherers(&g), 25);
    let bombs: usize = lines[6 + wells].parse().unwrap();
    assert_eq!(bombs, 5);
    assert_eq!(lines.len(), 7 + wells + bombs);
}

#[test]
fn carried_bombs_count_toward_the_stock() {
    let mut g = Game::new_game(2, 20, 25, 1);
    g.place_bom(Coord::new(0, 0), 2);
    assert!(g.act(0, Action::PickBom));
    assert!(g.update_fits_i32());
    assert!(!g.update());
    // the bomb carried fills the stock: none is put on the field
    assert_eq!(count_cells(&g, &|c| matches!(c, FieldState::Bom(_))), 0);
    assert!(g.act_fits_i32(0, Action::Move(2)));
    assert!(g.act(0, Action::Move(2)));
    assert!(g.act(0, Action::DropBom));
    assert!(g.update_fits_i32());
    assert!(!g.update());
    // dropped, it is the one bomb of the field
    assert_eq!(count_cells(&g, &|c| matches!(c, FieldState::Bom(_))), 1);
    assert_eq!(g.cell_at(1, 0), FieldState::Bom(BomCat::Ready((2, 0))));
}

#[test]
fn state_text_ignores_carried_bombs_and_stock() {
    let mut a = Game::new_game(2, 20, 25, 5);
    let b = Game::new_game(2, 20, 40, 9);
    a.place_bom(Coord::new(0, 0), 3);
    assert!(a.act(0, Action::PickBom));
    assert_eq!(a.player_at(0).bom, Some(3));
    assert_eq!(a.get_state_str(1), b.get_state_str(1));
    assert_eq!(a.get_state_str(0), "20\n2 0\n0 0 0\n19 0 0\n0\n0\n");
}

#[test]
fn small_board_state_text() {
    let mut g = Game::new_game(1, 3, 3, 1);
    g.place_oil(Coord::new(1, 0), 12);
    assert!(g.act(0, Action::Move(2)));
    assert!(g.act(0, Action::Move(1)));
    g.place_oil(Coord::new(2, 1), 17);
    g.place_oil(Coord::new(1, 2), 19);
    g.place_bom(Coord::new(0, 2), 1);
    assert_eq!(g.get_state_str(0), "3\n1 0\n0 0 12\n2\n1 2 19\n2 1 17\n1\n0 2 -1\n");
}

#[test]
fn small_board_move_onto_oil() {
    let mut g = Game::new_game(1, 3, 1, 0);
    g.place_oil(Coord::new(1, 0), 17);
    assert!(g.act_fits_i32(0, Action::Move(2)));
    assert!(g.act(0, Action::Move(2)));
    let p = g.player_at(0);
    assert_eq!(p.cd, Coord::new(1, 0));
    assert_eq!(p.galon, 17);
    assert_eq!(g.cell_at(1, 0), FieldState::Empty);
    // a move off a side-3 field is refused
    assert!(g.act(0, Action::Move(2)));
    assert!(!g.act(0, Action::Move(2)));
    assert_eq!(g.player_at(0).cd, Coord::new(2, 0));
}

#[test]
fn small_board_update_sets_off_and_blast_spreads() {
    let mut g = Game::new_game(2, 4, 0, 1);
    // player 1 walks from (3, 0) to (2, 2)
    assert!(g.act(1, Action::Move(1)));
    assert!(g.act(1, Action::Move(3)));
    assert!(g.act(1, Action::Move(3)));
    // player 0 arms a bomb of distance 1 at (1, 1)
    g.place_bom(Coord::new(1, 1), 1);
    assert!(g.act(0, Action::Move(2)));
    assert!(g.act(0, Action::Move(3)));
    assert!(g.act(0, Action::PickBom));
    assert!(g.act(0, Action::DropBom));
    assert_eq!(g.cell_at(1, 1), FieldState::Bom(BomCat::Ready((1, 0))));
    assert!(g.update_fits_i32());
    assert!(g.update());
    // the armed bomb is gone; the stock of one bomb is refilled with a safe one
    assert!(!matches!(g.cell_at(1, 1), FieldState::Bom(BomCat::Ready(_))));
    assert_eq!(count_cells(&g, &|c| matches!(c, FieldState::Bom(BomCat::Safe(_)))), 1);
    assert_eq!(count_cells(&g, &|c| matches!(c, FieldState::Oil(_))), 0);
    assert_eq!(g.player_at(1).cd, Coord::new(2, 2));
    assert_eq!(g.player_at(1).galon, 0);
    // turn 0 of the blast reaches its centre, where player 0 stands
    let step = g.spread_explosions();
    assert_eq!(step.burned, vec![Coord::new(1, 1)]);
    assert_eq!(step.deaths, vec![Coord::new(1, 1)]);
    assert!(!step.finished);
    // turn 1 reaches the 3x3 square and player 1, and is the last
    let step = g.spread_explosions();
    assert_eq!(step.burned.len(), 9);
    assert_eq!(step.burned[0], Coord::new(0, 0));
    assert_eq!(step.burned[8], Coord::new(2, 2));
    assert_eq!(step.deaths, vec![Coord::new(1, 1), Coord::new(2, 2)]);
    assert!(step.finished);
    assert!(!g.player_at(0).is_alive);
    assert!(!g.player_at(1).is_alive);
}
