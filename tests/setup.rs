use acquire::{
    add_share, board_tiles, choose_tiles, choose_tiles_with, empty_shares, new_game, new_game_with,
    new_player, new_players, new_players_with, player_has_tile, Hotel, PlayerId, Tile, HAND_SIZE, PLAYERS, STARTING_MONEY,
    TILES,
};
use std::collections::HashSet;

fn coords(tiles: &[Tile]) -> Vec<(u8, u8)> {
    tiles.iter().map(|t| (t.row, t.col)).collect()
}

#[test]
fn choose_tiles_with_draws_modulo_remaining() {
    let pool: Vec<Tile> = (0..5).map(|c| Tile::new(0, c).unwrap()).collect();
    let (chosen, remaining) = choose_tiles_with(pool, &vec![7, 0]);
    assert_eq!(coords(&chosen), vec![(0, 2), (0, 0)]);
    assert_eq!(coords(&remaining), vec![(0, 1), (0, 3), (0, 4)]);
}

#[test]
fn choose_tiles_with_no_draws_keeps_pool() {
    let pool: Vec<Tile> = (0..3).map(|c| Tile::new(1, c).unwrap()).collect();
    let (chosen, remaining) = choose_tiles_with(pool.clone(), &Vec::new());
    assert!(chosen.is_empty());
    assert_eq!(remaining, pool);
}

#[test]
fn choose_tiles_partitions_pool() {
    let pool = board_tiles();
    let (chosen, remaining) = choose_tiles(pool.clone(), 10);
    assert_eq!(chosen.len(), 10);
    assert_eq!(remaining.len(), TILES - 10);
    let a: HashSet<(u8, u8)> = coords(&chosen).into_iter().collect();
    let b: HashSet<(u8, u8)> = coords(&remaining).into_iter().collect();
    assert!(a.is_disjoint(&b));
    let all: HashSet<(u8, u8)> = a.union(&b).cloned().collect();
    let expected: HashSet<(u8, u8)> = coords(&pool).into_iter().collect();
    assert_eq!(all, expected);
}

#[test]
fn choose_whole_pool() {
    let pool: Vec<Tile> = (0..4).map(|c| Tile::new(2, c).unwrap()).collect();
    let (chosen, remaining) = choose_tiles(pool, 4);
    assert_eq!(chosen.len(), 4);
    assert!(remaining.is_empty());
}

#[test]
fn new_players_deals_hands() {
    let players = new_players(board_tiles());
    assert_eq!(players.len(), PLAYERS as usize);
    let ids: Vec<PlayerId> = players.iter().map(|p| p.id).collect();
    assert_eq!(ids, vec![PlayerId::One, PlayerId::Two, PlayerId::Three, PlayerId::Four]);
    let mut seen = HashSet::new();
    for p in &players {
        assert_eq!(p.tiles.len(), HAND_SIZE as usize);
        assert_eq!(p.money, STARTING_MONEY);
        for t in &p.tiles {
            assert!(seen.insert((t.row, t.col)));
        }
    }
}

#[test]
fn new_game_setup() {
    let game = new_game();
    assert_eq!(game.turn, PlayerId::One);
    assert_eq!(game.merge_decision, None);
    assert_eq!(game.board.slots.len(), TILES);
    let on_board: HashSet<(u8, u8)> =
        game.board.slots.iter().filter(|s| s.has_tile).map(|s| (s.row, s.col)).collect();
    assert_eq!(on_board.len(), PLAYERS as usize);
    assert!(game.board.slots.iter().all(|s| s.hotel.is_none()));
    let mut seen = on_board.clone();
    for p in &game.players {
        assert_eq!(p.tiles.len(), 6);
        assert_eq!(p.money, 6000);
        for t in &p.tiles {
            assert!(seen.insert((t.row, t.col)));
        }
    }
}

#[test]
fn player_id_new_checks_range() {
    assert_eq!(PlayerId::new(0), None);
    assert_eq!(PlayerId::new(1), Some(PlayerId::One));
    assert_eq!(PlayerId::new(4), Some(PlayerId::Four));
    assert_eq!(PlayerId::new(5), None);
}

#[test]
fn new_player_starts_with_cash_and_no_shares() {
    let t = Tile::new(3, 4).unwrap();
    let p = new_player(PlayerId::Two, vec![t]);
    assert_eq!(p.id, PlayerId::Two);
    assert_eq!(p.money, 6000);
    assert_eq!(p.shares, empty_shares());
    assert!(player_has_tile(&p, &t));
    assert!(!player_has_tile(&p, &Tile::new(4, 3).unwrap()));
}

#[test]
fn add_share_increments_one_hotel() {
    let shares = add_share(empty_shares(), Hotel::Worldwide).unwrap();
    assert_eq!(shares.worldwide, 1);
    assert_eq!(shares.tower + shares.luxor + shares.american + shares.festival, 0);
    let mut full = empty_shares();
    full.festival = u32::MAX;
    assert_eq!(add_share(full, Hotel::Festival), None);
}

#[test]
fn new_players_with_fixed_draws() {
    let tiles = board_tiles();
    let players = new_players_with(tiles.clone(), &vec![0; 24]);
    assert_eq!(players.len(), 4);
    for (i, p) in players.iter().enumerate() {
        assert_eq!(p.id, PlayerId::new(i as u8 + 1).unwrap());
        assert_eq!(p.tiles, tiles[6 * i..6 * i + 6].to_vec());
        assert_eq!(p.money, STARTING_MONEY);
    }
}

#[test]
fn new_players_with_draws_modulo_remaining() {
    let tiles = board_tiles();
    let mut draws = vec![0; 24];
    draws[0] = 1;
    draws[1] = 107;
    let players = new_players_with(tiles.clone(), &draws);
    assert_eq!(coords(&players[0].tiles[..2]), vec![(0, 1), (0, 0)]);
    assert_eq!(coords(&players[0].tiles[2..3]), vec![(0, 2)]);
}

#[test]
fn new_game_with_fixed_draws() {
    let game = new_game_with(&vec![0; 28]);
    let on_board: Vec<(u8, u8)> =
        game.board.slots.iter().filter(|s| s.has_tile).map(|s| (s.row, s.col)).collect();
    assert_eq!(on_board, vec![(0, 0), (0, 1), (0, 2), (0, 3)]);
    assert_eq!(
        coords(&game.players[0].tiles),
        vec![(0, 4), (0, 5), (0, 6), (0, 7), (0, 8), (0, 9)]
    );
    assert_eq!(
        coords(&game.players[3].tiles),
        vec![(1, 10), (1, 11), (2, 0), (2, 1), (2, 2), (2, 3)]
    );
    assert_eq!(game.turn, PlayerId::One);
    assert_eq!(game.merge_decision, None);
}
