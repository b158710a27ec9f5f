use acquire::{
    compute_state, hotel_chain_size, initial_slots, new_actions, new_player, play_turn, Action,
    Board, Game, Hotel, PlayerId, Slot, Tile, TurnError, TurnResult, STARTING_MONEY,
};

fn tile(row: u8, col: u8) -> Tile {
    Tile::new(row, col).unwrap()
}

fn two_player_game() -> Game {
    Game {
        board: Board { slots: initial_slots(vec![tile(0, 0)]) },
        players: vec![
            new_player(PlayerId::One, vec![tile(1, 1), tile(2, 2), tile(3, 3)]),
            new_player(PlayerId::Two, vec![tile(4, 4)]),
        ],
        turn: PlayerId::One,
        merge_decision: None,
    }
}

/// A board where Tower claims 2 slots and Imperial claims 10.
fn game_with_chains() -> Game {
    let mut game = two_player_game();
    for k in 0..12 {
        let hotel = if k < 2 { Hotel::Tower } else { Hotel::Imperial };
        game.board.slots[12 + k].has_tile = true;
        game.board.slots[12 + k].hotel = Some(hotel);
    }
    game
}

fn success(result: TurnResult) -> Game {
    match result {
        TurnResult::Success(game) => game,
        TurnResult::Error(e) => panic!("refused: {:?}", e),
    }
}

fn error(result: TurnResult) -> TurnError {
    match result {
        TurnResult::Success(_) => panic!("expected a refusal"),
        TurnResult::Error(e) => e,
    }
}

fn slot_at(game: &Game, row: u8, col: u8) -> Slot {
    *game.board.slots.iter().find(|s| s.row == row && s.col == col).unwrap()
}

#[test]
fn place_unheld_tile_is_refused_and_game_kept() {
    let game = two_player_game();
    let action = Action::PlaceTile { player: PlayerId::One, tile: tile(4, 4) };
    assert_eq!(error(play_turn(&game, &action)), TurnError::TileNotHeld);
    assert_eq!(game.players[0].tiles, vec![tile(1, 1), tile(2, 2), tile(3, 3)]);
    assert_eq!(game.players[1].tiles, vec![tile(4, 4)]);
    assert!(!slot_at(&game, 4, 4).has_tile);
}

#[test]
fn place_out_of_turn_is_refused_even_when_held() {
    let game = two_player_game();
    let held = Action::PlaceTile { player: PlayerId::Two, tile: tile(4, 4) };
    assert_eq!(error(play_turn(&game, &held)), TurnError::NotPlayersTurn);
    let not_held = Action::PlaceTile { player: PlayerId::Two, tile: tile(1, 1) };
    assert_eq!(error(play_turn(&game, &not_held)), TurnError::NotPlayersTurn);
}

#[test]
fn place_tile_moves_tile_from_hand_to_board() {
    let game = two_player_game();
    let action = Action::PlaceTile { player: PlayerId::One, tile: tile(2, 2) };
    let next = success(play_turn(&game, &action));
    assert_eq!(next.players[0].tiles, vec![tile(1, 1), tile(3, 3)]);
    assert_eq!(next.players[0].money, STARTING_MONEY);
    assert_eq!(next.players[1].tiles, vec![tile(4, 4)]);
    assert!(slot_at(&next, 2, 2).has_tile);
    assert_eq!(slot_at(&next, 2, 2).hotel, None);
    let changed: Vec<usize> = (0..game.board.slots.len())
        .filter(|&k| game.board.slots[k] != next.board.slots[k])
        .collect();
    assert_eq!(changed, vec![2 * 12 + 2]);
    assert_eq!(next.turn, PlayerId::One);
    assert_eq!(next.merge_decision, None);
}

#[test]
fn place_tile_removes_one_copy_only() {
    let mut game = two_player_game();
    game.players[0].tiles = vec![tile(5, 5), tile(5, 5)];
    let action = Action::PlaceTile { player: PlayerId::One, tile: tile(5, 5) };
    let next = success(play_turn(&game, &action));
    assert_eq!(next.players[0].tiles, vec![tile(5, 5)]);
}

#[test]
fn compute_state_stops_at_first_refusal() {
    let game = two_player_game();
    let actions = vec![
        Action::PlaceTile { player: PlayerId::One, tile: tile(1, 1) },
        Action::PlaceTile { player: PlayerId::One, tile: tile(4, 4) },
        Action::PlaceTile { player: PlayerId::One, tile: tile(2, 2) },
    ];
    assert_eq!(error(compute_state(&game, &actions)), TurnError::TileNotHeld);

    let before_failure = success(compute_state(&game, &actions[..1].to_vec()));
    assert_eq!(before_failure.players[0].tiles, vec![tile(2, 2), tile(3, 3)]);
    assert_eq!(
        error(play_turn(&before_failure, &actions[1])),
        TurnError::TileNotHeld
    );
}

#[test]
fn compute_state_applies_legal_actions_in_order() {
    let game = two_player_game();
    let actions = vec![
        Action::PlaceTile { player: PlayerId::One, tile: tile(1, 1) },
        Action::PlaceTile { player: PlayerId::One, tile: tile(3, 3) },
    ];
    let next = success(compute_state(&game, &actions));
    assert_eq!(next.players[0].tiles, vec![tile(2, 2)]);
    assert!(slot_at(&next, 1, 1).has_tile);
    assert!(slot_at(&next, 3, 3).has_tile);
}

#[test]
fn compute_state_of_no_actions_is_the_game() {
    let game = two_player_game();
    let next = success(compute_state(&game, &new_actions()));
    assert_eq!(next.board.slots, game.board.slots);
    assert_eq!(next.players[0].tiles, game.players[0].tiles);
    assert_eq!(next.turn, game.turn);
}

#[test]
fn buy_two_hotels_in_one_action() {
    let game = game_with_chains();
    assert_eq!(hotel_chain_size(&game.board, Hotel::Tower), 2);
    assert_eq!(hotel_chain_size(&game.board, Hotel::Imperial), 10);
    let action = Action::BuyStocks {
        player: PlayerId::One,
        hotel1: Some(Hotel::Tower),
        hotel2: Some(Hotel::Imperial),
        hotel3: None,
    };
    let next = success(play_turn(&game, &action));
    let shares = next.players[0].shares;
    assert_eq!(shares.tower, 1);
    assert_eq!(shares.imperial, 1);
    assert_eq!(shares.luxor + shares.american + shares.festival, 0);
    assert_eq!(shares.worldwide + shares.continental, 0);
    assert_eq!(next.players[0].money, STARTING_MONEY - (200 + 800));
    assert_eq!(next.players[1].money, STARTING_MONEY);
    assert_eq!(next.board.slots, game.board.slots);
}

#[test]
fn buy_same_hotel_twice_counts_twice() {
    let game = game_with_chains();
    let action = Action::BuyStocks {
        player: PlayerId::One,
        hotel1: Some(Hotel::Tower),
        hotel2: None,
        hotel3: Some(Hotel::Tower),
    };
    let next = success(play_turn(&game, &action));
    assert_eq!(next.players[0].shares.tower, 2);
    assert_eq!(next.players[0].money, STARTING_MONEY - 400);
}

#[test]
fn buy_hotel_without_chain_costs_base_price() {
    let game = two_player_game();
    let action = Action::BuyStocks {
        player: PlayerId::One,
        hotel1: Some(Hotel::Continental),
        hotel2: None,
        hotel3: None,
    };
    let next = success(play_turn(&game, &action));
    assert_eq!(next.players[0].shares.continental, 1);
    assert_eq!(next.players[0].money, STARTING_MONEY - 400);
}

#[test]
fn buy_out_of_turn_is_refused() {
    let game = game_with_chains();
    let action = Action::BuyStocks {
        player: PlayerId::Two,
        hotel1: Some(Hotel::Tower),
        hotel2: None,
        hotel3: None,
    };
    assert_eq!(error(play_turn(&game, &action)), TurnError::NotPlayersTurn);
}

#[test]
fn buy_for_absent_player_is_refused() {
    let mut game = game_with_chains();
    game.turn = PlayerId::Three;
    let action = Action::BuyStocks {
        player: PlayerId::Three,
        hotel1: Some(Hotel::Tower),
        hotel2: None,
        hotel3: None,
    };
    assert_eq!(error(play_turn(&game, &action)), TurnError::UnknownPlayer);
}

#[test]
fn buy_beyond_cash_is_refused() {
    let mut game = game_with_chains();
    game.players[0].money = 999;
    let action = Action::BuyStocks {
        player: PlayerId::One,
        hotel1: Some(Hotel::Tower),
        hotel2: Some(Hotel::Imperial),
        hotel3: None,
    };
    assert_eq!(error(play_turn(&game, &action)), TurnError::InsufficientFunds);
    game.players[0].money = 1000;
    let next = success(play_turn(&game, &action));
    assert_eq!(next.players[0].money, 0);
}

#[test]
fn buy_past_share_limit_is_refused() {
    let mut game = game_with_chains();
    game.players[0].shares.luxor = u32::MAX;
    let action = Action::BuyStocks {
        player: PlayerId::One,
        hotel1: Some(Hotel::Luxor),
        hotel2: None,
        hotel3: None,
    };
    assert_eq!(error(play_turn(&game, &action)), TurnError::ShareLimit);
}

#[test]
fn new_actions_is_empty() {
    assert!(new_actions().is_empty());
}

#[test]
fn empty_purchase_with_negative_cash_keeps_player() {
    let mut game = game_with_chains();
    game.players[0].money = -50;
    let action = Action::BuyStocks {
        player: PlayerId::One,
        hotel1: None,
        hotel2: None,
        hotel3: None,
    };
    let next = success(play_turn(&game, &action));
    assert_eq!(next.players[0].money, -50);
    assert_eq!(next.players[0].shares, game.players[0].shares);
    assert_eq!(next.players[0].tiles, game.players[0].tiles);
}

#[test]
fn purchase_with_negative_cash_is_refused() {
    let mut game = game_with_chains();
    game.players[0].money = -50;
    let action = Action::BuyStocks {
        player: PlayerId::One,
        hotel1: None,
        hotel2: Some(Hotel::Tower),
        hotel3: None,
    };
    assert_eq!(error(play_turn(&game, &action)), TurnError::InsufficientFunds);
}
