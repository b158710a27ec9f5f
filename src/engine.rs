//! The turn engine: the game state, actions, and the rules that apply an
//! action, or a sequence of actions, to a state.

use vstd::prelude::*;

use crate::board::{chain_size, hotel_chain_size, mark_tile, place_tile_on_board, Board, Slot, Tile};
use crate::player::{
    add_share, add_share_spec, lemma_add_share_count, player_has_tile, share_count, Player, PlayerId,
    PlayerShares, PlayerView,
};
use crate::pricing::{stock_price, stock_price_spec, Hotel};

verus! {

/// A merger that waits on a player's decision. No rule sets or reads it yet;
/// it is carried from state to state unchanged.
#[derive(Clone, Copy, Debug, PartialEq, Eq, Structural)]
pub struct MergeDecision {
    pub player: PlayerId,
}

/// A full snapshot of a game.
pub struct Game {
    pub board: Board,
    pub players: Vec<Player>,
    pub turn: PlayerId,
    pub merge_decision: Option<MergeDecision>,
}

/// What a game is: the board's slots, the players' views, whose turn it is
/// and the pending merge decision.
pub struct GameView {
    pub slots: Seq<Slot>,
    pub players: Seq<PlayerView>,
    pub turn: PlayerId,
    pub merge_decision: Option<MergeDecision>,
}

/// The views of a sequence of players.
pub open spec fn players_view(players: Seq<Player>) -> Seq<PlayerView> {
    players.map_values(|p: Player| p@)
}

impl View for Game {
    type V = GameView;

    open spec fn view(&self) -> GameView {
        GameView {
            slots: self.board@,
            players: players_view(self.players@),
            turn: self.turn,
            merge_decision: self.merge_decision,
        }
    }
}

/// A move proposed by a player.
#[derive(Clone, Copy, Debug, PartialEq, Eq, Structural)]
pub enum Action {
    /// Lay a held tile on the board.
    PlaceTile { player: PlayerId, tile: Tile },
    /// Buy one share of each hotel named, up to three.
    BuyStocks {
        player: PlayerId,
        hotel1: Option<Hotel>,
        hotel2: Option<Hotel>,
        hotel3: Option<Hotel>,
    },
}

/// Why an action was refused.
#[derive(Clone, Copy, Debug, PartialEq, Eq, Structural)]
pub enum TurnError {
    /// The acting player does not hold the turn.
    NotPlayersTurn,
    /// The acting player does not hold the tile to place.
    TileNotHeld,
    /// No player of the game has the acting player's id.
    UnknownPlayer,
    /// The shares cost more than the acting player's cash.
    InsufficientFunds,
    /// A share count would exceed its largest value.
    ShareLimit,
}

/// The outcome of applying actions: the new game, or why an action was refused.
pub enum TurnResult {
    Success(Game),
    Error(TurnError),
}

/// What a `TurnResult` is.
pub enum TurnOutcome {
    Success(GameView),
    Error(TurnError),
}

impl View for TurnResult {
    type V = TurnOutcome;

    open spec fn view(&self) -> TurnOutcome {
        match self {
            TurnResult::Success(g) => TurnOutcome::Success(g@),
            TurnResult::Error(e) => TurnOutcome::Error(*e),
        }
    }
}

/// `i` is the first position of a player with id `id`.
pub open spec fn is_first_player(players: Seq<PlayerView>, id: PlayerId, i: int) -> bool {
    &&& 0 <= i < players.len()
    &&& players[i].id == id
    &&& forall|j: int| 0 <= j < i ==> players[j].id != id
}

/// Some player has id `id`.
pub open spec fn holds_player(players: Seq<PlayerView>, id: PlayerId) -> bool {
    exists|i: int| is_first_player(players, id, i)
}

/// Position of the first player with id `id`.
pub open spec fn player_index(players: Seq<PlayerView>, id: PlayerId) -> int {
    choose|i: int| is_first_player(players, id, i)
}

/// `k` is the first position of `tile` in `tiles`.
pub open spec fn is_first_tile(tiles: Seq<Tile>, tile: Tile, k: int) -> bool {
    &&& 0 <= k < tiles.len()
    &&& tiles[k] == tile
    &&& forall|j: int| 0 <= j < k ==> tiles[j] != tile
}

/// Position of the first occurrence of `tile` in `tiles`.
pub open spec fn tile_index(tiles: Seq<Tile>, tile: Tile) -> int {
    choose|k: int| is_first_tile(tiles, tile, k)
}

/// The player with id `id` exists and holds `tile`.
pub open spec fn player_holds_tile(players: Seq<PlayerView>, id: PlayerId, tile: Tile) -> bool {
    holds_player(players, id) && players[player_index(players, id)].tiles.contains(tile)
}

/// The outcome of `player` placing `tile`.
pub open spec fn place_tile_spec(g: GameView, player: PlayerId, tile: Tile) -> TurnOutcome {
    if g.turn != player {
        TurnOutcome::Error(TurnError::NotPlayersTurn)
    } else if !player_holds_tile(g.players, player, tile) {
        TurnOutcome::Error(TurnError::TileNotHeld)
    } else {
        let i = player_index(g.players, player);
        let p = g.players[i];
        let hand = p.tiles.remove(tile_index(p.tiles, tile));
        TurnOutcome::Success(
            GameView {
                slots: mark_tile(g.slots, tile),
                players: g.players.update(i, PlayerView { tiles: hand, ..p }),
                turn: g.turn,
                merge_decision: g.merge_decision,
            },
        )
    }
}

/// Price of one share of `hotel` in `g`, or nothing where no hotel is named.
pub open spec fn share_price_spec(g: GameView, hotel: Option<Hotel>) -> int {
    match hotel {
        Some(h) => stock_price_spec(h, chain_size(g.slots, h) as int),
        None => 0,
    }
}

/// `shares` with one more share of `hotel` where one is named; `None` where
/// `shares` is `None` or the count cannot grow.
pub open spec fn add_share_opt(shares: Option<PlayerShares>, hotel: Option<Hotel>) -> Option<
    PlayerShares,
> {
    match shares {
        None => None,
        Some(s) => match hotel {
            None => Some(s),
            Some(h) => add_share_spec(s, h),
        },
    }
}

/// Total price of the shares named.
pub open spec fn purchase_cost(
    g: GameView,
    hotel1: Option<Hotel>,
    hotel2: Option<Hotel>,
    hotel3: Option<Hotel>,
) -> int {
    share_price_spec(g, hotel1) + share_price_spec(g, hotel2) + share_price_spec(g, hotel3)
}

/// The player `p` after buying one share of each hotel named: cash down by
/// the total price, share counts up. Refused where a price is due that the
/// cash does not cover, or a count cannot grow; buying nothing is free and
/// never refused for want of cash.
pub open spec fn player_buy_stocks_spec(
    g: GameView,
    p: PlayerView,
    hotel1: Option<Hotel>,
    hotel2: Option<Hotel>,
    hotel3: Option<Hotel>,
) -> Result<PlayerView, TurnError> {
    let cost = purchase_cost(g, hotel1, hotel2, hotel3);
    if cost > 0 && p.money < cost {
        Err(TurnError::InsufficientFunds)
    } else {
        match add_share_opt(add_share_opt(add_share_opt(Some(p.shares), hotel1), hotel2), hotel3) {
            None => Err(TurnError::ShareLimit),
            Some(shares) => Ok(PlayerView { money: (p.money - cost) as i32, shares: shares, ..p }),
        }
    }
}

/// The outcome of `player` buying one share of each hotel named. A purchase
/// is made only in turn, by a player of the game, and only where the cash
/// covers its price, so that no purchase takes a balance below zero.
pub open spec fn buy_stocks_spec(
    g: GameView,
    player: PlayerId,
    hotel1: Option<Hotel>,
    hotel2: Option<Hotel>,
    hotel3: Option<Hotel>,
) -> TurnOutcome {
    if g.turn != player {
        TurnOutcome::Error(TurnError::NotPlayersTurn)
    } else if !holds_player(g.players, player) {
        TurnOutcome::Error(TurnError::UnknownPlayer)
    } else {
        let i = player_index(g.players, player);
        match player_buy_stocks_spec(g, g.players[i], hotel1, hotel2, hotel3) {
            Ok(p) => TurnOutcome::Success(GameView { players: g.players.update(i, p), ..g }),
            Err(e) => TurnOutcome::Error(e),
        }
    }
}

/// The outcome of applying `action` to `g`.
pub open spec fn play_turn_spec(g: GameView, action: Action) -> TurnOutcome {
    match action {
        Action::PlaceTile { player, tile } => place_tile_spec(g, player, tile),
        Action::BuyStocks { player, hotel1, hotel2, hotel3 } => buy_stocks_spec(
            g,
            player,
            hotel1,
            hotel2,
            hotel3,
        ),
    }
}

/// The outcome of applying `actions` to `g` from left to right, stopping at
/// the first refusal.
pub open spec fn compute_state_spec(g: GameView, actions: Seq<Action>) -> TurnOutcome
    decreases actions.len(),
{
    if actions.len() == 0 {
        TurnOutcome::Success(g)
    } else {
        match compute_state_spec(g, actions.drop_last()) {
            TurnOutcome::Success(s) => play_turn_spec(s, actions.last()),
            TurnOutcome::Error(e) => TurnOutcome::Error(e),
        }
    }
}

/// Copies of `players`.
fn copy_players(players: &Vec<Player>) -> (r: Vec<Player>)
    ensures
        players_view(r@) == players_view(players@),
{
    let mut copies: Vec<Player> = Vec::new();
    let mut i: usize = 0;
    while i < players.len()
        invariant
            i <= players.len(),
            copies@.len() == i,
            forall|j: int| 0 <= j < i ==> (#[trigger] copies@[j])@ == players@[j]@,
        decreases players.len() - i,
    {
        let p = &players[i];
        let c = p.copy();
        copies.push(c);
        i += 1;
    }
    assert(players_view(copies@) =~= players_view(players@));
    copies
}

impl Game {
    /// A game equal to this one.
    pub fn copy(&self) -> (r: Game)
        ensures
            r@ == self@,
    {
        let slots = self.board.slots.clone();
        assert(slots@ =~= self.board.slots@);
        Game {
            board: Board { slots: slots },
            players: copy_players(&self.players),
            turn: self.turn,
            merge_decision: self.merge_decision,
        }
    }
}

/// Position of the first player with id `id`, or `None` where there is none.
fn find_player(players: &Vec<Player>, id: PlayerId) -> (r: Option<usize>)
    ensures
        match r {
            Some(i) => is_first_player(players_view(players@), id, i as int),
            None => !holds_player(players_view(players@), id),
        },
{
    let mut i: usize = 0;
    while i < players.len()
        invariant
            i <= players.len(),
            forall|j: int| 0 <= j < i ==> players@[j].id != id,
        decreases players.len() - i,
    {
        if players[i].id == id {
            return Some(i);
        }
        i += 1;
    }
    None
}

/// Position of the first occurrence of `tile` in `tiles`.
fn tile_position(tiles: &Vec<Tile>, tile: &Tile) -> (r: usize)
    requires
        tiles@.contains(*tile),
    ensures
        is_first_tile(tiles@, *tile, r as int),
{
    let mut k: usize = 0;
    while k < tiles.len()
        invariant
            k <= tiles.len(),
            tiles@.contains(*tile),
            forall|j: int| 0 <= j < k ==> tiles@[j] != *tile,
        decreases tiles.len() - k,
    {
        if tiles[k] == *tile {
            return k;
        }
        k += 1;
    }
    proof {
        let j = choose|j: int| 0 <= j < tiles@.len() && tiles@[j] == *tile;
        assert(tiles@[j] != *tile);
    }
    0
}

/// Whether `player` holds the turn.
fn game_player_has_turn(game: &Game, player: PlayerId) -> (r: bool)
    ensures
        r == (game.turn == player),
{
    game.turn == player
}

/// Whether the first player with id `player` exists and holds `tile`.
fn game_player_has_tile(game: &Game, player: PlayerId, tile: &Tile) -> (r: bool)
    ensures
        r == player_holds_tile(game@.players, player, *tile),
{
    match find_player(&game.players, player) {
        Some(i) => player_has_tile(&game.players[i], tile),
        None => false,
    }
}

/// Placing a tile that the acting player does not hold is refused, whatever
/// else holds; nothing is applied.
pub proof fn lemma_place_unheld_tile_refused(g: GameView, player: PlayerId, tile: Tile)
    requires
        !player_holds_tile(g.players, player, tile),
    ensures
        play_turn_spec(g, Action::PlaceTile { player, tile }) is Error,
        g.turn == player ==> play_turn_spec(g, Action::PlaceTile { player, tile })
            == TurnOutcome::Error(TurnError::TileNotHeld),
{
}

/// Placing a tile out of turn is refused, whether or not the player holds it.
pub proof fn lemma_place_out_of_turn_refused(g: GameView, player: PlayerId, tile: Tile)
    requires
        g.turn != player,
    ensures
        play_turn_spec(g, Action::PlaceTile { player, tile }) == TurnOutcome::Error(
            TurnError::NotPlayersTurn,
        ),
{
}

/// A placement that succeeds takes one copy of the tile out of the acting
/// player's hand, lays a tile on the slot at its coordinate, and changes
/// nothing else: no other slot, no other player, not the turn.
pub proof fn lemma_place_tile_success(g: GameView, player: PlayerId, tile: Tile)
    requires
        play_turn_spec(g, Action::PlaceTile { player, tile }) is Success,
    ensures
        ({
            let n = play_turn_spec(g, Action::PlaceTile { player, tile })->Success_0;
            let i = player_index(g.players, player);
            &&& holds_player(g.players, player)
            &&& g.players[i].tiles.contains(tile)
            &&& n.players.len() == g.players.len()
            &&& n.players[i].tiles.len() == g.players[i].tiles.len() - 1
            &&& n.players[i].tiles.to_multiset() == g.players[i].tiles.to_multiset().remove(tile)
            &&& n.players[i].id == g.players[i].id
            &&& n.players[i].money == g.players[i].money
            &&& n.players[i].shares == g.players[i].shares
            &&& forall|j: int| 0 <= j < g.players.len() && j != i ==> n.players[j] == g.players[j]
            &&& n.slots.len() == g.slots.len()
            &&& forall|k: int|
                0 <= k < g.slots.len() ==> if g.slots[k].row == tile.row && g.slots[k].col
                    == tile.col {
                    n.slots[k] == (Slot { has_tile: true, ..g.slots[k] })
                } else {
                    n.slots[k] == g.slots[k]
                }
            &&& n.turn == g.turn
            &&& n.merge_decision == g.merge_decision
        }),
{
    broadcast use vstd::seq_lib::group_to_multiset_ensures;

    let i = player_index(g.players, player);
    let hand = g.players[i].tiles;
    let k = tile_index(hand, tile);
    lemma_first_tile_exists(hand, tile);
    assert(is_first_tile(hand, tile, k));
}

/// A player who holds the turn and the tile places it: the placement
/// succeeds, the tile leaves the hand of the player at position `i` (the
/// first with that id) once, its slot gets a tile and keeps its hotel, and
/// nothing else changes.
pub proof fn lemma_place_held_tile_succeeds(g: GameView, player: PlayerId, tile: Tile, i: int)
    requires
        g.turn == player,
        0 <= i < g.players.len(),
        g.players[i].id == player,
        forall|j: int| 0 <= j < i ==> g.players[j].id != player,
        g.players[i].tiles.contains(tile),
    ensures
        play_turn_spec(g, Action::PlaceTile { player, tile }) is Success,
        ({
            let n = play_turn_spec(g, Action::PlaceTile { player, tile })->Success_0;
            &&& n.players.len() == g.players.len()
            &&& n.players[i].tiles == g.players[i].tiles.remove(tile_index(g.players[i].tiles, tile))
            &&& is_first_tile(g.players[i].tiles, tile, tile_index(g.players[i].tiles, tile))
            &&& n.players[i].tiles.len() == g.players[i].tiles.len() - 1
            &&& n.players[i].id == g.players[i].id
            &&& n.players[i].money == g.players[i].money
            &&& n.players[i].shares == g.players[i].shares
            &&& forall|j: int| 0 <= j < g.players.len() && j != i ==> n.players[j] == g.players[j]
            &&& n.slots.len() == g.slots.len()
            &&& forall|k: int|
                0 <= k < g.slots.len() ==> if g.slots[k].row == tile.row && g.slots[k].col
                    == tile.col {
                    n.slots[k] == (Slot { has_tile: true, ..g.slots[k] })
                } else {
                    n.slots[k] == g.slots[k]
                }
            &&& n.turn == g.turn
            &&& n.merge_decision == g.merge_decision
        }),
{
    assert(is_first_player(g.players, player, i));
    lemma_first_player_unique(g.players, player, i);
    lemma_first_tile_exists(g.players[i].tiles, tile);
    lemma_place_tile_success(g, player, tile);
}

/// A tile that occurs in `tiles` has a first position there.
proof fn lemma_first_tile_exists(tiles: Seq<Tile>, tile: Tile)
    requires
        tiles.contains(tile),
    ensures
        exists|k: int| is_first_tile(tiles, tile, k),
    decreases tiles.len(),
{
    let front = tiles.drop_last();
    if front.contains(tile) {
        lemma_first_tile_exists(front, tile);
        let k = choose|k: int| is_first_tile(front, tile, k);
        assert forall|j: int| 0 <= j < k implies tiles[j] != tile by {
            assert(front[j] == tiles[j]);
        }
        assert(front[k] == tiles[k]);
        assert(is_first_tile(tiles, tile, k));
    } else {
        assert forall|j: int| 0 <= j < tiles.len() - 1 implies tiles[j] != tile by {
            assert(front[j] == tiles[j]);
        }
        assert(is_first_tile(tiles, tile, tiles.len() - 1));
    }
}

/// Once an action is refused, the refusal is the outcome of the whole
/// sequence: no later action is applied.
pub proof fn lemma_compute_state_stops_at_refusal(
    g: GameView,
    done: Seq<Action>,
    refused: Action,
    rest: Seq<Action>,
)
    requires
        compute_state_spec(g, done) is Success,
        play_turn_spec(compute_state_spec(g, done)->Success_0, refused) is Error,
    ensures
        compute_state_spec(g, done.push(refused) + rest) == play_turn_spec(
            compute_state_spec(g, done)->Success_0,
            refused,
        ),
    decreases rest.len(),
{
    if rest.len() == 0 {
        assert(done.push(refused) + rest =~= done.push(refused));
        assert(done.push(refused).drop_last() =~= done);
    } else {
        lemma_compute_state_stops_at_refusal(g, done, refused, rest.drop_last());
        assert((done.push(refused) + rest).drop_last() =~= done.push(refused) + rest.drop_last());
    }
}

/// Buying shares of two different hotels in one action raises both counts by
/// one, keeps every other count, and takes the sum of both prices from the
/// buyer's cash in one step; nothing else changes.
pub proof fn lemma_buy_two_hotels(g: GameView, player: PlayerId, hotel1: Hotel, hotel2: Hotel)
    requires
        hotel1 != hotel2,
        play_turn_spec(
            g,
            Action::BuyStocks { player, hotel1: Some(hotel1), hotel2: Some(hotel2), hotel3: None },
        ) is Success,
    ensures
        ({
            let n = play_turn_spec(
                g,
                Action::BuyStocks {
                    player,
                    hotel1: Some(hotel1),
                    hotel2: Some(hotel2),
                    hotel3: None,
                },
            )->Success_0;
            let i = player_index(g.players, player);
            let before = g.players[i];
            let after = n.players[i];
            &&& holds_player(g.players, player)
            &&& share_count(after.shares, hotel1) == share_count(before.shares, hotel1) + 1
            &&& share_count(after.shares, hotel2) == share_count(before.shares, hotel2) + 1
            &&& forall|h: Hotel|
                h != hotel1 && h != hotel2 ==> share_count(after.shares, h) == share_count(
                    before.shares,
                    h,
                )
            &&& after.money == before.money - (share_price_spec(g, Some(hotel1))
                + share_price_spec(g, Some(hotel2)))
            &&& after.money >= 0
            &&& after.id == before.id
            &&& after.tiles == before.tiles
            &&& n.players.len() == g.players.len()
            &&& forall|j: int| 0 <= j < g.players.len() && j != i ==> n.players[j] == g.players[j]
            &&& n.slots == g.slots
            &&& n.turn == g.turn
        }),
{
    let i = player_index(g.players, player);
    let s0 = g.players[i].shares;
    let s1 = add_share_spec(s0, hotel1).unwrap();
    let s2 = add_share_spec(s1, hotel2).unwrap();
    assert forall|h: Hotel| #[trigger] share_count(s2, h) == share_count(s0, h) + (if h == hotel1 {
        1int
    } else {
        0int
    }) + (if h == hotel2 {
        1int
    } else {
        0int
    }) by {
        lemma_add_share_count(s0, hotel1, h);
        lemma_add_share_count(s1, hotel2, h);
    }
}

/// No two players share an id.
pub open spec fn ids_distinct(players: Seq<PlayerView>) -> bool {
    forall|i: int, j: int|
        0 <= i < players.len() && 0 <= j < players.len() && i != j ==> players[i].id
            != players[j].id
}

/// Where no two players share an id, the player that the rules act on is the
/// one at the position holding that id.
pub proof fn lemma_player_index_of_distinct_ids(players: Seq<PlayerView>, id: PlayerId, i: int)
    requires
        ids_distinct(players),
        0 <= i < players.len(),
        players[i].id == id,
    ensures
        holds_player(players, id),
        player_index(players, id) == i,
{
    assert(is_first_player(players, id, i));
    lemma_first_player_unique(players, id, i);
}

/// A first position is the only one.
proof fn lemma_first_player_unique(players: Seq<PlayerView>, id: PlayerId, i: int)
    requires
        is_first_player(players, id, i),
    ensures
        holds_player(players, id),
        player_index(players, id) == i,
{
    let k = player_index(players, id);
    assert(is_first_player(players, id, k));
    if k < i {
        assert(players[k].id != id);
    } else if i < k {
        assert(players[i].id != id);
    }
}

/// A first position is the only one.
proof fn lemma_first_tile_unique(tiles: Seq<Tile>, tile: Tile, k: int)
    requires
        is_first_tile(tiles, tile, k),
    ensures
        tile_index(tiles, tile) == k,
{
    let m = tile_index(tiles, tile);
    assert(is_first_tile(tiles, tile, m));
    if m < k {
        assert(tiles[m] != tile);
    } else if k < m {
        assert(tiles[k] != tile);
    }
}

/// `players` with the first occurrence of `tile` taken out of the hand of the
/// player at position `i`.
fn remove_tile_from_player(players: Vec<Player>, i: usize, tile: &Tile) -> (r: Vec<Player>)
    requires
        i < players.len(),
        players@[i as int]@.tiles.contains(*tile),
    ensures
        players_view(r@) == players_view(players@).update(
            i as int,
            PlayerView {
                tiles: players@[i as int]@.tiles.remove(
                    tile_index(players@[i as int]@.tiles, *tile),
                ),
                ..players@[i as int]@
            },
        ),
{
    let mut players = players;
    let ghost before = players@;
    let mut p = players[i].copy();
    let k = tile_position(&p.tiles, tile);
    proof {
        lemma_first_tile_unique(p.tiles@, *tile, k as int);
    }
    p.tiles.remove(k);
    players[i] = p;
    assert(players_view(players@) =~= players_view(before).update(
        i as int,
        PlayerView {
            tiles: before[i as int]@.tiles.remove(tile_index(before[i as int]@.tiles, *tile)),
            ..before[i as int]@
        },
    ));
    players
}

/// `player` lays `tile` on the board: refused where `player` does not hold
/// the turn, or does not hold the tile; otherwise the tile leaves the hand and
/// its slot gets a tile.
fn place_tile(game: &Game, player_id: PlayerId, tile: &Tile) -> (r: TurnResult)
    ensures
        r@ == place_tile_spec(game@, player_id, *tile),
{
    if !game_player_has_turn(game, player_id) {
        return TurnResult::Error(TurnError::NotPlayersTurn);
    }
    if !game_player_has_tile(game, player_id, tile) {
        return TurnResult::Error(TurnError::TileNotHeld);
    }
    let i = match find_player(&game.players, player_id) {
        Some(i) => i,
        None => {
            return TurnResult::Error(TurnError::TileNotHeld);
        },
    };
    proof {
        lemma_first_player_unique(game@.players, player_id, i as int);
    }
    let players = remove_tile_from_player(copy_players(&game.players), i, tile);
    TurnResult::Success(
        Game {
            board: place_tile_on_board(&game.board, tile),
            players: players,
            turn: game.turn,
            merge_decision: game.merge_decision,
        },
    )
}

/// Price of one share of `hotel` in `game`, or 0 where no hotel is named.
fn share_price(game: &Game, hotel: Option<Hotel>) -> (r: i32)
    ensures
        r == share_price_spec(game@, hotel),
        0 <= r <= 1200,
{
    match hotel {
        Some(h) => stock_price(h, hotel_chain_size(&game.board, h)),
        None => 0,
    }
}

/// `shares` with one more share of `hotel` where one is named.
fn add_share_opt_exec(shares: Option<PlayerShares>, hotel: Option<Hotel>) -> (r: Option<
    PlayerShares,
>)
    ensures
        r == add_share_opt(shares, hotel),
{
    match shares {
        None => None,
        Some(s) => match hotel {
            None => Some(s),
            Some(h) => add_share(s, h),
        },
    }
}

/// `player` after buying one share of each hotel named.
fn player_buy_stocks(
    game: &Game,
    player: &Player,
    hotel1: Option<Hotel>,
    hotel2: Option<Hotel>,
    hotel3: Option<Hotel>,
) -> (r: Result<Player, TurnError>)
    ensures
        match r {
            Ok(p) => player_buy_stocks_spec(game@, player@, hotel1, hotel2, hotel3) == Ok::<
                PlayerView,
                TurnError,
            >(p@),
            Err(e) => player_buy_stocks_spec(game@, player@, hotel1, hotel2, hotel3) == Err::<
                PlayerView,
                TurnError,
            >(e),
        },
{
    let total_cost = share_price(game, hotel1) + share_price(game, hotel2) + share_price(
        game,
        hotel3,
    );
    if total_cost > 0 && player.money < total_cost {
        return Err(TurnError::InsufficientFunds);
    }
    let shares = add_share_opt_exec(
        add_share_opt_exec(add_share_opt_exec(Some(player.shares), hotel1), hotel2),
        hotel3,
    );
    match shares {
        None => Err(TurnError::ShareLimit),
        Some(new_shares) => {
            let tiles = player.tiles.clone();
            assert(tiles@ =~= player.tiles@);
            Ok(
                Player {
                    id: player.id,
                    money: player.money - total_cost,
                    shares: new_shares,
                    tiles: tiles,
                },
            )
        },
    }
}

/// `player` buys one share of each hotel named: refused where `player` does
/// not hold the turn, is not in the game, cannot pay, or a count cannot grow.
fn buy_stocks(
    game: &Game,
    player: PlayerId,
    hotel1: Option<Hotel>,
    hotel2: Option<Hotel>,
    hotel3: Option<Hotel>,
) -> (r: TurnResult)
    ensures
        r@ == buy_stocks_spec(game@, player, hotel1, hotel2, hotel3),
{
    if !game_player_has_turn(game, player) {
        return TurnResult::Error(TurnError::NotPlayersTurn);
    }
    let i = match find_player(&game.players, player) {
        Some(i) => i,
        None => {
            return TurnResult::Error(TurnError::UnknownPlayer);
        },
    };
    proof {
        lemma_first_player_unique(game@.players, player, i as int);
    }
    match player_buy_stocks(game, &game.players[i], hotel1, hotel2, hotel3) {
        Err(e) => TurnResult::Error(e),
        Ok(p) => {
            let mut players = copy_players(&game.players);
            let ghost before = players@;
            let ghost pv = p@;
            players[i] = p;
            assert(players_view(players@) =~= players_view(before).update(i as int, pv));
            let slots = game.board.slots.clone();
            assert(slots@ =~= game.board.slots@);
            TurnResult::Success(
                Game {
                    board: Board { slots: slots },
                    players: players,
                    turn: game.turn,
                    merge_decision: game.merge_decision,
                },
            )
        },
    }
}

/// Applies one action to `game`: the new game, or why the action was refused.
/// The turn stays with the same player after a successful action.
pub fn play_turn(game: &Game, action: &Action) -> (r: TurnResult)
    ensures
        r@ == play_turn_spec(game@, *action),
{
    match *action {
        Action::PlaceTile { player, tile } => place_tile(game, player, &tile),
        Action::BuyStocks { player, hotel1, hotel2, hotel3 } => buy_stocks(
            game,
            player,
            hotel1,
            hotel2,
            hotel3,
        ),
    }
}

/// Applies `actions` to `last_state` from left to right; the first refusal
/// is the result, and no later action is applied.
pub fn compute_state(last_state: &Game, actions: &Vec<Action>) -> (r: TurnResult)
    ensures
        r@ == compute_state_spec(last_state@, actions@),
{
    let mut result = TurnResult::Success(last_state.copy());
    let mut i: usize = 0;
    while i < actions.len()
        invariant
            i <= actions.len(),
            result@ == compute_state_spec(last_state@, actions@.subrange(0, i as int)),
        decreases actions.len() - i,
    {
        let action = actions[i];
        result = match result {
            TurnResult::Success(game) => play_turn(&game, &action),
            TurnResult::Error(e) => TurnResult::Error(e),
        };
        proof {
            assert(actions@.subrange(0, i + 1).drop_last() =~= actions@.subrange(0, i as int));
        }
        i += 1;
    }
    assert(actions@.subrange(0, i as int) =~= actions@);
    result
}

/// An empty sequence of actions.
pub fn new_actions() -> (r: Vec<Action>)
    ensures
        r@ == Seq::<Action>::empty(),
{
    Vec::new()
}

} // verus!
