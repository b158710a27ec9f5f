//! Setting up a game: drawing tiles at random, dealing hands, and building
//! the first board.

use vstd::prelude::*;

use crate::board::{
    all_coords, board_tiles, initial_slots, initial_slots_spec, lemma_all_coords_distinct, Board, Tile,
    TILES,
};
use crate::engine::{players_view, Game, GameView};
use crate::player::{
    new_player, no_shares, Player, PlayerId, PlayerView, HAND_SIZE, PLAYERS, STARTING_MONEY,
};

verus! {

/// Relies on rand::random: a value drawn from the thread-local generator.
/// Nothing is promised of the value.
pub assume_specification<T>[ rand::random::<T> ]() -> (r: T)
    where
        rand::distributions::Standard: rand::distributions::Distribution<T>,
;

/// The tiles chosen and the tiles left after drawing from `pool` once per
/// entry of `draws`: each draw takes out the tile at its value modulo the
/// number of tiles left.
pub open spec fn choose_tiles_spec(pool: Seq<Tile>, draws: Seq<usize>) -> (Seq<Tile>, Seq<Tile>)
    decreases draws.len(),
{
    if draws.len() == 0 {
        (Seq::empty(), pool)
    } else {
        let before = choose_tiles_spec(pool, draws.drop_last());
        let remaining = before.1;
        if remaining.len() == 0 {
            before
        } else {
            let k = draws.last() as int % remaining.len() as int;
            (before.0.push(remaining[k]), remaining.remove(k))
        }
    }
}

/// Drawing `k` tiles from a pool of at least `k` splits it in two: `k` tiles
/// chosen, the others left, and together they are the pool, as a multiset
/// and as a set. Where the pool has no tile twice, no tile is both chosen
/// and left.
pub proof fn lemma_choose_tiles_partition(pool: Seq<Tile>, draws: Seq<usize>)
    requires
        draws.len() <= pool.len(),
    ensures
        choose_tiles_spec(pool, draws).0.len() == draws.len(),
        choose_tiles_spec(pool, draws).1.len() == pool.len() - draws.len(),
        choose_tiles_spec(pool, draws).0.to_multiset().add(
            choose_tiles_spec(pool, draws).1.to_multiset(),
        ) == pool.to_multiset(),
        choose_tiles_spec(pool, draws).0.to_set() + choose_tiles_spec(pool, draws).1.to_set()
            == pool.to_set(),
        pool.no_duplicates() ==> forall|t: Tile|
            choose_tiles_spec(pool, draws).0.contains(t) ==> !choose_tiles_spec(
                pool,
                draws,
            ).1.contains(t),
    decreases draws.len(),
{
    broadcast use vstd::seq_lib::group_to_multiset_ensures;

    let chosen = choose_tiles_spec(pool, draws).0;
    let remaining = choose_tiles_spec(pool, draws).1;
    if draws.len() > 0 {
        lemma_choose_tiles_partition(pool, draws.drop_last());
        let before = choose_tiles_spec(pool, draws.drop_last());
        let k = draws.last() as int % before.1.len() as int;
        assert(chosen.to_multiset() =~= before.0.to_multiset().insert(before.1[k]));
        assert(remaining.to_multiset() =~= before.1.to_multiset().remove(before.1[k]));
        assert(chosen.to_multiset().add(remaining.to_multiset()) =~= pool.to_multiset());
    } else {
        assert(chosen.to_multiset().add(remaining.to_multiset()) =~= pool.to_multiset());
    }
    assert forall|t: Tile| (chosen.to_set() + remaining.to_set()).contains(t) <==> pool.to_set().contains(t) by {
        assert(chosen.to_multiset().add(remaining.to_multiset()).count(t) == pool.to_multiset().count(t));
    }
    assert(chosen.to_set() + remaining.to_set() =~= pool.to_set());
    if pool.no_duplicates() {
        pool.lemma_multiset_has_no_duplicates();
        assert forall|t: Tile| chosen.contains(t) implies !remaining.contains(t) by {
            assert(chosen.to_multiset().add(remaining.to_multiset()).count(t) == pool.to_multiset().count(t));
        }
    }
}

/// No tile is dealt twice: the tiles drawn from the board, which make the
/// board's first tiles and every hand, are pairwise distinct.
pub proof fn lemma_dealt_tiles_distinct(draws: Seq<usize>)
    requires
        draws.len() <= TILES,
    ensures
        choose_tiles_spec(all_coords(), draws).0.no_duplicates(),
{
    broadcast use vstd::seq_lib::group_to_multiset_ensures;

    let pool = all_coords();
    let chosen = choose_tiles_spec(pool, draws).0;
    let left = choose_tiles_spec(pool, draws).1;
    lemma_all_coords_distinct();
    lemma_choose_tiles_partition(pool, draws);
    pool.lemma_multiset_has_no_duplicates();
    assert forall|t: Tile| chosen.to_multiset().contains(t) implies chosen.to_multiset().count(t)
        == 1 by {
        assert(chosen.to_multiset().add(left.to_multiset()).count(t) == pool.to_multiset().count(t));
    }
    chosen.lemma_multiset_has_no_duplicates_conv();
}

/// Draws `draws.len()` tiles from `tiles`, as `choose_tiles_spec` says: the
/// tiles chosen, in the order drawn, and the tiles left, in their order.
pub fn choose_tiles_with(tiles: Vec<Tile>, draws: &Vec<usize>) -> (r: (Vec<Tile>, Vec<Tile>))
    requires
        draws.len() <= tiles.len(),
    ensures
        (r.0@, r.1@) == choose_tiles_spec(tiles@, draws@),
{
    let ghost pool = tiles@;
    let mut remaining = tiles;
    let mut chosen: Vec<Tile> = Vec::new();
    let mut i: usize = 0;
    while i < draws.len()
        invariant
            i <= draws.len() <= pool.len(),
            (chosen@, remaining@) == choose_tiles_spec(pool, draws@.subrange(0, i as int)),
        decreases draws.len() - i,
    {
        proof {
            lemma_choose_tiles_partition(pool, draws@.subrange(0, i as int));
            assert(draws@.subrange(0, i + 1).drop_last() =~= draws@.subrange(0, i as int));
        }
        let k = draws[i] % remaining.len();
        let tile = remaining.remove(k);
        chosen.push(tile);
        i += 1;
    }
    assert(draws@.subrange(0, i as int) =~= draws@);
    (chosen, remaining)
}

/// Draws `count` tiles from `tiles` uniformly at random, without replacement:
/// the tiles chosen and the tiles left, which together are `tiles`.
pub fn choose_tiles(tiles: Vec<Tile>, count: u8) -> (r: (Vec<Tile>, Vec<Tile>))
    requires
        count <= tiles.len(),
    ensures
        exists|draws: Seq<usize>|
            draws.len() == count && (r.0@, r.1@) == #[trigger] choose_tiles_spec(tiles@, draws),
        r.0@.len() == count,
        r.1@.len() == tiles@.len() - count,
        r.0@.to_multiset().add(r.1@.to_multiset()) == tiles@.to_multiset(),
{
    let draws = random_draws(count as usize);
    proof {
        lemma_choose_tiles_partition(tiles@, draws@);
    }
    choose_tiles_with(tiles, &draws)
}

/// `p` is the player numbered `number` as dealt: starting cash, no shares,
/// and `hand`.
pub open spec fn is_dealt_player(p: PlayerView, number: int, hand: Seq<Tile>) -> bool {
    &&& p.id.number() == number
    &&& p.money == STARTING_MONEY
    &&& p.shares == no_shares()
    &&& p.tiles == hand
}

/// The hand of the player at position `i` when hands are cut one after the
/// other from `chosen`, from position `start` on.
pub open spec fn hand_of(chosen: Seq<Tile>, start: int, i: int) -> Seq<Tile> {
    chosen.subrange(start + i * HAND_SIZE, start + (i + 1) * HAND_SIZE)
}

/// `players` are the `PLAYERS` players, in order, with hands cut from
/// `chosen` from position `start` on.
pub open spec fn are_dealt_players(players: Seq<PlayerView>, chosen: Seq<Tile>, start: int) -> bool {
    &&& players.len() == PLAYERS
    &&& forall|i: int|
        0 <= i < PLAYERS ==> is_dealt_player(#[trigger] players[i], i + 1, hand_of(chosen, start, i))
}

/// `g` is the new game dealt by `draws` from the tiles of the board: the
/// first `PLAYERS` tiles drawn are laid on the board, the next ones make the
/// hands; player one moves and no merge is pending.
pub open spec fn is_game_from_draws(g: GameView, draws: Seq<usize>) -> bool {
    let chosen = choose_tiles_spec(all_coords(), draws).0;
    &&& g.slots == initial_slots_spec(chosen.subrange(0, PLAYERS as int))
    &&& are_dealt_players(g.players, chosen, PLAYERS as int)
    &&& g.turn == PlayerId::One
    &&& g.merge_decision.is_none()
}

/// The tiles of `tiles` from position `from`, `count` of them.
fn take_tiles(tiles: &Vec<Tile>, from: usize, count: usize) -> (r: Vec<Tile>)
    requires
        from + count <= tiles.len(),
    ensures
        r@ == tiles@.subrange(from as int, from + count),
{
    let mut taken: Vec<Tile> = Vec::new();
    let mut k: usize = 0;
    while k < count
        invariant
            k <= count,
            from + count <= tiles.len(),
            taken@ == tiles@.subrange(from as int, from + k),
        decreases count - k,
    {
        taken.push(tiles[from + k]);
        k += 1;
        assert(taken@ =~= tiles@.subrange(from as int, from + k));
    }
    taken
}

/// The `PLAYERS` players, each with the next `HAND_SIZE` tiles of `chosen`
/// from position `start` on.
fn deal_hands(chosen: &Vec<Tile>, start: usize) -> (r: Vec<Player>)
    requires
        start + PLAYERS * HAND_SIZE <= chosen.len(),
    ensures
        are_dealt_players(players_view(r@), chosen@, start as int),
{
    let mut players: Vec<Player> = Vec::new();
    let mut i: u8 = 0;
    while i < PLAYERS
        invariant
            i <= PLAYERS,
            start + PLAYERS * HAND_SIZE <= chosen.len(),
            players.len() == i,
            forall|j: int|
                0 <= j < i ==> is_dealt_player(
                    #[trigger] players@[j]@,
                    j + 1,
                    hand_of(chosen@, start as int, j),
                ),
        decreases PLAYERS - i,
    {
        assert(i * HAND_SIZE + HAND_SIZE <= PLAYERS * HAND_SIZE) by (nonlinear_arith)
            requires
                i < PLAYERS,
        ;
        let hand = take_tiles(chosen, start + i as usize * HAND_SIZE as usize, HAND_SIZE as usize);
        let id = PlayerId::new(i + 1).unwrap();
        players.push(new_player(id, hand));
        i += 1;
    }
    proof {
        assert forall|j: int| 0 <= j < PLAYERS implies is_dealt_player(
            #[trigger] players_view(players@)[j],
            j + 1,
            hand_of(chosen@, start as int, j),
        ) by {
            assert(players_view(players@)[j] == players@[j]@);
        }
    }
    players
}

/// The `PLAYERS` players of a new game, dealt by `draws` from `tiles`: the
/// tiles drawn, in order, give each player in turn `HAND_SIZE` of them.
pub fn new_players_with(tiles: Vec<Tile>, draws: &Vec<usize>) -> (r: Vec<Player>)
    requires
        draws.len() == PLAYERS * HAND_SIZE,
        tiles.len() >= PLAYERS * HAND_SIZE,
    ensures
        are_dealt_players(players_view(r@), choose_tiles_spec(tiles@, draws@).0, 0),
{
    let (chosen, _left) = choose_tiles_with(tiles, draws);
    proof {
        lemma_choose_tiles_partition(tiles@, draws@);
    }
    deal_hands(&chosen, 0)
}

/// `count` numbers drawn at random.
fn random_draws(count: usize) -> (r: Vec<usize>)
    ensures
        r@.len() == count,
{
    let mut draws: Vec<usize> = Vec::new();
    let mut i: usize = 0;
    while i < count
        invariant
            i <= count,
            draws@.len() == i,
        decreases count - i,
    {
        draws.push(rand::random::<usize>());
        i += 1;
    }
    draws
}

/// The `PLAYERS` players of a new game, each dealt `HAND_SIZE` tiles drawn at
/// random from `tiles`.
pub fn new_players(tiles: Vec<Tile>) -> (r: Vec<Player>)
    requires
        tiles.len() >= PLAYERS * HAND_SIZE,
    ensures
        exists|draws: Seq<usize>|
            draws.len() == PLAYERS * HAND_SIZE && are_dealt_players(
                players_view(r@),
                #[trigger] choose_tiles_spec(tiles@, draws).0,
                0,
            ),
{
    let draws = random_draws(PLAYERS as usize * HAND_SIZE as usize);
    new_players_with(tiles, &draws)
}

/// The new game dealt by `draws`: the first `PLAYERS` tiles drawn from the
/// board's tiles are laid on the board, the following ones are dealt as
/// hands, player one moves, and no merge is pending.
pub fn new_game_with(draws: &Vec<usize>) -> (r: Game)
    requires
        draws.len() == PLAYERS + PLAYERS * HAND_SIZE,
    ensures
        is_game_from_draws(r@, draws@),
{
    let all_tiles = board_tiles();
    proof {
        lemma_choose_tiles_partition(all_tiles@, draws@);
    }
    let (chosen, _left) = choose_tiles_with(all_tiles, draws);
    let starting_tiles = take_tiles(&chosen, 0, PLAYERS as usize);
    let players = deal_hands(&chosen, PLAYERS as usize);
    let slots = initial_slots(starting_tiles);
    Game {
        board: Board { slots: slots },
        players: players,
        turn: PlayerId::One,
        merge_decision: None,
    }
}

/// A new game: a fresh board with `PLAYERS` tiles drawn at random already
/// laid, the players dealt their hands from the other tiles, player one to
/// move, and no merge pending.
pub fn new_game() -> (r: Game)
    ensures
        exists|draws: Seq<usize>|
            draws.len() == PLAYERS + PLAYERS * HAND_SIZE && #[trigger] is_game_from_draws(
                r@,
                draws,
            ),
        r@.turn == PlayerId::One,
        r@.merge_decision.is_none(),
        r@.players.len() == PLAYERS,
{
    let draws = random_draws(PLAYERS as usize + PLAYERS as usize * HAND_SIZE as usize);
    new_game_with(&draws)
}

} // verus!
