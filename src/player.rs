//! Players: identities, share holdings, cash and held tiles.

use vstd::prelude::*;

use crate::board::{has_tile_on_slot, Tile};
use crate::pricing::Hotel;

verus! {

/// Number of players of a game.
pub const PLAYERS: u8 = 4;

/// Number of tiles dealt to each player at the start of a game.
pub const HAND_SIZE: u8 = 6;

/// Cash each player starts with.
pub const STARTING_MONEY: i32 = 6000;

/// Identity of one of the `PLAYERS` players, numbered from one.
#[derive(Clone, Copy, Debug, PartialEq, Eq, Structural)]
pub enum PlayerId {
    One,
    Two,
    Three,
    Four,
}

impl PlayerId {
    /// The number of this player, from one to `PLAYERS`.
    pub open spec fn number(self) -> int {
        match self {
            PlayerId::One => 1,
            PlayerId::Two => 2,
            PlayerId::Three => 3,
            PlayerId::Four => 4,
        }
    }

    /// The player numbered `n`, or `None` where no player has that number.
    pub fn new(n: u8) -> (r: Option<PlayerId>)
        ensures
            r.is_some() == (1 <= n <= PLAYERS),
            r matches Some(p) ==> p.number() == n,
    {
        match n {
            1 => Some(PlayerId::One),
            2 => Some(PlayerId::Two),
            3 => Some(PlayerId::Three),
            4 => Some(PlayerId::Four),
            _ => None,
        }
    }
}

/// Number of shares a player holds of each hotel.
#[derive(Clone, Copy, Debug, PartialEq, Eq, Structural)]
pub struct PlayerShares {
    pub luxor: u32,
    pub tower: u32,
    pub american: u32,
    pub festival: u32,
    pub worldwide: u32,
    pub continental: u32,
    pub imperial: u32,
}

/// Number of shares of `hotel` in `shares`.
pub open spec fn share_count(shares: PlayerShares, hotel: Hotel) -> int {
    match hotel {
        Hotel::Tower => shares.tower as int,
        Hotel::Luxor => shares.luxor as int,
        Hotel::American => shares.american as int,
        Hotel::Worldwide => shares.worldwide as int,
        Hotel::Festival => shares.festival as int,
        Hotel::Imperial => shares.imperial as int,
        Hotel::Continental => shares.continental as int,
    }
}

/// Holdings with no share of any hotel.
pub open spec fn no_shares() -> PlayerShares {
    PlayerShares {
        luxor: 0,
        tower: 0,
        american: 0,
        festival: 0,
        worldwide: 0,
        continental: 0,
        imperial: 0,
    }
}

/// `shares` with one more share of `hotel`, or `None` where that count is
/// already at its largest value.
pub open spec fn add_share_spec(shares: PlayerShares, hotel: Hotel) -> Option<PlayerShares> {
    if share_count(shares, hotel) >= u32::MAX {
        None
    } else {
        Some(
            match hotel {
                Hotel::Tower => PlayerShares { tower: (shares.tower + 1) as u32, ..shares },
                Hotel::Luxor => PlayerShares { luxor: (shares.luxor + 1) as u32, ..shares },
                Hotel::American => PlayerShares { american: (shares.american + 1) as u32, ..shares },
                Hotel::Worldwide => PlayerShares {
                    worldwide: (shares.worldwide + 1) as u32,
                    ..shares
                },
                Hotel::Festival => PlayerShares { festival: (shares.festival + 1) as u32, ..shares },
                Hotel::Imperial => PlayerShares { imperial: (shares.imperial + 1) as u32, ..shares },
                Hotel::Continental => PlayerShares {
                    continental: (shares.continental + 1) as u32,
                    ..shares
                },
            },
        )
    }
}

/// Adding a share of `hotel` raises its count by one and keeps every other count.
pub proof fn lemma_add_share_count(shares: PlayerShares, hotel: Hotel, other: Hotel)
    requires
        add_share_spec(shares, hotel).is_some(),
    ensures
        share_count(add_share_spec(shares, hotel).unwrap(), other) == share_count(shares, other)
            + if other == hotel {
            1int
        } else {
            0int
        },
{
}

/// Holdings with no share of any hotel.
pub fn empty_shares() -> (r: PlayerShares)
    ensures
        r == no_shares(),
{
    PlayerShares {
        luxor: 0,
        tower: 0,
        american: 0,
        festival: 0,
        worldwide: 0,
        continental: 0,
        imperial: 0,
    }
}

/// `shares` with one more share of `hotel`; `None` where that count cannot grow.
pub fn add_share(shares: PlayerShares, hotel: Hotel) -> (r: Option<PlayerShares>)
    ensures
        r == add_share_spec(shares, hotel),
{
    let mut new_shares = shares;
    match hotel {
        Hotel::Tower => {
            if shares.tower == u32::MAX {
                return None;
            }
            new_shares.tower = shares.tower + 1;
        },
        Hotel::Luxor => {
            if shares.luxor == u32::MAX {
                return None;
            }
            new_shares.luxor = shares.luxor + 1;
        },
        Hotel::American => {
            if shares.american == u32::MAX {
                return None;
            }
            new_shares.american = shares.american + 1;
        },
        Hotel::Worldwide => {
            if shares.worldwide == u32::MAX {
                return None;
            }
            new_shares.worldwide = shares.worldwide + 1;
        },
        Hotel::Festival => {
            if shares.festival == u32::MAX {
                return None;
            }
            new_shares.festival = shares.festival + 1;
        },
        Hotel::Imperial => {
            if shares.imperial == u32::MAX {
                return None;
            }
            new_shares.imperial = shares.imperial + 1;
        },
        Hotel::Continental => {
            if shares.continental == u32::MAX {
                return None;
            }
            new_shares.continental = shares.continental + 1;
        },
    }
    Some(new_shares)
}

/// A player: identity, cash (which may in principle be negative), shares,
/// and the tiles held but not yet placed.
pub struct Player {
    pub id: PlayerId,
    pub money: i32,
    pub shares: PlayerShares,
    pub tiles: Vec<Tile>,
}

/// What a player is: its fields, with the held tiles as a sequence.
pub struct PlayerView {
    pub id: PlayerId,
    pub money: i32,
    pub shares: PlayerShares,
    pub tiles: Seq<Tile>,
}

impl View for Player {
    type V = PlayerView;

    open spec fn view(&self) -> PlayerView {
        PlayerView { id: self.id, money: self.money, shares: self.shares, tiles: self.tiles@ }
    }
}

impl Player {
    /// A player equal to this one.
    pub fn copy(&self) -> (r: Player)
        ensures
            r@ == self@,
    {
        let tiles = self.tiles.clone();
        assert(tiles@ =~= self.tiles@);
        Player { id: self.id, money: self.money, shares: self.shares, tiles: tiles }
    }
}

/// Whether `player` holds `tile`.
pub fn player_has_tile(player: &Player, tile: &Tile) -> (r: bool)
    ensures
        r == player@.tiles.contains(*tile),
{
    has_tile_on_slot(&player.tiles, tile.row, tile.col)
}

/// A new player with the starting cash, no shares and the given tiles.
pub fn new_player(id: PlayerId, tiles: Vec<Tile>) -> (r: Player)
    ensures
        r@ == (PlayerView { id: id, money: STARTING_MONEY, shares: no_shares(), tiles: tiles@ }),
{
    Player { id: id, money: STARTING_MONEY, shares: empty_shares(), tiles: tiles }
}

} // verus!
