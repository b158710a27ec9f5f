//! Share prices: a base price per hotel tier plus a step per chain-size level.

use vstd::prelude::*;

verus! {

/// One of the seven hotel chains.
#[derive(Clone, Copy, Debug, PartialEq, Eq, Structural)]
pub enum Hotel {
    Tower,
    Luxor,
    American,
    Worldwide,
    Festival,
    Imperial,
    Continental,
}

/// Base share price of a hotel, fixed by its tier (cheap, medium or spendy).
pub open spec fn base_price_spec(hotel: Hotel) -> int {
    match hotel {
        Hotel::Tower | Hotel::Luxor => 200,
        Hotel::American | Hotel::Worldwide | Hotel::Festival => 300,
        Hotel::Imperial | Hotel::Continental => 400,
    }
}

/// Price level of a chain of `n` tiles. Sizes below two (no chain on the board)
/// are given the lowest level, that of a two-tile chain.
pub open spec fn price_level_spec(n: int) -> int {
    if n <= 2 {
        0
    } else if n == 3 {
        1
    } else if n == 4 {
        2
    } else if n == 5 {
        3
    } else if n <= 10 {
        4
    } else if n <= 20 {
        5
    } else if n <= 30 {
        6
    } else if n <= 40 {
        7
    } else {
        8
    }
}

/// Share price of `hotel` when its chain holds `n` tiles.
pub open spec fn stock_price_spec(hotel: Hotel, n: int) -> int {
    base_price_spec(hotel) + 100 * price_level_spec(n)
}

/// Base share price of a hotel.
pub fn base_price(hotel: Hotel) -> (r: i32)
    ensures
        r == base_price_spec(hotel),
{
    let cheap: i32 = 200;
    let medium: i32 = 300;
    let spendy: i32 = 400;
    match hotel {
        Hotel::Tower => cheap,
        Hotel::Luxor => cheap,
        Hotel::American => medium,
        Hotel::Worldwide => medium,
        Hotel::Festival => medium,
        Hotel::Imperial => spendy,
        Hotel::Continental => spendy,
    }
}

/// Price level (number of hundreds added to the base price) of a chain of
/// `num_tiles` tiles.
pub fn price_level(num_tiles: usize) -> (r: u8)
    ensures
        r == price_level_spec(num_tiles as int),
        r <= 8,
{
    if num_tiles <= 2 {
        0
    } else if num_tiles == 3 {
        1
    } else if num_tiles == 4 {
        2
    } else if num_tiles == 5 {
        3
    } else if num_tiles <= 10 {
        4
    } else if num_tiles <= 20 {
        5
    } else if num_tiles <= 30 {
        6
    } else if num_tiles <= 40 {
        7
    } else {
        8
    }
}

/// Share price of `hotel` when its chain holds `num_tiles` tiles.
pub fn stock_price(hotel: Hotel, num_tiles: usize) -> (r: i32)
    ensures
        r == stock_price_spec(hotel, num_tiles as int),
        200 <= r <= 1200,
{
    base_price(hotel) + 100 * (price_level(num_tiles) as i32)
}

} // verus!
