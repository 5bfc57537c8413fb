use vstd::prelude::*;

verus! {

/// What a hand that is not complete waits for.
#[derive(Clone, Debug)]
pub struct HairiResult {
    /// The distance to completion.
    pub now: i8,
    /// The kinds that bring a hand of thirteen tiles closer to completion.
    pub wait: Vec<i8>,
    /// For a hand of fourteen tiles: each kind that can be discarded without moving away
    /// from completion, with the kinds that the hand waits for after that discard.
    pub waits_after_discard: Vec<(i8, Vec<i8>)>,
}

/// The circumstances of a win and the rules in force.
#[derive(Clone, Debug)]
pub struct RiichiOptions {
    pub dora: Vec<i8>,
    pub aka_count: i8,
    pub first_take: bool,
    pub riichi: bool,
    pub ippatsu: bool,
    pub double_riichi: bool,
    pub last_tile: bool,
    pub after_kan: bool,
    /// The winning tile if another player discarded it, -1 if it was drawn.
    pub tile_discarded_by_someone: i8,
    pub bakaze: i8,
    pub jikaze: i8,
    pub allow_aka: bool,
    pub allow_kuitan: bool,
    pub with_kiriage: bool,
    pub disabled_yaku: Vec<i8>,
    pub local_yaku_enabled: Vec<i8>,
    pub all_local_yaku_enabled: bool,
    pub allow_double_yakuman: bool,
}

/// A hand: the tiles held, and the melds declared, each with a mark that says whether
/// it lies open.
#[derive(Clone, Debug)]
pub struct RiichiHand {
    pub closed_part: Vec<i8>,
    pub open_part: Vec<(bool, Vec<i8>)>,
}

/// What a hand is worth.
#[derive(Clone, Debug)]
pub struct RiichiResult {
    pub is_agari: bool,
    pub yakuman: i8,
    pub han: i32,
    pub fu: i32,
    pub ten: i32,
    /// For a self-drawn win, what the dealer and what every other player pays.
    pub outgoing_ten: Option<(i32, i32)>,
    /// The patterns found, each with its value.
    pub yaku: Vec<(i8, i8)>,
    pub hairi: Option<HairiResult>,
}

} // verus!
