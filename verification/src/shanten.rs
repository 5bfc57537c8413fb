use crate::constants::tally;
use crate::hand::{ints, is_hand, lemma_ints_update, less, total};
use crate::interfaces::HairiResult;
use crate::least::{least_of_all, lemma_shanten_above};
use crate::reach::{
    in_budget, lemma_budget_steps, lemma_leaf_floor, lemma_partials_floor, lemma_prefix_nonneg,
    lemma_search_floor,
};
use crate::search::{
    at_least, discards_from, height, honors_with, kinds_with, leaf, lemma_pairs_bound, lemma_waits,
    locked, min2, orphans_shanten, orphans_with, partials, search, seven_pairs_shanten, shanten,
    standard_shanten, start, take_isolated, take_pair, take_run, take_set, take_tatsu_first,
    take_tatsu_second, waits_from, Search,
};
use crate::shapes::{lemma_total_prefix, prefix_total};
use vstd::prelude::*;

verus! {

/// The distance of a complete hand.
pub const AGARI_STATE: i8 = -1;

/// The search for the distance to the standard shape, with the tiles that are left and
/// the blocks counted so far.
struct Shanten {
    tiles: Vec<i8>,
    number_melds: i8,
    number_tatsu: i8,
    number_pairs: i8,
    number_jidahai: i8,
    number_characters: Vec<bool>,
    number_isolated_tiles: Vec<bool>,
    min_shanten: i8,
}

impl Shanten {
    /// The state of the search as mathematical values.
    spec fn state(&self) -> Search {
        Search {
            tiles: ints(self.tiles@),
            melds: self.number_melds as int,
            tatsu: self.number_tatsu as int,
            pairs: self.number_pairs as int,
            jidahai: self.number_jidahai as int,
            fours: self.number_characters@,
            isolated: self.number_isolated_tiles@,
        }
    }

    /// The least distance found so far.
    spec fn best(&self) -> int {
        self.min_shanten as int
    }

    /// What holds of the state throughout the search.
    spec fn fits(&self) -> bool {
        &&& in_budget(self.state())
        &&& self.number_characters.len() == 28
        &&& self.number_isolated_tiles.len() == 28
        &&& -1 <= self.min_shanten <= 8
    }

    /// No tile from `depth` on is set aside as isolated.
    spec fn clear_from(&self, depth: int) -> bool {
        forall|k: int| depth <= k < 27 ==> !#[trigger] self.number_isolated_tiles[k]
    }

    /// A search that has found nothing yet.
    fn new() -> (s: Self)
        ensures
            s.best() == 8,
    {
        Shanten {
            tiles: Vec::new(),
            number_melds: 0,
            number_tatsu: 0,
            number_pairs: 0,
            number_jidahai: 0,
            number_characters: Vec::new(),
            number_isolated_tiles: Vec::new(),
            min_shanten: 8,
        }
    }

    /// The distance to completion of a hand: the least of the distances to the shapes
    /// that are asked for.
    fn calculate_shanten(&mut self, tiles_34: &[i8], use_chiitoitsu: bool, use_kokushi: bool) -> (r:
        i8)
        requires
            is_hand(tiles_34@),
            total(ints(tiles_34@)) <= 14,
        ensures
            r == min2(
                min2(
                    standard_shanten(ints(tiles_34@)),
                    if use_chiitoitsu {
                        seven_pairs_shanten(ints(tiles_34@))
                    } else {
                        8
                    },
                ),
                if use_kokushi {
                    orphans_shanten(ints(tiles_34@))
                } else {
                    8
                },
            ),
    {
        let mut least: i8 = self.calculate_shanten_for_regular_hand(tiles_34);
        if use_chiitoitsu {
            let other: i8 = self.calculate_shanten_for_chiitoitsu_hand(tiles_34);
            if other < least {
                least = other;
            }
        }
        if use_kokushi {
            let other: i8 = self.calculate_shanten_for_kokushi_hand(tiles_34);
            if other < least {
                least = other;
            }
        }
        least
    }

    /// The distance to seven pairs.
    fn calculate_shanten_for_chiitoitsu_hand(&self, tiles_34: &[i8]) -> (r: i8)
        requires
            tiles_34.len() == 34,
        ensures
            r == seven_pairs_shanten(ints(tiles_34@)),
    {
        let ghost h = ints(tiles_34@);
        let mut pairs: i8 = 0;
        let mut kinds: i8 = 0;
        let mut i: usize = 0;
        while i < 34
            invariant
                0 <= i <= 34,
                tiles_34.len() == 34,
                h == ints(tiles_34@),
                pairs == kinds_with(h, 2, i as int),
                kinds == kinds_with(h, 1, i as int),
                0 <= pairs <= i,
                0 <= kinds <= i,
            decreases 34 - i,
        {
            if tiles_34[i] >= 2 {
                pairs += 1;
            }
            if tiles_34[i] >= 1 {
                kinds += 1;
            }
            i += 1;
        }
        if pairs == 7 {
            return AGARI_STATE;
        }
        6 - pairs + if kinds < 7 {
            7 - kinds
        } else {
            0
        }
    }

    /// The distance to thirteen orphans.
    fn calculate_shanten_for_kokushi_hand(&self, tiles_34: &[i8]) -> (r: i8)
        requires
            tiles_34.len() == 34,
        ensures
            r == orphans_shanten(ints(tiles_34@)),
    {
        let terminals: i8 = count_orphans(tiles_34, 1);
        let completed_terminals: i8 = count_orphans(tiles_34, 2);
        13 - terminals - if completed_terminals > 0 {
            1
        } else {
            0
        }
    }

    /// The distance to the standard shape.
    fn calculate_shanten_for_regular_hand(&mut self, tiles_34: &[i8]) -> (r: i8)
        requires
            is_hand(tiles_34@),
            total(ints(tiles_34@)) <= 14,
        ensures
            r == standard_shanten(ints(tiles_34@)),
            -1 <= r <= 8,
    {
        let ghost h = ints(tiles_34@);
        self.init(tiles_34);
        let count_of_tiles: i32 = tally(&self.tiles);
        proof {
            crate::hand::lemma_total_nonneg(h);
            lemma_start_budget(h);
            lemma_honors_range(h, 3, 27);
            lemma_honors_range(h, 4, 27);
            lemma_search_floor(start(h), 0);
        }
        self.remove_character_tiles(count_of_tiles as i8);
        let init_mentsu: i8 = ((14 - count_of_tiles) / 3) as i8;
        proof {
            let first = marked(self.state(), init_mentsu as int);
            assert(first.fours =~= start(h).fours);
            assert(first == start(h));
            assert(self.clear_from(0));
        }
        self.scan(init_mentsu);
        self.min_shanten
    }

    /// Takes the hand in and counts nothing yet.
    fn init(&mut self, tiles: &[i8])
        requires
            tiles.len() == 34,
        ensures
            final(self).tiles@ == tiles@,
            final(self).number_melds == 0,
            final(self).number_tatsu == 0,
            final(self).number_pairs == 0,
            final(self).number_jidahai == 0,
            final(self).number_characters@ == Seq::new(28, |i: int| false),
            final(self).number_isolated_tiles@ == Seq::new(28, |i: int| false),
            final(self).min_shanten == 8,
    {
        let mut copy: Vec<i8> = Vec::new();
        let mut marks: Vec<bool> = Vec::new();
        let mut lone: Vec<bool> = Vec::new();
        let mut i: usize = 0;
        while i < 34
            invariant
                0 <= i <= 34,
                tiles.len() == 34,
                copy@ == tiles@.take(i as int),
            decreases 34 - i,
        {
            copy.push(tiles[i]);
            i += 1;
            assert(copy@ =~= tiles@.take(i as int));
        }
        assert(tiles@.take(34) =~= tiles@);
        let mut j: usize = 0;
        while j < 28
            invariant
                0 <= j <= 28,
                marks@ == Seq::new(j as nat, |i: int| false),
                lone@ == Seq::new(j as nat, |i: int| false),
            decreases 28 - j,
        {
            marks.push(false);
            lone.push(false);
            j += 1;
            assert(marks@ =~= Seq::new(j as nat, |i: int| false));
            assert(lone@ =~= Seq::new(j as nat, |i: int| false));
        }
        self.tiles = copy;
        self.number_melds = 0;
        self.number_tatsu = 0;
        self.number_pairs = 0;
        self.number_jidahai = 0;
        self.number_characters = marks;
        self.number_isolated_tiles = lone;
        self.min_shanten = 8;
    }

    /// Takes a triplet at `k`.
    fn increase_set(&mut self, k: usize)
        requires
            old(self).fits(),
            k < 27,
            old(self).tiles[k as int] >= 3,
        ensures
            final(self).state() == take_set(old(self).state(), k as int),
            final(self).best() == old(self).best(),
            final(self).fits(),
    {
        proof {
            lemma_budget_steps(self.state(), k as int);
            lemma_prefix_nonneg(self.state().tiles, 27);
        }
        proof {
            lemma_ints_update(self.tiles@, k as int, (self.tiles[k as int] - 3) as i8);
        }
        self.tiles[k] = self.tiles[k] - 3;
        self.number_melds = self.number_melds + 1;
        assert(self.state().tiles =~= take_set(old(self).state(), k as int).tiles);
    }

    /// Puts the triplet at `k` back.
    fn decrease_set(&mut self, k: usize, Ghost(before): Ghost<Search>)
        requires
            k < 27,
            old(self).tiles.len() == 34,
            old(self).number_isolated_tiles.len() == 28,
            in_budget(before),
            old(self).state() == take_set(before, k as int),
        ensures
            final(self).state() == before,
            final(self).best() == old(self).best(),
            final(self).number_characters == old(self).number_characters,
            final(self).number_isolated_tiles.len() == 28,
    {
        proof {
            lemma_prefix_nonneg(before.tiles, 27);
            assert(self.state().tiles[k as int] == self.tiles[k as int] as int);
            assert(take_set(before, k as int).tiles[k as int] == before.tiles[k as int] - 3);
            assert(before.tiles[k as int] <= prefix_total(before.tiles, 27));
        }
        proof {
            lemma_ints_update(self.tiles@, k as int, (self.tiles[k as int] + 3) as i8);
        }
        self.tiles[k] = self.tiles[k] + 3;
        self.number_melds = self.number_melds - 1;
        assert(self.state().tiles =~= before.tiles);
    }
    /// Takes a pair at `k`.
    fn increase_pair(&mut self, k: usize)
        requires
            old(self).fits(),
            k < 27,
            old(self).tiles[k as int] >= 2,
        ensures
            final(self).state() == take_pair(old(self).state(), k as int),
            final(self).best() == old(self).best(),
            final(self).fits(),
    {
        proof {
            lemma_budget_steps(self.state(), k as int);
            lemma_prefix_nonneg(self.state().tiles, 27);
        }
        proof {
            lemma_ints_update(self.tiles@, k as int, (self.tiles[k as int] - 2) as i8);
        }
        self.tiles[k] = self.tiles[k] - 2;
        self.number_pairs = self.number_pairs + 1;
        assert(self.state().tiles =~= take_pair(old(self).state(), k as int).tiles);
    }

    /// Puts the pair at `k` back.
    fn decrease_pair(&mut self, k: usize, Ghost(before): Ghost<Search>)
        requires
            k < 27,
            old(self).tiles.len() == 34,
            old(self).number_isolated_tiles.len() == 28,
            in_budget(before),
            old(self).state() == take_pair(before, k as int),
        ensures
            final(self).state() == before,
            final(self).best() == old(self).best(),
            final(self).number_characters == old(self).number_characters,
            final(self).number_isolated_tiles.len() == 28,
    {
        proof {
            lemma_prefix_nonneg(before.tiles, 27);
            assert(self.state().tiles[k as int] == self.tiles[k as int] as int);
            assert(take_pair(before, k as int).tiles[k as int] == before.tiles[k as int] - 2);
            assert(before.tiles[k as int] <= prefix_total(before.tiles, 27));
        }
        proof {
            lemma_ints_update(self.tiles@, k as int, (self.tiles[k as int] + 2) as i8);
        }
        self.tiles[k] = self.tiles[k] + 2;
        self.number_pairs = self.number_pairs - 1;
        assert(self.state().tiles =~= before.tiles);
    }
    /// Takes the run that starts at `k`.
    fn increase_shuntsu(&mut self, k: usize)
        requires
            old(self).fits(),
            k < 27,
            k + 2 < 27,
            old(self).tiles[k as int] >= 1,
            old(self).tiles[k + 1] >= 1,
            old(self).tiles[k + 2] >= 1,
        ensures
            final(self).state() == take_run(old(self).state(), k as int),
            final(self).best() == old(self).best(),
            final(self).fits(),
    {
        proof {
            lemma_budget_steps(self.state(), k as int);
            lemma_prefix_nonneg(self.state().tiles, 27);
        }
        proof {
            lemma_ints_update(self.tiles@, k as int, (self.tiles[k as int] - 1) as i8);
        }
        self.tiles[k] = self.tiles[k] - 1;
        proof {
            lemma_ints_update(self.tiles@, k + 1 as int, (self.tiles[k + 1 as int] - 1) as i8);
        }
        self.tiles[k + 1] = self.tiles[k + 1] - 1;
        proof {
            lemma_ints_update(self.tiles@, k + 2 as int, (self.tiles[k + 2 as int] - 1) as i8);
        }
        self.tiles[k + 2] = self.tiles[k + 2] - 1;
        self.number_melds = self.number_melds + 1;
        assert(self.state().tiles =~= take_run(old(self).state(), k as int).tiles);
    }

    /// Puts the run that starts at `k` back.
    fn decrease_shuntsu(&mut self, k: usize, Ghost(before): Ghost<Search>)
        requires
            k < 27,
            k + 2 < 27,
            old(self).tiles.len() == 34,
            old(self).number_isolated_tiles.len() == 28,
            in_budget(before),
            old(self).state() == take_run(before, k as int),
        ensures
            final(self).state() == before,
            final(self).best() == old(self).best(),
            final(self).number_characters == old(self).number_characters,
            final(self).number_isolated_tiles.len() == 28,
    {
        proof {
            lemma_prefix_nonneg(before.tiles, 27);
            assert(self.state().tiles[k as int] == self.tiles[k as int] as int);
            assert(take_run(before, k as int).tiles[k as int] == before.tiles[k as int] - 1);
            assert(self.state().tiles[k + 1] == self.tiles[k + 1] as int);
            assert(take_run(before, k as int).tiles[k + 1] == before.tiles[k + 1] - 1);
            assert(self.state().tiles[k + 2] == self.tiles[k + 2] as int);
            assert(take_run(before, k as int).tiles[k + 2] == before.tiles[k + 2] - 1);
            assert(before.tiles[k as int] <= prefix_total(before.tiles, 27));
            assert(before.tiles[k + 1 as int] <= prefix_total(before.tiles, 27));
            assert(before.tiles[k + 2 as int] <= prefix_total(before.tiles, 27));
        }
        proof {
            lemma_ints_update(self.tiles@, k as int, (self.tiles[k as int] + 1) as i8);
        }
        self.tiles[k] = self.tiles[k] + 1;
        proof {
            lemma_ints_update(self.tiles@, k + 1 as int, (self.tiles[k + 1 as int] + 1) as i8);
        }
        self.tiles[k + 1] = self.tiles[k + 1] + 1;
        proof {
            lemma_ints_update(self.tiles@, k + 2 as int, (self.tiles[k + 2 as int] + 1) as i8);
        }
        self.tiles[k + 2] = self.tiles[k + 2] + 1;
        self.number_melds = self.number_melds - 1;
        assert(self.state().tiles =~= before.tiles);
    }
    /// Takes the tiles at `k` and `k + 1` as a partial run.
    fn increase_tatsu_first(&mut self, k: usize)
        requires
            old(self).fits(),
            k < 27,
            k + 1 < 27,
            old(self).tiles[k as int] >= 1,
            old(self).tiles[k + 1] >= 1,
        ensures
            final(self).state() == take_tatsu_first(old(self).state(), k as int),
            final(self).best() == old(self).best(),
            final(self).fits(),
    {
        proof {
            lemma_budget_steps(self.state(), k as int);
            lemma_prefix_nonneg(self.state().tiles, 27);
        }
        proof {
            lemma_ints_update(self.tiles@, k as int, (self.tiles[k as int] - 1) as i8);
        }
        self.tiles[k] = self.tiles[k] - 1;
        proof {
            lemma_ints_update(self.tiles@, k + 1 as int, (self.tiles[k + 1 as int] - 1) as i8);
        }
        self.tiles[k + 1] = self.tiles[k + 1] - 1;
        self.number_tatsu = self.number_tatsu + 1;
        assert(self.state().tiles =~= take_tatsu_first(old(self).state(), k as int).tiles);
    }

    /// Puts that partial run back.
    fn decrease_tatsu_first(&mut self, k: usize, Ghost(before): Ghost<Search>)
        requires
            k < 27,
            k + 1 < 27,
            old(self).tiles.len() == 34,
            old(self).number_isolated_tiles.len() == 28,
            in_budget(before),
            old(self).state() == take_tatsu_first(before, k as int),
        ensures
            final(self).state() == before,
            final(self).best() == old(self).best(),
            final(self).number_characters == old(self).number_characters,
            final(self).number_isolated_tiles.len() == 28,
    {
        proof {
            lemma_prefix_nonneg(before.tiles, 27);
            assert(self.state().tiles[k as int] == self.tiles[k as int] as int);
            assert(take_tatsu_first(before, k as int).tiles[k as int] == before.tiles[k as int]
                - 1);
            assert(self.state().tiles[k + 1] == self.tiles[k + 1] as int);
            assert(take_tatsu_first(before, k as int).tiles[k + 1] == before.tiles[k + 1] - 1);
            assert(before.tiles[k as int] <= prefix_total(before.tiles, 27));
            assert(before.tiles[k + 1 as int] <= prefix_total(before.tiles, 27));
        }
        proof {
            lemma_ints_update(self.tiles@, k as int, (self.tiles[k as int] + 1) as i8);
        }
        self.tiles[k] = self.tiles[k] + 1;
        proof {
            lemma_ints_update(self.tiles@, k + 1 as int, (self.tiles[k + 1 as int] + 1) as i8);
        }
        self.tiles[k + 1] = self.tiles[k + 1] + 1;
        self.number_tatsu = self.number_tatsu - 1;
        assert(self.state().tiles =~= before.tiles);
    }
    /// Takes the tiles at `k` and `k + 2` as a partial run with a gap.
    fn increase_tatsu_second(&mut self, k: usize)
        requires
            old(self).fits(),
            k < 27,
            k + 2 < 27,
            old(self).tiles[k as int] >= 1,
            old(self).tiles[k + 2] >= 1,
        ensures
            final(self).state() == take_tatsu_second(old(self).state(), k as int),
            final(self).best() == old(self).best(),
            final(self).fits(),
    {
        proof {
            lemma_budget_steps(self.state(), k as int);
            lemma_prefix_nonneg(self.state().tiles, 27);
        }
        proof {
            lemma_ints_update(self.tiles@, k as int, (self.tiles[k as int] - 1) as i8);
        }
        self.tiles[k] = self.tiles[k] - 1;
        proof {
            lemma_ints_update(self.tiles@, k + 2 as int, (self.tiles[k + 2 as int] - 1) as i8);
        }
        self.tiles[k + 2] = self.tiles[k + 2] - 1;
        self.number_tatsu = self.number_tatsu + 1;
        assert(self.state().tiles =~= take_tatsu_second(old(self).state(), k as int).tiles);
    }

    /// Puts that partial run back.
    fn decrease_tatsu_second(&mut self, k: usize, Ghost(before): Ghost<Search>)
        requires
            k < 27,
            k + 2 < 27,
            old(self).tiles.len() == 34,
            old(self).number_isolated_tiles.len() == 28,
            in_budget(before),
            old(self).state() == take_tatsu_second(before, k as int),
        ensures
            final(self).state() == before,
            final(self).best() == old(self).best(),
            final(self).number_characters == old(self).number_characters,
            final(self).number_isolated_tiles.len() == 28,
    {
        proof {
            lemma_prefix_nonneg(before.tiles, 27);
            assert(self.state().tiles[k as int] == self.tiles[k as int] as int);
            assert(take_tatsu_second(before, k as int).tiles[k as int] == before.tiles[k as int]
                - 1);
            assert(self.state().tiles[k + 2] == self.tiles[k + 2] as int);
            assert(take_tatsu_second(before, k as int).tiles[k + 2] == before.tiles[k + 2] - 1);
            assert(before.tiles[k as int] <= prefix_total(before.tiles, 27));
            assert(before.tiles[k + 2 as int] <= prefix_total(before.tiles, 27));
        }
        proof {
            lemma_ints_update(self.tiles@, k as int, (self.tiles[k as int] + 1) as i8);
        }
        self.tiles[k] = self.tiles[k] + 1;
        proof {
            lemma_ints_update(self.tiles@, k + 2 as int, (self.tiles[k + 2 as int] + 1) as i8);
        }
        self.tiles[k + 2] = self.tiles[k + 2] + 1;
        self.number_tatsu = self.number_tatsu - 1;
        assert(self.state().tiles =~= before.tiles);
    }
    /// Sets one tile at `k` aside as isolated.
    fn increase_isolated_tile(&mut self, k: usize)
        requires
            old(self).fits(),
            k < 27,
            old(self).tiles[k as int] >= 1,
        ensures
            final(self).state() == take_isolated(old(self).state(), k as int),
            final(self).best() == old(self).best(),
            final(self).fits(),
    {
        proof {
            lemma_budget_steps(self.state(), k as int);
            lemma_prefix_nonneg(self.state().tiles, 27);
        }
        proof {
            lemma_ints_update(self.tiles@, k as int, (self.tiles[k as int] - 1) as i8);
        }
        self.tiles[k] = self.tiles[k] - 1;
        self.number_isolated_tiles[k] = true;
        assert(self.state().tiles =~= take_isolated(old(self).state(), k as int).tiles);
    }

    /// Takes the isolated tile at `k` back in.
    fn decrease_isolated_tile(&mut self, k: usize, Ghost(before): Ghost<Search>)
        requires
            k < 27,
            old(self).tiles.len() == 34,
            old(self).number_isolated_tiles.len() == 28,
            in_budget(before),
            before.isolated.len() == 28,
            !before.isolated[k as int],
            old(self).state() == take_isolated(before, k as int),
        ensures
            final(self).state() == before,
            final(self).best() == old(self).best(),
            final(self).number_characters == old(self).number_characters,
            final(self).number_isolated_tiles.len() == 28,
    {
        proof {
            lemma_prefix_nonneg(before.tiles, 27);
            assert(self.state().tiles[k as int] == self.tiles[k as int] as int);
            assert(take_isolated(before, k as int).tiles[k as int] == before.tiles[k as int] - 1);
            assert(before.tiles[k as int] <= prefix_total(before.tiles, 27));
        }
        proof {
            lemma_ints_update(self.tiles@, k as int, (self.tiles[k as int] + 1) as i8);
        }
        self.tiles[k] = self.tiles[k] + 1;
        assert(self.number_isolated_tiles@ == before.isolated.update(k as int, true));
        assert(before.isolated.len() == 28);
        self.number_isolated_tiles[k] = false;
        assert(self.number_isolated_tiles@ =~= before.isolated);
        assert(self.state().tiles =~= before.tiles);
    }
    /// Whether no pair can come of the isolated tiles.
    fn is_locked(&self) -> (r: bool)
        requires
            self.number_characters.len() == 28,
            self.number_isolated_tiles.len() == 28,
        ensures
            r == locked(self.state()),
    {
        let ghost st = self.state();
        let mut any_four = false;
        let mut any_lone = false;
        let mut inside = true;
        let mut i: usize = 0;
        while i < 28
            invariant
                0 <= i <= 28,
                st == self.state(),
                st.fours.len() == 28,
                st.isolated.len() == 28,
                any_four == exists|j: int| 0 <= j < i && #[trigger] st.fours[j],
                any_lone == exists|j: int| 0 <= j < i && #[trigger] st.isolated[j],
                inside == forall|j: int| 0 <= j < i && #[trigger] st.isolated[j] ==> st.fours[j],
            decreases 28 - i,
        {
            if self.number_characters[i] {
                assert(st.fours[i as int]);
                any_four = true;
            }
            if self.number_isolated_tiles[i] {
                assert(st.isolated[i as int]);
                any_lone = true;
                if !self.number_characters[i] {
                    inside = false;
                }
            }
            i += 1;
        }
        any_four && any_lone && inside
    }

    /// Takes the distance of the state as the least one if it is below it.
    fn update_result(&mut self)
        requires
            old(self).fits(),
        ensures
            final(self).state() == old(self).state(),
            final(self).number_characters == old(self).number_characters,
            final(self).number_isolated_tiles == old(self).number_isolated_tiles,
            final(self).best() == min2(old(self).best(), leaf(old(self).state())),
            final(self).fits(),
    {
        proof {
            lemma_prefix_nonneg(self.state().tiles, 27);
            lemma_leaf_floor(self.state());
        }
        let mut ret_shanten: i8 = 8 - self.number_melds * 2 - self.number_tatsu
            - self.number_pairs;
        let mut n_mentsu_kouho: i8 = self.number_melds + self.number_tatsu;
        if self.number_pairs > 0 {
            n_mentsu_kouho += self.number_pairs - 1;
        } else if self.is_locked() {
            ret_shanten += 1;
        }
        if n_mentsu_kouho > 4 {
            ret_shanten += n_mentsu_kouho - 4;
        }
        if ret_shanten != AGARI_STATE && ret_shanten < self.number_jidahai {
            ret_shanten = self.number_jidahai;
        }
        if ret_shanten < self.min_shanten {
            self.min_shanten = ret_shanten;
        }
    }

    /// Counts the honors: three or four of a kind are a meld, two are a pair, and a single
    /// tile, as the fourth of four, is isolated.
    fn remove_character_tiles(&mut self, nc: i8)
        requires
            is_hand(old(self).tiles@),
            nc == total(ints(old(self).tiles@)),
            total(ints(old(self).tiles@)) <= 14,
            old(self).number_melds == 0,
            old(self).number_tatsu == 0,
            old(self).number_pairs == 0,
            old(self).number_jidahai == 0,
            old(self).number_characters@ == Seq::new(28, |i: int| false),
            old(self).number_isolated_tiles@ == Seq::new(28, |i: int| false),
        ensures
            final(self).best() == old(self).best(),
            final(self).tiles@ == old(self).tiles@,
            final(self).state() == (Search {
                melds: start(ints(old(self).tiles@)).melds - (14 - nc) / 3,
                fours: Seq::new(28, |i: int| i == 27 && start(ints(old(self).tiles@)).fours[27]),
                ..start(ints(old(self).tiles@))
            }),
    {
        let ghost h = ints(self.tiles@);
        let mut lone = false;
        let mut single = false;
        let mut i: usize = 27;
        proof {
            lemma_honors_range(h, 1, 27);
            lemma_honors_range(h, 4, 27);
            crate::hand::lemma_total_nonneg(h);
        }
        while i < 34
            invariant
                27 <= i <= 34,
                h == ints(self.tiles@),
                self.tiles@ == old(self).tiles@,
                self.tiles.len() == 34,
                self.min_shanten == old(self).min_shanten,
                self.number_tatsu == 0,
                self.number_characters@ == Seq::new(28, |i: int| false),
                self.number_isolated_tiles@ == Seq::new(28, |i: int| false),
                0 <= self.number_melds <= i - 27,
                0 <= self.number_pairs <= i - 27,
                0 <= self.number_jidahai <= i - 27,
                self.number_melds + honors_with(h, 3, i as int) + honors_with(h, 4, i as int)
                    == honors_with(h, 3, 27) + honors_with(h, 4, 27),
                self.number_pairs + honors_with(h, 2, i as int) == honors_with(h, 2, 27),
                self.number_jidahai + honors_with(h, 4, i as int) == honors_with(h, 4, 27),
                honors_with(h, 1, i as int) >= 0 && honors_with(h, 4, i as int) >= 0,
                honors_with(h, 1, i as int) <= honors_with(h, 1, 27),
                honors_with(h, 4, i as int) <= honors_with(h, 4, 27),
                single == (honors_with(h, 1, 27) - honors_with(h, 1, i as int) > 0),
                lone == (honors_with(h, 1, 27) - honors_with(h, 1, i as int) + honors_with(
                    h,
                    4,
                    27,
                ) - honors_with(h, 4, i as int) > 0),
            decreases 34 - i,
        {
            let c: i8 = self.tiles[i];
            proof {
                assert(h[i as int] == c);
                lemma_honors_range(h, 1, i + 1);
                lemma_honors_range(h, 2, i + 1);
                lemma_honors_range(h, 3, i + 1);
                lemma_honors_range(h, 4, i + 1);
            }
            if c == 4 {
                self.number_melds += 1;
                self.number_jidahai += 1;
                lone = true;
            } else if c == 3 {
                self.number_melds += 1;
            } else if c == 2 {
                self.number_pairs += 1;
            } else if c == 1 {
                lone = true;
                single = true;
            }
            i += 1;
        }
        if self.number_jidahai > 0 && (nc % 3) == 2 {
            self.number_jidahai -= 1;
        }
        if lone {
            self.number_isolated_tiles[27] = true;
            if !single {
                self.number_characters[27] = true;
            }
        }
        proof {
            let want = Search {
                melds: start(h).melds - (14 - nc) / 3,
                fours: Seq::new(28, |i: int| i == 27 && start(h).fours[27]),
                ..start(h)
            };
            assert(honors_with(h, 1, 34) == 0 && honors_with(h, 4, 34) == 0);
            assert(honors_with(h, 2, 34) == 0 && honors_with(h, 3, 34) == 0);
            assert(self.state().fours =~= want.fours);
            assert(self.state().isolated =~= want.isolated);
            assert(self.state().tiles == want.tiles);
            assert(self.state().melds == want.melds);
            assert(self.state().pairs == want.pairs);
            assert(self.state().tatsu == want.tatsu);
            assert(self.state().jidahai == want.jidahai);
        }
    }

    /// Marks the numerals held four times, counts the melds that the hand lacks for
    /// fourteen tiles and runs the search through the numerals.
    fn scan(&mut self, init_mentsu: i8)
        requires
            old(self).tiles.len() == 34,
            old(self).number_characters.len() == 28,
            old(self).number_isolated_tiles.len() == 28,
            0 <= init_mentsu <= 4,
            0 <= old(self).number_melds <= 100,
            old(self).best() == 8,
            old(self).clear_from(0),
            in_budget(marked(old(self).state(), init_mentsu as int)),
        ensures
            final(self).best() == search(marked(old(self).state(), init_mentsu as int), 0),
    {
        let ghost before = self.state();
        let mut i: usize = 0;
        while i < 27
            invariant
                0 <= i <= 27,
                self.tiles == old(self).tiles,
                self.tiles.len() == 34,
                self.number_characters.len() == 28,
                before == old(self).state(),
                before.fours.len() == 28,
                self.number_isolated_tiles == old(self).number_isolated_tiles,
                self.number_melds == old(self).number_melds,
                self.number_tatsu == old(self).number_tatsu,
                self.number_pairs == old(self).number_pairs,
                self.number_jidahai == old(self).number_jidahai,
                self.min_shanten == old(self).min_shanten,
                forall|j: int|
                    0 <= j < 28 ==> self.number_characters[j] == (if j < i {
                        before.tiles[j] == 4 || before.fours[j]
                    } else {
                        before.fours[j]
                    }),
            decreases 27 - i,
        {
            if self.tiles[i] == 4 {
                assert(before.tiles[i as int] == 4);
                self.number_characters[i] = true;
            }
            i += 1;
        }
        self.number_melds += init_mentsu;
        proof {
            let first = marked(before, init_mentsu as int);
            assert(self.state().fours =~= first.fours);
            assert(self.state() == first);
            lemma_search_floor(first, 0);
            assert(self.fits());
        }
        self.run(0);
    }

    /// Searches the numerals from `depth` on and takes down the least distance found.
    /// Every use of the first kind that is left is tried, each one taken and put back.
    fn run(&mut self, from: usize)
        requires
            old(self).fits(),
            from <= 27,
            old(self).clear_from(from as int),
        ensures
            final(self).state() == old(self).state(),
            final(self).best() == min2(old(self).best(), search(old(self).state(), from as int)),
            final(self).fits(),
        decreases 27 - from, height(old(self).state(), from as int), 1int,
    {
        let ghost st = self.state();
        proof {
            lemma_search_floor(st, from as int);
        }
        if self.min_shanten == AGARI_STATE {
            return;
        }
        let mut depth: usize = from;
        while depth < 27 && self.tiles[depth] == 0
            invariant
                from <= depth <= 27,
                self.tiles.len() == 34,
                self.state() == st,
                st.tiles.len() == 34,
                search(st, from as int) == search(st, depth as int),
            decreases 27 - depth,
        {
            depth += 1;
        }
        if depth >= 27 {
            self.update_result();
            return;
        }
        let i: usize = depth % 9;
        let c: i8 = self.tiles[depth];
        assert(st.tiles[depth as int] == c);
        assert(self.clear_from(depth as int));
        if c == 4 {
            self.increase_set(depth);
            let ghost a = self.state();
            assert(a.tiles[depth as int] == 1);
            assert(self.tiles[depth as int] == a.tiles[depth as int]);
            self.run_partials(depth, false);
            self.increase_isolated_tile(depth);
            self.run(depth + 1);
            self.decrease_isolated_tile(depth, Ghost(a));
            self.decrease_set(depth, Ghost(st));
            self.increase_pair(depth);
            assert(self.state().tiles[depth as int] == 2);
            assert(self.tiles[depth as int] == self.state().tiles[depth as int]);
            self.run_partials(depth, true);
            self.decrease_pair(depth, Ghost(st));
        } else if c == 3 {
            self.increase_set(depth);
            self.run(depth + 1);
            self.decrease_set(depth, Ghost(st));
            self.increase_pair(depth);
            let ghost b = self.state();
            if i < 8 {
                assert(b.tiles[depth + 1] >= 0 && b.tiles[depth + 1] == st.tiles[depth + 1]);
            }
            if i < 7 {
                assert(b.tiles[depth + 2] >= 0 && b.tiles[depth + 2] == st.tiles[depth + 2]);
            }
            if i < 7 && self.tiles[depth + 1] != 0 && self.tiles[depth + 2] != 0 {
                self.increase_shuntsu(depth);
                self.run(depth + 1);
                self.decrease_shuntsu(depth, Ghost(b));
            } else {
                if i < 7 && self.tiles[depth + 2] != 0 {
                    self.increase_tatsu_second(depth);
                    self.run(depth + 1);
                    self.decrease_tatsu_second(depth, Ghost(b));
                }
                if i < 8 && self.tiles[depth + 1] != 0 {
                    self.increase_tatsu_first(depth);
                    self.run(depth + 1);
                    self.decrease_tatsu_first(depth, Ghost(b));
                }
            }
            self.decrease_pair(depth, Ghost(st));
            if i < 7 {
                assert(st.tiles[depth + 1] == self.tiles[depth + 1] && st.tiles[depth + 2]
                    == self.tiles[depth + 2]);
            }
            if i < 7 && self.tiles[depth + 2] >= 2 && self.tiles[depth + 1] >= 2 {
                self.increase_shuntsu(depth);
                let ghost once = self.state();
                assert(self.tiles[depth as int] == once.tiles[depth as int]);
                assert(self.tiles[depth + 1] == once.tiles[depth + 1]);
                assert(self.tiles[depth + 2] == once.tiles[depth + 2]);
                self.increase_shuntsu(depth);
                self.run(depth);
                self.decrease_shuntsu(depth, Ghost(once));
                self.decrease_shuntsu(depth, Ghost(st));
            }
        } else if c == 2 {
            self.increase_pair(depth);
            self.run(depth + 1);
            self.decrease_pair(depth, Ghost(st));
            if i < 7 {
                assert(st.tiles[depth + 1] >= 0 && st.tiles[depth + 2] >= 0);
            }
            if i < 7 && self.tiles[depth + 2] != 0 && self.tiles[depth + 1] != 0 {
                self.increase_shuntsu(depth);
                self.run(depth);
                self.decrease_shuntsu(depth, Ghost(st));
            }
        } else if c == 1 {
            if i < 7 {
                assert(st.tiles[depth + 1] >= 0 && st.tiles[depth + 2] >= 0);
            }
            if i < 6 && self.tiles[depth + 1] == 1 && self.tiles[depth + 2] != 0 && self.tiles[depth
                + 3] != 4 {
                self.increase_shuntsu(depth);
                self.run(depth + 2);
                self.decrease_shuntsu(depth, Ghost(st));
            } else {
                self.increase_isolated_tile(depth);
                self.run(depth + 1);
                self.decrease_isolated_tile(depth, Ghost(st));
                self.run_partials(depth, false);
            }
        }
    }

    /// Tries the tile at `depth` as the start of a run and of a partial run. After a run
    /// the search goes on at `depth` itself if `again` is set, else behind it.
    fn run_partials(&mut self, depth: usize, again: bool)
        requires
            old(self).fits(),
            depth < 27,
            old(self).tiles[depth as int] >= 1,
            old(self).clear_from(depth as int),
        ensures
            final(self).state() == old(self).state(),
            final(self).best() == min2(
                old(self).best(),
                partials(old(self).state(), depth as int, again),
            ),
            final(self).fits(),
        decreases 27 - depth, height(old(self).state(), depth as int), 0int,
    {
        let ghost st = self.state();
        let i: usize = depth % 9;
        proof {
            lemma_partials_floor(st, depth as int, again);
            if i < 8 {
                assert(st.tiles[depth + 1] >= 0);
            }
            if i < 7 {
                assert(st.tiles[depth + 2] >= 0);
            }
        }
        if i < 7 && self.tiles[depth + 2] != 0 {
            if self.tiles[depth + 1] != 0 {
                self.increase_shuntsu(depth);
                self.run(
                    if again {
                        depth
                    } else {
                        depth + 1
                    },
                );
                self.decrease_shuntsu(depth, Ghost(st));
            }
            self.increase_tatsu_second(depth);
            self.run(depth + 1);
            self.decrease_tatsu_second(depth, Ghost(st));
        }
        if i < 8 && self.tiles[depth + 1] != 0 {
            self.increase_tatsu_first(depth);
            self.run(depth + 1);
            self.decrease_tatsu_first(depth, Ghost(st));
        }
    }
}

/// There are seven honor kinds.
pub proof fn lemma_honors_range(h: Seq<int>, v: int, i: int)
    requires
        27 <= i <= 34,
    ensures
        0 <= honors_with(h, v, i) <= 34 - i,
    decreases 34 - i,
{
    if i < 34 {
        lemma_honors_range(h, v, i + 1);
    }
}

/// The honors that are counted as melds and pairs are no more tiles than the honors held.
pub proof fn lemma_honors_budget(h: Seq<int>, i: int)
    requires
        h.len() == 34,
        27 <= i <= 34,
        forall|k: int| 0 <= k < 34 ==> h[k] >= 0,
    ensures
        prefix_total(h, i) + 3 * honors_with(h, 3, i) + 3 * honors_with(h, 4, i) + 2 * honors_with(
            h,
            2,
            i,
        ) <= prefix_total(h, 34),
    decreases 34 - i,
{
    if i < 34 {
        lemma_honors_budget(h, i + 1);
    }
}

/// The search starts within its budget.
pub proof fn lemma_start_budget(h: Seq<int>)
    requires
        h.len() == 34,
        forall|k: int| 0 <= k < 34 ==> h[k] >= 0,
        total(h) <= 14,
    ensures
        in_budget(start(h)),
{
    lemma_honors_budget(h, 27);
    lemma_honors_range(h, 2, 27);
    lemma_honors_range(h, 3, 27);
    lemma_honors_range(h, 4, 27);
    lemma_total_prefix(h, 34);
    assert(h.take(34) =~= h);
    crate::hand::lemma_total_nonneg(h);
}

/// The state with the melds counted that the hand lacks for fourteen tiles, and with the
/// numerals that are held four times marked.
pub open spec fn marked(st: Search, init: int) -> Search {
    Search {
        melds: st.melds + init,
        fours: Seq::new(
            28,
            |i: int|
                if i < 27 {
                    st.tiles[i] == 4 || st.fours[i]
                } else {
                    st.fours[27]
                },
        ),
        ..st
    }
}

/// How many of the thirteen terminal and honor kinds are held at least `v` times.
fn count_orphans(t: &[i8], v: i8) -> (r: i8)
    requires
        t.len() == 34,
    ensures
        r == orphans_with(ints(t@), v as int),
        0 <= r <= 13,
{
    let ghost h = ints(t@);
    let a: i8 = one_if(t[0], v) + one_if(t[8], v) + one_if(t[9], v);
    assert(a == at_least(h[0], v as int) + at_least(h[8], v as int) + at_least(h[9], v as int));
    let b: i8 = a + one_if(t[17], v) + one_if(t[18], v) + one_if(t[26], v);
    assert(b == a + at_least(h[17], v as int) + at_least(h[18], v as int) + at_least(
        h[26],
        v as int,
    ));
    let c: i8 = b + one_if(t[27], v) + one_if(t[28], v) + one_if(t[29], v);
    assert(c == b + at_least(h[27], v as int) + at_least(h[28], v as int) + at_least(
        h[29],
        v as int,
    ));
    let d: i8 = c + one_if(t[30], v) + one_if(t[31], v) + one_if(t[32], v) + one_if(t[33], v);
    assert(d == c + at_least(h[30], v as int) + at_least(h[31], v as int) + at_least(
        h[32],
        v as int,
    ) + at_least(h[33], v as int));
    d
}

/// One if `c` is `v` or more, else zero.
fn one_if(c: i8, v: i8) -> (r: i8)
    ensures
        r == at_least(c as int, v as int),
{
    if c >= v {
        1
    } else {
        0
    }
}

/// The distance of a hand to completion: the least of the distances to the three
/// shapes. It is -1 exactly for a complete hand. The distance to the standard shape is
/// the least that the search finds among the ways of taking melds, pairs and partial
/// runs from the hand; it is never below the least over all such ways.
pub fn calc_shanten(tiles_34: &[i8]) -> (r: i8)
    requires
        is_hand(tiles_34@),
        total(ints(tiles_34@)) <= 14,
    ensures
        r == shanten(ints(tiles_34@)),
        -1 <= r <= 8,
        r >= least_of_all(ints(tiles_34@)),
{
    let mut shanten = Shanten::new();
    proof {
        let h = ints(tiles_34@);
        assert forall|k: int| 0 <= k < 34 implies h[k] >= 0 by {
            assert(tiles_34@[k] >= 0);
        }
        lemma_shanten_above(h);
        lemma_start_budget(h);
        lemma_search_floor(start(h), 0);
        lemma_pairs_bound(h, 34);
        lemma_total_prefix(h, 34);
        assert(h.take(34) =~= h);
    }
    shanten.calculate_shanten(tiles_34, true, true)
}

/// The entries of a list of discards as mathematical values.
pub open spec fn discards_view(v: Seq<(i8, Vec<i8>)>) -> Seq<(i8, Seq<i8>)> {
    Seq::new(v.len(), |i: int| (v[i].0, v[i].1@))
}

/// The kinds, other than `current_index`, of which one more tile brings the hand below
/// the distance `sht`.
fn find_waits(tiles_34: &mut Vec<i8>, sht: i8, current_index: i8) -> (waits: Vec<i8>)
    requires
        is_hand(old(tiles_34)@),
        total(ints(old(tiles_34)@)) <= 13,
    ensures
        final(tiles_34)@ == old(tiles_34)@,
        waits@ == waits_from(ints(old(tiles_34)@), sht as int, current_index as int, 0),
{
    let ghost h = ints(tiles_34@);
    let ghost held = tiles_34@;
    let mut waits: Vec<i8> = Vec::new();
    let mut i: usize = 0;
    assert(waits@ + waits_from(h, sht as int, current_index as int, 0) =~= waits_from(
        h,
        sht as int,
        current_index as int,
        0,
    ));
    proof {
        crate::hand::lemma_total_nonneg(h);
    }
    while i < 34
        invariant
            0 <= i <= 34,
            tiles_34@ == held,
            is_hand(held),
            h == ints(held),
            0 <= total(h) <= 13,
            waits_from(h, sht as int, current_index as int, 0) == waits@ + waits_from(
                h,
                sht as int,
                current_index as int,
                i as int,
            ),
        decreases 34 - i,
    {
        let ghost found = waits@;
        if i as i8 != current_index {
            proof {
                assert forall|j: int| 0 <= j < 34 implies h[j] >= 0 by {
                    assert(held[j] >= 0);
                }
                crate::hand::lemma_total_bounds_entry(h, i as int);
                crate::hand::lemma_total_update(h, i as int, h[i as int] + 1);
                lemma_ints_update(held, i as int, (held[i as int] + 1) as i8);
            }
            tiles_34[i] = tiles_34[i] + 1;
            assert(ints(tiles_34@) == less(h, i as int, -1));
            if calc_shanten(tiles_34.as_slice()) < sht {
                waits.push(i as i8);
                assert(found + (seq![i as i8] + waits_from(
                    h,
                    sht as int,
                    current_index as int,
                    i + 1,
                )) =~= waits@ + waits_from(h, sht as int, current_index as int, i + 1));
            }
            tiles_34[i] = tiles_34[i] - 1;
            assert(tiles_34@ =~= held);
        }
        i += 1;
    }
    assert(waits@ + waits_from(h, sht as int, current_index as int, 34) =~= waits@);
    waits
}

/// Whether `r` says what the hand `h` waits for. A complete hand has no answer. The
/// answer names the distance of the hand; for a hand of thirteen tiles it lists the kinds
/// of which one more tile brings the hand closer to completion, and these only; for a
/// hand of fourteen tiles it lists the discards that keep the distance, each with the
/// waits after it.
pub open spec fn is_hairi_of(h: Seq<int>, r: Option<HairiResult>) -> bool {
    &&& r is None <==> shanten(h) == -1
    &&& r matches Some(res) ==> {
        &&& res.now == shanten(h)
        &&& res.wait@ == (if total(h) % 3 == 1 {
            waits_from(h, shanten(h), -1, 0)
        } else {
            seq![]
        })
        &&& discards_view(res.waits_after_discard@) == (if total(h) % 3 == 1 {
            seq![]
        } else {
            discards_from(h, shanten(h), 0)
        })
        &&& total(h) % 3 == 1 ==> forall|k: int|
            0 <= k < 34 ==> (res.wait@.contains(k as i8) <==> shanten(#[trigger] less(h, k, -1))
                < shanten(h))
    }
}

/// What a hand that is not complete waits for. A complete hand has no answer.
///
/// For a hand whose number of tiles leaves a remainder of one when divided by three,
/// which is a hand of thirteen tiles, the answer holds the kinds of which one more tile
/// brings the hand closer to completion. For any other hand, which is a hand of fourteen
/// tiles, it holds each kind that can be discarded without moving the hand away from
/// completion, with what the hand waits for after that discard.
pub fn hairi(tiles_34: &mut Vec<i8>) -> (r: Option<HairiResult>)
    requires
        is_hand(old(tiles_34)@),
        total(ints(old(tiles_34)@)) <= 14,
    ensures
        final(tiles_34)@ == old(tiles_34)@,
        is_hairi_of(ints(old(tiles_34)@), r),
{
    let ghost h = ints(tiles_34@);
    let ghost held = tiles_34@;
    let sht: i8 = calc_shanten(tiles_34.as_slice());
    if sht == -1 {
        return None;
    }
    let count: i32 = tally(tiles_34);
    proof {
        crate::hand::lemma_total_nonneg(h);
    }
    if count % 3 == 1 {
        let wait = find_waits(tiles_34, sht, -1);
        proof {
            assert forall|k: int| 0 <= k < 34 implies (wait@.contains(k as i8) <==> shanten(
                #[trigger] less(h, k, -1),
            ) < shanten(h)) by {
                lemma_waits(h, sht as int, -1, 0, k);
            }
        }
        let res = HairiResult { now: sht, wait, waits_after_discard: Vec::new() };
        assert(discards_view(res.waits_after_discard@) =~= Seq::<(i8, Seq<i8>)>::empty());
        return Some(res);
    }
    let mut waits_after_discard: Vec<(i8, Vec<i8>)> = Vec::new();
    let mut i: usize = 0;
    assert(discards_view(waits_after_discard@) + discards_from(h, sht as int, 0)
        =~= discards_from(h, sht as int, 0));
    while i < 34
        invariant
            0 <= i <= 34,
            tiles_34@ == held,
            is_hand(held),
            h == ints(held),
            0 <= total(h) <= 14,
            discards_from(h, sht as int, 0) == discards_view(waits_after_discard@)
                + discards_from(h, sht as int, i as int),
        decreases 34 - i,
    {
        let ghost found = discards_view(waits_after_discard@);
        assert(held[i as int] >= 0);
        if tiles_34[i] != 0 {
            proof {
                crate::hand::lemma_total_update(h, i as int, h[i as int] - 1);
                lemma_ints_update(held, i as int, (held[i as int] - 1) as i8);
            }
            tiles_34[i] = tiles_34[i] - 1;
            let ghost less_one = tiles_34@;
            proof {
                assert(ints(less_one) == less(h, i as int, 1));
                assert(is_hand(less_one)) by {
                    assert forall|k: int| 0 <= k < 34 implies less_one[k] >= 0 by {
                        assert(held[k] >= 0);
                    }
                }
            }
            if calc_shanten(tiles_34.as_slice()) == sht {
                let w = find_waits(tiles_34, sht, i as i8);
                let ghost prev = waits_after_discard@;
                waits_after_discard.push((i as i8, w));
                proof {
                    let entry = (
                        i as i8,
                        waits_from(less(h, i as int, 1), sht as int, i as int, 0),
                    );
                    assert(discards_view(waits_after_discard@) =~= found.push(entry));
                    assert(found + (seq![entry] + discards_from(h, sht as int, i + 1))
                        =~= discards_view(waits_after_discard@) + discards_from(
                        h,
                        sht as int,
                        i + 1,
                    ));
                }
            }
            tiles_34[i] = tiles_34[i] + 1;
            assert(tiles_34@ =~= held);
        }
        i += 1;
    }
    assert(discards_view(waits_after_discard@) + discards_from(h, sht as int, 34)
        =~= discards_view(waits_after_discard@));
    Some(HairiResult { now: sht, wait: Vec::new(), waits_after_discard })
}

} // verus!
